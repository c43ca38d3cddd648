//! What a run computes, as functions on sequences.
//!
//! A log is a `Seq<RecordView>` in input order. Nothing here is executable:
//! the contracts of the executable items are stated over these functions.
use crate::record::{PayloadView, RecordView};
use vstd::prelude::*;

verus! {

/// One group of records as a value of the model: the signature its records
/// share, and their timestamps in input order.
pub struct GroupView {
    pub signature: PayloadView,
    pub timestamps: Seq<Seq<char>>,
}

/// One reported group as a value of the model.
pub struct OutputView {
    pub payload: PayloadView,
    pub count: nat,
    pub earliest: Seq<char>,
    pub latest: Seq<char>,
}

impl GroupView {
    /// The report of a group: its signature, its size, and the timestamps of
    /// its first and its last record in input order.
    pub open spec fn summary(self) -> OutputView {
        OutputView {
            payload: self.signature,
            count: self.timestamps.len(),
            earliest: self.timestamps.first(),
            latest: self.timestamps.last(),
        }
    }
}

/// Whether `record` comes from the address `ip` and has the signature
/// `signature`. Both comparisons are exact equality of text.
pub open spec fn in_group(record: RecordView, ip: Seq<char>, signature: PayloadView) -> bool {
    record.remote_addr == ip && record.signature() == signature
}

/// The timestamps of the records of `records` that come from `ip` and have
/// the signature `signature`, in input order.
pub open spec fn group_timestamps(
    records: Seq<RecordView>,
    ip: Seq<char>,
    signature: PayloadView,
) -> Seq<Seq<char>> {
    records.filter(|r: RecordView| in_group(r, ip, signature)).map_values(
        |r: RecordView| r.time_iso8601,
    )
}

/// The signatures of the records that come from `ip`, each once, in the
/// order in which they first appear.
pub open spec fn signatures(records: Seq<RecordView>, ip: Seq<char>) -> Seq<PayloadView>
    decreases records.len(),
{
    if records.len() == 0 {
        Seq::empty()
    } else {
        let earlier = signatures(records.drop_last(), ip);
        let last = records.last();
        if last.remote_addr == ip && !earlier.contains(last.signature()) {
            earlier.push(last.signature())
        } else {
            earlier
        }
    }
}

/// The group that `records` holds for `signature`.
pub open spec fn group_of(
    records: Seq<RecordView>,
    ip: Seq<char>,
    signature: PayloadView,
) -> GroupView {
    GroupView { signature, timestamps: group_timestamps(records, ip, signature) }
}

/// The groups of the records that come from `ip`, one for each signature, in
/// the order in which the signatures first appear.
pub open spec fn grouping(records: Seq<RecordView>, ip: Seq<char>) -> Seq<GroupView> {
    signatures(records, ip).map_values(|s: PayloadView| group_of(records, ip, s))
}

/// The reports of the groups that hold at least `max` timestamps, in the
/// order of the groups.
pub open spec fn threshold(groups: Seq<GroupView>, max: nat) -> Seq<OutputView> {
    groups.filter(|g: GroupView| g.timestamps.len() >= max).map_values(
        |g: GroupView| g.summary(),
    )
}

/// What a run over `records` reports for the address `ip` and the minimum
/// group size `max`.
pub open spec fn summaries(records: Seq<RecordView>, ip: Seq<char>, max: nat) -> Seq<OutputView> {
    threshold(grouping(records, ip), max)
}

/// One line of a log as a value of the model.
pub enum LineView {
    Parsed(RecordView),
    Malformed,
}

/// Whether every line holds a record.
pub open spec fn all_parsed(lines: Seq<LineView>) -> bool {
    forall|i: int| 0 <= i < lines.len() ==> lines[i] is Parsed
}

/// The records of a log all of whose lines hold one.
pub open spec fn records_of(lines: Seq<LineView>) -> Seq<RecordView> {
    lines.map_values(|l: LineView| l->Parsed_0)
}

/// The groups that a run holds after `lines`: those of the records, as long
/// as every line held one, and none after a malformed line.
pub open spec fn groups_after(lines: Seq<LineView>, ip: Seq<char>) -> Seq<GroupView> {
    if all_parsed(lines) {
        grouping(records_of(lines), ip)
    } else {
        Seq::empty()
    }
}

} // verus!
