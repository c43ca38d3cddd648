//! Lemmas on the model: what a filter keeps, and how the signatures and the
//! groups change when one record is added to a log or taken out of it.
use crate::model::{
    group_of, group_timestamps, grouping, in_group, signatures, threshold, GroupView,
};
use crate::record::{PayloadView, RecordView};
use vstd::prelude::*;

verus! {

/// A record at the end of a log adds its timestamp at the end of its own
/// group and leaves every other group as it was.
pub(crate) proof fn lemma_group_timestamps_push(
    records: Seq<RecordView>,
    ip: Seq<char>,
    signature: PayloadView,
    record: RecordView,
)
    ensures
        group_timestamps(records.push(record), ip, signature) == if in_group(
            record,
            ip,
            signature,
        ) {
            group_timestamps(records, ip, signature).push(record.time_iso8601)
        } else {
            group_timestamps(records, ip, signature)
        },
{
    let member = |r: RecordView| in_group(r, ip, signature);
    let time = |r: RecordView| r.time_iso8601;
    records.lemma_filter_push(record, member);
    records.filter(member).lemma_push_map_commute(time, record);
}

/// A record at the end of a log adds its signature at the end of the
/// signatures if it comes from `ip` and its signature is new.
pub(crate) proof fn lemma_signatures_push(records: Seq<RecordView>, ip: Seq<char>, record: RecordView)
    ensures
        signatures(records.push(record), ip) == if record.remote_addr == ip && !signatures(
            records,
            ip,
        ).contains(record.signature()) {
            signatures(records, ip).push(record.signature())
        } else {
            signatures(records, ip)
        },
{
    assert(records.push(record).drop_last() =~= records);
}

/// A signature is among the signatures of a log exactly if its group holds
/// a timestamp.
pub(crate) proof fn lemma_signature_listed(records: Seq<RecordView>, ip: Seq<char>, signature: PayloadView)
    ensures
        signatures(records, ip).contains(signature) <==> group_timestamps(
            records,
            ip,
            signature,
        ).len() > 0,
    decreases records.len(),
{
    if records.len() == 0 {
        reveal(Seq::filter);
        assert(group_timestamps(records, ip, signature).len() == 0);
    } else {
        let earlier = records.drop_last();
        let last = records.last();
        assert(earlier.push(last) =~= records);
        lemma_signature_listed(earlier, ip, signature);
        lemma_group_timestamps_push(earlier, ip, signature, last);
        lemma_signatures_push(earlier, ip, last);
        let before = signatures(earlier, ip);
        if last.remote_addr == ip && !before.contains(last.signature()) {
            assert(before.push(last.signature()).last() == last.signature());
            assert forall|s: PayloadView|
                before.push(last.signature()).contains(s) <==> (before.contains(s) || s
                    == last.signature()) by {
                if before.contains(s) {
                    let i = choose|i: int| 0 <= i < before.len() && before[i] == s;
                    assert(before.push(last.signature())[i] == s);
                }
            }
        }
    }
}

/// No signature is listed twice.
pub(crate) proof fn lemma_signatures_distinct(records: Seq<RecordView>, ip: Seq<char>)
    ensures
        signatures(records, ip).no_duplicates(),
    decreases records.len(),
{
    if records.len() > 0 {
        lemma_signatures_distinct(records.drop_last(), ip);
    }
}

/// A record from another address leaves the grouping as it was.
pub(crate) proof fn lemma_grouping_push_other(records: Seq<RecordView>, ip: Seq<char>, record: RecordView)
    requires
        record.remote_addr != ip,
    ensures
        grouping(records.push(record), ip) == grouping(records, ip),
{
    lemma_signatures_push(records, ip, record);
    assert forall|s: PayloadView|
        group_of(records.push(record), ip, s) == group_of(records, ip, s) by {
        lemma_group_timestamps_push(records, ip, s, record);
    }
    assert(grouping(records.push(record), ip) =~= grouping(records, ip));
}

/// A record from `ip` whose signature is the one of the group at `index`
/// adds its timestamp at the end of that group.
pub(crate) proof fn lemma_grouping_push_known(
    records: Seq<RecordView>,
    ip: Seq<char>,
    record: RecordView,
    index: int,
)
    requires
        record.remote_addr == ip,
        0 <= index < grouping(records, ip).len(),
        grouping(records, ip)[index].signature == record.signature(),
    ensures
        grouping(records.push(record), ip) == grouping(records, ip).update(
            index,
            GroupView {
                signature: record.signature(),
                timestamps: grouping(records, ip)[index].timestamps.push(record.time_iso8601),
            },
        ),
{
    let listed = signatures(records, ip);
    assert(listed[index] == record.signature());
    lemma_signatures_push(records, ip, record);
    lemma_signatures_distinct(records, ip);
    assert forall|s: PayloadView|
        group_of(records.push(record), ip, s) == (if s == record.signature() {
            GroupView {
                signature: s,
                timestamps: group_timestamps(records, ip, s).push(record.time_iso8601),
            }
        } else {
            group_of(records, ip, s)
        }) by {
        lemma_group_timestamps_push(records, ip, s, record);
    }
    assert(grouping(records.push(record), ip) =~= grouping(records, ip).update(
        index,
        GroupView {
            signature: record.signature(),
            timestamps: grouping(records, ip)[index].timestamps.push(record.time_iso8601),
        },
    ));
}

/// A record from `ip` whose signature no group has yet opens a group of its
/// own behind the others.
pub(crate) proof fn lemma_grouping_push_new(records: Seq<RecordView>, ip: Seq<char>, record: RecordView)
    requires
        record.remote_addr == ip,
        forall|i: int|
            0 <= i < grouping(records, ip).len() ==> grouping(records, ip)[i].signature
                != record.signature(),
    ensures
        grouping(records.push(record), ip) == grouping(records, ip).push(
            GroupView { signature: record.signature(), timestamps: seq![record.time_iso8601] },
        ),
{
    let listed = signatures(records, ip);
    if listed.contains(record.signature()) {
        let i = choose|i: int| 0 <= i < listed.len() && listed[i] == record.signature();
        assert(grouping(records, ip)[i].signature == record.signature());
    }
    lemma_signatures_push(records, ip, record);
    lemma_signature_listed(records, ip, record.signature());
    assert forall|s: PayloadView|
        group_of(records.push(record), ip, s) == (if s == record.signature() {
            GroupView {
                signature: s,
                timestamps: group_timestamps(records, ip, s).push(record.time_iso8601),
            }
        } else {
            group_of(records, ip, s)
        }) by {
        lemma_group_timestamps_push(records, ip, s, record);
    }
    assert(group_timestamps(records, ip, record.signature()).push(record.time_iso8601)
        =~= seq![record.time_iso8601]);
    assert(grouping(records.push(record), ip) =~= grouping(records, ip).push(
        GroupView { signature: record.signature(), timestamps: seq![record.time_iso8601] },
    ));
}

/// Every group of a grouping holds a timestamp.
pub(crate) proof fn lemma_groups_nonempty(records: Seq<RecordView>, ip: Seq<char>, index: int)
    requires
        0 <= index < grouping(records, ip).len(),
    ensures
        grouping(records, ip)[index].timestamps.len() > 0,
{
    let listed = signatures(records, ip);
    assert(listed.contains(listed[index]));
    lemma_signature_listed(records, ip, listed[index]);
}

/// Where the elements that a filter keeps stood before: for each element of
/// the result its index in `s`, in rising order, and no index of a kept
/// element is missing.
pub(crate) proof fn lemma_filter_positions<A>(s: Seq<A>, keep: spec_fn(A) -> bool) -> (at: Seq<int>)
    ensures
        at.len() == s.filter(keep).len(),
        forall|i: int|
            0 <= i < at.len() ==> 0 <= #[trigger] at[i] < s.len() && s.filter(keep)[i] == s[at[i]]
                && keep(s[at[i]]),
        forall|i: int, j: int| 0 <= i < j < at.len() ==> at[i] < at[j],
        forall|k: int| 0 <= k < s.len() && keep(s[k]) ==> #[trigger] at.contains(k),
    decreases s.len(),
{
    reveal(Seq::filter);
    if s.len() == 0 {
        Seq::empty()
    } else {
        let before = lemma_filter_positions(s.drop_last(), keep);
        if keep(s.last()) {
            let at = before.push(s.len() - 1);
            assert forall|k: int| 0 <= k < s.len() && keep(s[k]) implies #[trigger] at.contains(
                k,
            ) by {
                if k < s.len() - 1 {
                    assert(s.drop_last()[k] == s[k]);
                    assert(before.contains(k));
                    let i = choose|i: int| 0 <= i < before.len() && before[i] == k;
                    assert(at[i] == k);
                } else {
                    assert(at[before.len() as int] == k);
                }
            }
            at
        } else {
            assert forall|k: int| 0 <= k < s.len() && keep(s[k]) implies #[trigger] before.contains(
                k,
            ) by {
                assert(s.drop_last()[k] == s[k]);
            }
            before
        }
    }
}

/// A filter keeps exactly the elements that pass it.
pub(crate) proof fn lemma_filter_membership<A>(s: Seq<A>, keep: spec_fn(A) -> bool, x: A)
    ensures
        s.filter(keep).contains(x) <==> s.contains(x) && keep(x),
{
    let at = lemma_filter_positions(s, keep);
    if s.filter(keep).contains(x) {
        let i = choose|i: int| 0 <= i < s.filter(keep).len() && s.filter(keep)[i] == x;
        assert(s[at[i]] == x);
    }
    if s.contains(x) && keep(x) {
        let k = choose|k: int| 0 <= k < s.len() && s[k] == x;
        assert(at.contains(k));
        let i = choose|i: int| 0 <= i < at.len() && at[i] == k;
        assert(s.filter(keep)[i] == x);
    }
}

/// Which group each report of a thresholded sequence was made of: the
/// indices of the reported groups, in rising order.
pub(crate) proof fn lemma_threshold_positions(groups: Seq<GroupView>, max: nat) -> (at: Seq<int>)
    ensures
        at.len() == threshold(groups, max).len(),
        forall|i: int|
            0 <= i < at.len() ==> 0 <= #[trigger] at[i] < groups.len() && threshold(groups, max)[i]
                == groups[at[i]].summary() && groups[at[i]].timestamps.len() >= max,
        forall|i: int, j: int| 0 <= i < j < at.len() ==> at[i] < at[j],
        forall|g: int|
            0 <= g < groups.len() && groups[g].timestamps.len() >= max ==> #[trigger] at.contains(
                g,
            ),
{
    let keep = |g: GroupView| g.timestamps.len() >= max;
    lemma_filter_positions(groups, keep)
}

/// A record from another address in the middle of a log does not change
/// the signatures.
pub(crate) proof fn lemma_signatures_without_other(
    head: Seq<RecordView>,
    record: RecordView,
    tail: Seq<RecordView>,
    ip: Seq<char>,
)
    requires
        record.remote_addr != ip,
    ensures
        signatures(head.push(record) + tail, ip) == signatures(head + tail, ip),
    decreases tail.len(),
{
    if tail.len() == 0 {
        assert(head.push(record) + tail =~= head.push(record));
        assert(head + tail =~= head);
        lemma_signatures_push(head, ip, record);
    } else {
        lemma_signatures_without_other(head, record, tail.drop_last(), ip);
        assert(head.push(record) + tail =~= (head.push(record) + tail.drop_last()).push(
            tail.last(),
        ));
        assert(head + tail =~= (head + tail.drop_last()).push(tail.last()));
        lemma_signatures_push(head.push(record) + tail.drop_last(), ip, tail.last());
        lemma_signatures_push(head + tail.drop_last(), ip, tail.last());
    }
}

/// A record from the target address in the middle of a log changes the
/// signatures at most in where its own signature stands.
pub(crate) proof fn lemma_signatures_without_unreported(
    head: Seq<RecordView>,
    record: RecordView,
    tail: Seq<RecordView>,
    ip: Seq<char>,
)
    ensures
        signatures(head.push(record) + tail, ip).filter(
            |s: PayloadView| s != record.signature(),
        ) == signatures(head + tail, ip).filter(|s: PayloadView| s != record.signature()),
    decreases tail.len(),
{
    let other = |s: PayloadView| s != record.signature();
    if tail.len() == 0 {
        assert(head.push(record) + tail =~= head.push(record));
        assert(head + tail =~= head);
        lemma_signatures_push(head, ip, record);
        signatures(head, ip).lemma_filter_push(record.signature(), other);
    } else {
        let with = head.push(record) + tail.drop_last();
        let without = head + tail.drop_last();
        let last = tail.last();
        lemma_signatures_without_unreported(head, record, tail.drop_last(), ip);
        assert(head.push(record) + tail =~= with.push(last));
        assert(head + tail =~= without.push(last));
        lemma_signatures_push(with, ip, last);
        lemma_signatures_push(without, ip, last);
        signatures(with, ip).lemma_filter_push(last.signature(), other);
        signatures(without, ip).lemma_filter_push(last.signature(), other);
        if last.signature() != record.signature() {
            lemma_filter_membership(signatures(with, ip), other, last.signature());
            lemma_filter_membership(signatures(without, ip), other, last.signature());
        }
    }
}

/// The groups that `records` holds for the signatures `listed`.
pub(crate) open spec fn groups_for(listed: Seq<PayloadView>, records: Seq<RecordView>, ip: Seq<char>) -> Seq<
    GroupView,
> {
    listed.map_values(|s: PayloadView| group_of(records, ip, s))
}

/// A signature whose group is too small to be reported can be left out of
/// the signatures before the groups are thresholded.
pub(crate) proof fn lemma_threshold_without(
    listed: Seq<PayloadView>,
    records: Seq<RecordView>,
    ip: Seq<char>,
    max: nat,
    signature: PayloadView,
)
    requires
        group_timestamps(records, ip, signature).len() < max,
    ensures
        groups_for(listed, records, ip).filter(|g: GroupView| g.timestamps.len() >= max)
            == groups_for(listed.filter(|s: PayloadView| s != signature), records, ip).filter(
            |g: GroupView| g.timestamps.len() >= max,
        ),
        threshold(groups_for(listed, records, ip), max) == threshold(
            groups_for(listed.filter(|s: PayloadView| s != signature), records, ip),
            max,
        ),
    decreases listed.len(),
{
    let other = |s: PayloadView| s != signature;
    let group = |s: PayloadView| group_of(records, ip, s);
    let keep = |g: GroupView| g.timestamps.len() >= max;
    if listed.len() == 0 {
        reveal(Seq::filter);
        assert(listed.filter(other) =~= listed);
    } else {
        let front = listed.drop_last();
        let last = listed.last();
        assert(front.push(last) =~= listed);
        lemma_threshold_without(front, records, ip, max, signature);
        front.lemma_filter_push(last, other);
        front.lemma_push_map_commute(group, last);
        front.map_values(group).lemma_filter_push(group(last), keep);
        if last != signature {
            front.filter(other).lemma_push_map_commute(group, last);
            front.filter(other).map_values(group).lemma_filter_push(group(last), keep);
        }
    }
}

} // verus!
