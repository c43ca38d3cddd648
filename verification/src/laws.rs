//! What holds of every run.
//!
//! Each law is proved of the functions of [`crate::model`], to which the
//! executable items prove their results equal.
use crate::lemmas::{
    groups_for, lemma_filter_positions, lemma_group_timestamps_push, lemma_groups_nonempty,
    lemma_signature_listed, lemma_signatures_distinct, lemma_signatures_without_other,
    lemma_signatures_without_unreported, lemma_threshold_positions, lemma_threshold_without,
};
use crate::model::{
    all_parsed, group_of, group_timestamps, grouping, in_group, signatures, summaries, threshold,
    GroupView, LineView, OutputView,
};
use crate::record::{PayloadView, RecordView};
use vstd::prelude::*;

verus! {

/// Whether two records agree in all six fields of the signature.
pub open spec fn same_signature(a: RecordView, b: RecordView) -> bool {
    &&& a.request == b.request
    &&& a.http_referer == b.http_referer
    &&& a.http_user_agent == b.http_user_agent
    &&& a.http_accept == b.http_accept
    &&& a.http_x_forwarded_for == b.http_x_forwarded_for
    &&& a.http_cookie == b.http_cookie
}

/// Whether `outputs` reports, in any order, exactly the groups of `records`
/// for `ip` that hold at least `max` records, each with its size and its
/// first and last timestamp.
pub open spec fn reports_exactly(
    outputs: Seq<OutputView>,
    records: Seq<RecordView>,
    ip: Seq<char>,
    max: nat,
) -> bool {
    &&& forall|i: int|
        0 <= i < outputs.len() ==> {
            &&& (#[trigger] outputs[i]) == group_of(records, ip, outputs[i].payload).summary()
            &&& outputs[i].count >= max
            &&& outputs[i].count > 0
        }
    &&& forall|signature: PayloadView|
        (#[trigger] group_timestamps(records, ip, signature)).len() >= max && group_timestamps(
            records,
            ip,
            signature,
        ).len() > 0 ==> exists|i: int|
            0 <= i < outputs.len() && (#[trigger] outputs[i]).payload == signature
}

/// Filter correctness: a record counts if and only if its address is
/// exactly the target address. A record from another address changes no
/// group, and a record from the target address makes its own group one
/// record larger. So the reports with a record differ from the reports
/// without it exactly if the record comes from the target address and its
/// group is large enough to be reported.
pub proof fn lemma_filter_correctness(
    records: Seq<RecordView>,
    ip: Seq<char>,
    max: nat,
    index: int,
)
    requires
        0 <= index < records.len(),
    ensures
        summaries(records.remove(index), ip, max) != summaries(records, ip, max) <==> (
        records[index].remote_addr == ip && group_timestamps(
            records,
            ip,
            records[index].signature(),
        ).len() >= max),
        records[index].remote_addr != ip ==> grouping(records.remove(index), ip) == grouping(
            records,
            ip,
        ),
        records[index].remote_addr == ip ==> group_timestamps(
            records,
            ip,
            records[index].signature(),
        ).len() == group_timestamps(records.remove(index), ip, records[index].signature()).len()
            + 1,
{
    let record = records[index];
    let signature = record.signature();
    let head = records.take(index);
    let tail = records.skip(index + 1);
    let without = records.remove(index);
    assert(records =~= head.push(record) + tail);
    assert(without =~= head + tail);
    assert forall|s: PayloadView|
        group_timestamps(records, ip, s) == (if in_group(record, ip, s) {
            group_timestamps(head, ip, s).push(record.time_iso8601) + group_timestamps(
                tail,
                ip,
                s,
            )
        } else {
            group_timestamps(without, ip, s)
        }) && group_timestamps(without, ip, s) == group_timestamps(head, ip, s)
            + group_timestamps(tail, ip, s) by {
        let member = |r: RecordView| in_group(r, ip, s);
        let time = |r: RecordView| r.time_iso8601;
        Seq::filter_distributes_over_add(head.push(record), tail, member);
        Seq::filter_distributes_over_add(head, tail, member);
        lemma_group_timestamps_push(head, ip, s, record);
        assert((head.filter(member) + tail.filter(member)).map_values(time) =~= head.filter(
            member,
        ).map_values(time) + tail.filter(member).map_values(time));
        assert((head.push(record).filter(member) + tail.filter(member)).map_values(time)
            =~= head.push(record).filter(member).map_values(time) + tail.filter(
            member,
        ).map_values(time));
    }
    if record.remote_addr != ip {
        lemma_signatures_without_other(head, record, tail, ip);
        assert forall|s: PayloadView| group_of(records, ip, s) == group_of(without, ip, s) by {
            assert(!in_group(record, ip, s));
        }
        assert(grouping(records, ip) =~= grouping(without, ip));
    } else if group_timestamps(records, ip, signature).len() >= max {
        lemma_summaries_report_exactly(records, ip, max);
        lemma_summaries_report_exactly(without, ip, max);
        let reported = summaries(records, ip, max);
        let i = choose|i: int| 0 <= i < reported.len() && (#[trigger] reported[i]).payload == signature;
        assert(reported[i].count == group_timestamps(records, ip, signature).len());
        if summaries(without, ip, max) == reported {
            assert(summaries(without, ip, max)[i].count == group_timestamps(
                without,
                ip,
                signature,
            ).len());
        }
    } else {
        lemma_signatures_without_unreported(head, record, tail, ip);
        let erased = signatures(without, ip).filter(|s: PayloadView| s != signature);
        lemma_threshold_without(signatures(records, ip), records, ip, max, signature);
        lemma_threshold_without(signatures(without, ip), without, ip, max, signature);
        assert forall|i: int| 0 <= i < erased.len() implies group_of(records, ip, erased[i])
            == group_of(without, ip, erased[i]) by {
            signatures(without, ip).lemma_filter_pred(|s: PayloadView| s != signature, i);
            assert(!in_group(record, ip, erased[i]));
        }
        assert(groups_for(erased, records, ip) =~= groups_for(erased, without, ip));
    }
}

/// Grouping correctness: two records from the target address are in the
/// same group if and only if they agree in all six fields of the signature.
/// Every such record is in exactly one group.
pub proof fn lemma_grouping_correctness(
    records: Seq<RecordView>,
    ip: Seq<char>,
    first: int,
    second: int,
)
    requires
        0 <= first < records.len(),
        0 <= second < records.len(),
        records[first].remote_addr == ip,
        records[second].remote_addr == ip,
    ensures
        (exists|g: int|
            0 <= g < grouping(records, ip).len() && in_group(
                records[first],
                ip,
                (#[trigger] grouping(records, ip)[g]).signature,
            ) && in_group(records[second], ip, grouping(records, ip)[g].signature))
            <==> same_signature(records[first], records[second]),
        exists|g: int|
            0 <= g < grouping(records, ip).len() && in_group(
                records[first],
                ip,
                (#[trigger] grouping(records, ip)[g]).signature,
            ),
        forall|g: int, h: int|
            0 <= g < grouping(records, ip).len() && 0 <= h < grouping(records, ip).len()
                && in_group(records[first], ip, (#[trigger] grouping(records, ip)[g]).signature)
                && in_group(records[first], ip, (#[trigger] grouping(records, ip)[h]).signature)
                ==> g == h,
{
    let groups = grouping(records, ip);
    let listed = signatures(records, ip);
    let signature = records[first].signature();
    lemma_signatures_distinct(records, ip);
    lemma_signature_listed(records, ip, signature);
    let member = |r: RecordView| in_group(r, ip, signature);
    records.lemma_filter_contains(member, first);
    assert(listed.contains(signature));
    let g = choose|g: int| 0 <= g < listed.len() && listed[g] == signature;
    assert(groups[g].signature == signature);
    if same_signature(records[first], records[second]) {
        assert(records[second].signature() == signature);
        assert(in_group(records[second], ip, groups[g].signature));
    }
}

/// Threshold correctness: a group is reported if and only if it holds at
/// least `max` timestamps, and every report is the report of such a group.
pub proof fn lemma_threshold_correctness(groups: Seq<GroupView>, max: nat)
    ensures
        forall|g: int|
            0 <= g < groups.len() ==> (threshold(groups, max).contains(
                (#[trigger] groups[g]).summary(),
            ) <==> groups[g].timestamps.len() >= max),
        forall|i: int|
            0 <= i < threshold(groups, max).len() ==> (#[trigger] threshold(groups, max)[i]).count
                >= max && exists|g: int|
                0 <= g < groups.len() && threshold(groups, max)[i] == (
                #[trigger] groups[g]).summary(),
{
    let reported = threshold(groups, max);
    let at = lemma_threshold_positions(groups, max);
    assert forall|g: int| 0 <= g < groups.len() implies (reported.contains(
        (#[trigger] groups[g]).summary(),
    ) <==> groups[g].timestamps.len() >= max) by {
        if groups[g].timestamps.len() >= max {
            assert(at.contains(g));
            let i = choose|i: int| 0 <= i < at.len() && at[i] == g;
            assert(reported[i] == groups[g].summary());
        }
        if reported.contains(groups[g].summary()) {
            let i = choose|i: int| 0 <= i < reported.len() && reported[i] == groups[g].summary();
            assert(reported[i] == groups[at[i]].summary());
        }
    }
    assert forall|i: int| 0 <= i < reported.len() implies (#[trigger] reported[i]).count >= max
        && exists|g: int|
        0 <= g < groups.len() && reported[i] == (#[trigger] groups[g]).summary() by {
        assert(reported[i] == groups[at[i]].summary());
    }
}

/// Order preservation: the earliest timestamp of a report is the one of the
/// first record of its group in input order, and the latest is the one of
/// the last, whatever the timestamps say. The result names these two
/// records by their indices.
pub proof fn lemma_order_preservation(
    records: Seq<RecordView>,
    ip: Seq<char>,
    max: nat,
    index: int,
) -> (ends: (int, int))
    requires
        0 <= index < summaries(records, ip, max).len(),
    ensures
        0 <= ends.0 <= ends.1 < records.len(),
        in_group(records[ends.0], ip, summaries(records, ip, max)[index].payload),
        in_group(records[ends.1], ip, summaries(records, ip, max)[index].payload),
        forall|k: int|
            0 <= k < ends.0 ==> !in_group(
                #[trigger] records[k],
                ip,
                summaries(records, ip, max)[index].payload,
            ),
        forall|k: int|
            ends.1 < k < records.len() ==> !in_group(
                #[trigger] records[k],
                ip,
                summaries(records, ip, max)[index].payload,
            ),
        summaries(records, ip, max)[index].earliest == records[ends.0].time_iso8601,
        summaries(records, ip, max)[index].latest == records[ends.1].time_iso8601,
{
    let groups = grouping(records, ip);
    let at = lemma_threshold_positions(groups, max);
    let g = at[index];
    let signature = groups[g].signature;
    lemma_groups_nonempty(records, ip, g);
    let member = |r: RecordView| in_group(r, ip, signature);
    let position = lemma_filter_positions(records, member);
    let first = position[0];
    let last = position[position.len() - 1];
    assert forall|k: int| 0 <= k < first implies !in_group(#[trigger] records[k], ip, signature) by {
        if in_group(records[k], ip, signature) {
            assert(position.contains(k));
        }
    }
    assert forall|k: int| last < k < records.len() implies !in_group(
        #[trigger] records[k],
        ip,
        signature,
    ) by {
        if in_group(records[k], ip, signature) {
            assert(position.contains(k));
        }
    }
    (first, last)
}

/// The reports of a run are the groups of at least `max` records, each
/// once.
pub proof fn lemma_summaries_report_exactly(records: Seq<RecordView>, ip: Seq<char>, max: nat)
    ensures
        reports_exactly(summaries(records, ip, max), records, ip, max),
        forall|i: int, j: int|
            0 <= i < j < summaries(records, ip, max).len() ==> (#[trigger] summaries(
                records,
                ip,
                max,
            )[i]).payload != (#[trigger] summaries(records, ip, max)[j]).payload,
{
    let groups = grouping(records, ip);
    let reported = summaries(records, ip, max);
    let at = lemma_threshold_positions(groups, max);
    lemma_signatures_distinct(records, ip);
    assert forall|i: int| 0 <= i < reported.len() implies {
        &&& (#[trigger] reported[i]) == group_of(records, ip, reported[i].payload).summary()
        &&& reported[i].count >= max
        &&& reported[i].count > 0
    } by {
        assert(reported[i] == groups[at[i]].summary());
        lemma_groups_nonempty(records, ip, at[i]);
    }
    assert forall|signature: PayloadView|
        (#[trigger] group_timestamps(records, ip, signature)).len() >= max && group_timestamps(
            records,
            ip,
            signature,
        ).len() > 0 implies exists|i: int|
        0 <= i < reported.len() && (#[trigger] reported[i]).payload == signature by {
        lemma_signature_listed(records, ip, signature);
        let listed = signatures(records, ip);
        let g = choose|g: int| 0 <= g < listed.len() && listed[g] == signature;
        assert(groups[g] == group_of(records, ip, signature));
        assert(at.contains(g));
        let i = choose|i: int| 0 <= i < at.len() && at[i] == g;
        assert(reported[i].payload == signature);
    }
    assert forall|i: int, j: int| 0 <= i < j < reported.len() implies (#[trigger] reported[i]).payload
        != (#[trigger] reported[j]).payload by {
        assert(reported[i] == groups[at[i]].summary());
        assert(reported[j] == groups[at[j]].summary());
        assert(at[i] < at[j]);
    }
}

/// Idempotence: the reports are determined by the log, the address and the
/// threshold. Two sequences that each report exactly the groups of one log
/// hold the same reports, in whatever order each of them lists them.
pub proof fn lemma_reports_determined(
    one: Seq<OutputView>,
    other: Seq<OutputView>,
    records: Seq<RecordView>,
    ip: Seq<char>,
    max: nat,
)
    requires
        reports_exactly(one, records, ip, max),
        reports_exactly(other, records, ip, max),
    ensures
        one.to_set() == other.to_set(),
{
    assert forall|x: OutputView| one.to_set().contains(x) == other.to_set().contains(x) by {
        lemma_reported_by_both(one, other, records, ip, max, x);
        lemma_reported_by_both(other, one, records, ip, max, x);
    }
    assert(one.to_set() =~= other.to_set());
}

proof fn lemma_reported_by_both(
    one: Seq<OutputView>,
    other: Seq<OutputView>,
    records: Seq<RecordView>,
    ip: Seq<char>,
    max: nat,
    x: OutputView,
)
    requires
        reports_exactly(one, records, ip, max),
        reports_exactly(other, records, ip, max),
    ensures
        one.to_set().contains(x) ==> other.to_set().contains(x),
{
    if one.to_set().contains(x) {
        let i = choose|i: int| 0 <= i < one.len() && one[i] == x;
        assert(one[i] == group_of(records, ip, x.payload).summary());
        assert(group_timestamps(records, ip, x.payload).len() >= max);
        let j = choose|j: int| 0 <= j < other.len() && (#[trigger] other[j]).payload == x.payload;
        assert(other[j] == x);
    }
}

/// Fail-fast: a log with a malformed line anywhere is not all parsed,
/// however many lines with a record stand before or behind that line.
pub proof fn lemma_fail_fast(lines: Seq<LineView>, index: int)
    requires
        0 <= index < lines.len(),
        lines[index] is Malformed,
    ensures
        !all_parsed(lines),
{
}

} // verus!
