//! Groups of timestamps and the reports made of them.
use crate::model::{threshold, GroupView, OutputView};
use crate::record::Payload;
use vstd::prelude::*;

verus! {

/// The texts of a sequence of strings.
pub open spec fn texts(strings: Seq<String>) -> Seq<Seq<char>> {
    strings.map_values(|s: String| s@)
}

/// The timestamps gathered for one signature, in the order in which they
/// were added. A group is never empty.
#[derive(Debug)]
pub struct Group {
    signature: Payload,
    timestamps: Vec<String>,
}

impl View for Group {
    type V = GroupView;

    closed spec fn view(&self) -> GroupView {
        GroupView { signature: self.signature@, timestamps: texts(self.timestamps@) }
    }
}

/// The values of the model that a sequence of groups stands for.
pub open spec fn group_views(groups: Seq<Group>) -> Seq<GroupView> {
    groups.map_values(|g: Group| g@)
}

impl Group {
    /// A group holds at least one timestamp. Every group made by [`Group::new`]
    /// and grown by [`Group::push`] does.
    pub open spec fn wf(&self) -> bool {
        self@.timestamps.len() > 0
    }

    /// Opens a group with the timestamp of its first record.
    pub fn new(signature: Payload, first: String) -> (group: Group)
        ensures
            group.wf(),
            group@ == (GroupView { signature: signature@, timestamps: seq![first@] }),
    {
        let mut timestamps: Vec<String> = Vec::new();
        timestamps.push(first);
        let group = Group { signature, timestamps };
        assert(group@.timestamps =~= seq![first@]);
        group
    }

    /// Adds the timestamp of one more record at the end.
    pub fn push(&mut self, timestamp: String)
        ensures
            final(self).wf(),
            final(self)@ == (GroupView {
                signature: old(self)@.signature,
                timestamps: old(self)@.timestamps.push(timestamp@),
            }),
    {
        self.timestamps.push(timestamp);
        assert(texts(self.timestamps@) =~= texts(old(self).timestamps@).push(timestamp@));
    }

    /// The signature that the records of the group share.
    pub fn signature(&self) -> (signature: &Payload)
        ensures
            signature@ == self@.signature,
    {
        &self.signature
    }

    /// The number of timestamps in the group.
    pub fn len(&self) -> (len: usize)
        ensures
            len == self@.timestamps.len(),
    {
        self.timestamps.len()
    }

    /// The report of the group.
    pub fn summary(&self) -> (output: Output)
        requires
            self.wf(),
        ensures
            output@ == self@.summary(),
    {
        let count = self.timestamps.len();
        Output {
            payload: self.signature.clone(),
            count,
            earliest: self.timestamps[0].clone(),
            latest: self.timestamps[count - 1].clone(),
        }
    }
}

/// One reported group: its signature, how many records it holds, and the
/// timestamps of the first and the last of them in input order.
#[derive(Debug)]
pub struct Output {
    pub payload: Payload,
    pub count: usize,
    pub earliest: String,
    pub latest: String,
}

impl View for Output {
    type V = OutputView;

    open spec fn view(&self) -> OutputView {
        OutputView {
            payload: self.payload@,
            count: self.count as nat,
            earliest: self.earliest@,
            latest: self.latest@,
        }
    }
}

/// The values of the model that a sequence of reports stands for.
pub open spec fn output_views(outputs: Seq<Output>) -> Seq<OutputView> {
    outputs.map_values(|o: Output| o@)
}

/// Reports the groups that hold at least `max` timestamps, in the order of
/// `groups`; the others are left out.
pub fn summarize(groups: &Vec<Group>, max: usize) -> (outputs: Vec<Output>)
    requires
        forall|i: int| 0 <= i < groups.len() ==> groups[i].wf(),
    ensures
        output_views(outputs@) == threshold(group_views(groups@), max as nat),
{
    let mut outputs: Vec<Output> = Vec::new();
    let mut i: usize = 0;
    proof {
        reveal(Seq::filter);
        assert(group_views(groups@).take(0) =~= Seq::empty());
        assert(output_views(outputs@) =~= threshold(group_views(groups@).take(0), max as nat));
    }
    while i < groups.len()
        invariant
            i <= groups.len(),
            forall|i: int| 0 <= i < groups.len() ==> groups[i].wf(),
            output_views(outputs@) == threshold(group_views(groups@).take(i as int), max as nat),
        decreases groups.len() - i,
    {
        let group = &groups[i];
        proof {
            let sofar = group_views(groups@).take(i as int);
            let keep = |g: GroupView| g.timestamps.len() >= max as nat;
            let report = |g: GroupView| g.summary();
            assert(group_views(groups@).take(i + 1) =~= sofar.push(group@));
            sofar.lemma_filter_push(group@, keep);
            sofar.filter(keep).lemma_push_map_commute(report, group@);
        }
        if group.len() >= max {
            let ghost before = outputs@;
            let output = group.summary();
            outputs.push(output);
            assert(output_views(outputs@) =~= output_views(before).push(output@));
        }
        i += 1;
    }
    assert(group_views(groups@).take(groups.len() as int) =~= group_views(groups@));
    outputs
}

} // verus!
