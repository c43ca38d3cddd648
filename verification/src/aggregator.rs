//! The single pass over a log: filter, group, and report.
use crate::group::{group_views, output_views, summarize, Group, Output};
use crate::lemmas::{
    lemma_grouping_push_known, lemma_grouping_push_new, lemma_grouping_push_other,
    lemma_groups_nonempty,
};
use crate::model::{
    all_parsed, groups_after, grouping, records_of, summaries, GroupView, LineView,
};
use crate::record::{Payload, Record};
use vstd::prelude::*;

verus! {

/// One line of a log after parsing: the record it holds, or the mark that
/// it did not have the form of a record.
#[derive(Debug)]
pub enum Line {
    Parsed(Record),
    Malformed,
}

impl View for Line {
    type V = LineView;

    open spec fn view(&self) -> LineView {
        match self {
            Line::Parsed(record) => LineView::Parsed(record@),
            Line::Malformed => LineView::Malformed,
        }
    }
}

/// The values of the model that a sequence of lines stands for.
pub open spec fn line_views(lines: Seq<Line>) -> Seq<LineView> {
    lines.map_values(|l: Line| l@)
}

/// What the reader of a log does after a line.
#[derive(Debug, PartialEq, Eq, Structural, Clone, Copy)]
pub enum Flow {
    /// Every line so far held a record: read on.
    Continue,
    /// A line was malformed: the run has failed and nothing will be reported.
    Abort,
}

/// The state of a run: the target address and the groups of the records
/// seen so far, or the mark that the run has failed.
pub struct Aggregator {
    ip: String,
    groups: Vec<Group>,
    aborted: bool,
    seen: Ghost<Seq<LineView>>,
}

impl Aggregator {
    /// The address whose records are grouped.
    pub closed spec fn target(&self) -> Seq<char> {
        self.ip@
    }

    /// The lines fed so far, in order.
    pub closed spec fn lines(&self) -> Seq<LineView> {
        self.seen@
    }

    /// The groups held, in the order in which they were opened.
    pub closed spec fn groups(&self) -> Seq<GroupView> {
        group_views(self.groups@)
    }

    /// The state agrees with the lines fed so far: it is marked as failed
    /// exactly after a malformed line, and holds the groups of those lines.
    pub closed spec fn wf(&self) -> bool {
        &&& self.aborted == !all_parsed(self.seen@)
        &&& group_views(self.groups@) == groups_after(self.seen@, self.ip@)
    }

    /// Starts a run for the address `ip`, with no line seen.
    pub fn new(ip: String) -> (aggregator: Aggregator)
        ensures
            aggregator.wf(),
            aggregator.target() == ip@,
            aggregator.lines() == Seq::<LineView>::empty(),
            aggregator.groups() == Seq::<GroupView>::empty(),
    {
        let aggregator = Aggregator {
            ip,
            groups: Vec::new(),
            aborted: false,
            seen: Ghost(Seq::empty()),
        };
        proof {
            assert(records_of(aggregator.seen@) =~= Seq::empty());
            assert(group_views(aggregator.groups@) =~= grouping(
                records_of(aggregator.seen@),
                aggregator.ip@,
            ));
        }
        aggregator
    }

    /// Takes the next line of the log.
    ///
    /// A record from another address changes nothing. A record from the
    /// target address adds its timestamp to the group of its signature, which
    /// is opened if the signature is new. A malformed line fails the run for
    /// good and discards the groups. The answer is `Continue` as long as no
    /// line was malformed.
    pub fn feed(&mut self, line: Line) -> (flow: Flow)
        requires
            old(self).wf(),
        ensures
            final(self).wf(),
            final(self).target() == old(self).target(),
            final(self).lines() == old(self).lines().push(line@),
            final(self).groups() == groups_after(final(self).lines(), final(self).target()),
            flow == if all_parsed(final(self).lines()) {
                Flow::Continue
            } else {
                Flow::Abort
            },
    {
        let ghost before = self.seen@;
        let ghost after = before.push(line@);
        proof {
            assert(after.drop_last() =~= before);
            assert(all_parsed(after) == (all_parsed(before) && line@ is Parsed)) by {
                if all_parsed(before) && line@ is Parsed {
                    assert forall|i: int| 0 <= i < after.len() implies after[i] is Parsed by {
                        if i < before.len() {
                            assert(after[i] == before[i]);
                        }
                    }
                } else if !all_parsed(before) {
                    let i = choose|i: int| 0 <= i < before.len() && !(before[i] is Parsed);
                    assert(after[i] == before[i]);
                } else {
                    assert(after[before.len() as int] == line@);
                }
            }
        }
        self.seen = Ghost(after);
        if self.aborted {
            return Flow::Abort;
        }
        match line {
            Line::Malformed => {
                self.groups = Vec::new();
                self.aborted = true;
                assert(group_views(self.groups@) =~= Seq::empty());
                Flow::Abort
            },
            Line::Parsed(record) => {
                let ghost records = records_of(before);
                proof {
                    assert(records_of(after) =~= records.push(record@));
                }
                if record.remote_addr == self.ip {
                    let time = record.time_iso8601.clone();
                    let ghost added = record@;
                    let payload = Payload::from_record(record);
                    let mut i: usize = 0;
                    while i < self.groups.len() && *self.groups[i].signature() != payload
                        invariant
                            i <= self.groups.len(),
                            forall|j: int|
                                0 <= j < i ==> group_views(self.groups@)[j].signature != payload@,
                        decreases self.groups.len() - i,
                    {
                        i += 1;
                    }
                    if i < self.groups.len() {
                        proof {
                            lemma_grouping_push_known(records, self.ip@, added, i as int);
                        }
                        let ghost groups_before = self.groups@;
                        self.groups[i].push(time);
                        assert(group_views(self.groups@) =~= group_views(groups_before).update(
                            i as int,
                            self.groups@[i as int]@,
                        ));
                    } else {
                        proof {
                            lemma_grouping_push_new(records, self.ip@, added);
                        }
                        let ghost groups_before = self.groups@;
                        let group = Group::new(payload, time);
                        self.groups.push(group);
                        assert(group_views(self.groups@) =~= group_views(groups_before).push(
                            group@,
                        ));
                    }
                } else {
                    proof {
                        lemma_grouping_push_other(records, self.ip@, record@);
                    }
                }
                Flow::Continue
            },
        }
    }

    /// Ends the run. If a line was malformed, nothing is reported. Else
    /// every group that holds at least `max` records is reported, in the
    /// order in which the signatures first appeared.
    pub fn finish(self, max: usize) -> (outputs: Option<Vec<Output>>)
        requires
            self.wf(),
        ensures
            match outputs {
                Some(outputs) => all_parsed(self.lines()) && output_views(outputs@) == summaries(
                    records_of(self.lines()),
                    self.target(),
                    max as nat,
                ),
                None => !all_parsed(self.lines()),
            },
    {
        if self.aborted {
            return None;
        }
        proof {
            assert forall|i: int| 0 <= i < self.groups.len() implies self.groups[i].wf() by {
                assert(group_views(self.groups@)[i] == self.groups[i]@);
                lemma_groups_nonempty(records_of(self.seen@), self.ip@, i);
            }
        }
        Some(summarize(&self.groups, max))
    }
}

/// Runs over a whole log: groups the records that come from `ip` and
/// reports the groups of at least `max` records. A single malformed line
/// anywhere in the log fails the run at that line, and nothing is reported.
pub fn digest(lines: Vec<Line>, ip: String, max: usize) -> (outputs: Option<Vec<Output>>)
    ensures
        match outputs {
            Some(outputs) => all_parsed(line_views(lines@)) && output_views(outputs@) == summaries(
                records_of(line_views(lines@)),
                ip@,
                max as nat,
            ),
            None => !all_parsed(line_views(lines@)),
        },
{
    let mut aggregator = Aggregator::new(ip);
    let ghost all = line_views(lines@);
    for line in it: lines
        invariant
            aggregator.wf(),
            aggregator.target() == ip@,
            it.seq() == lines@,
            all == line_views(lines@),
            aggregator.lines() == all.take(it.index() as int),
    {
        let ghost prefix = all.take(it.index() + 1);
        proof {
            assert(prefix =~= all.take(it.index() as int).push(line@));
        }
        match aggregator.feed(line) {
            Flow::Continue => {},
            Flow::Abort => {
                proof {
                    let i = choose|i: int| 0 <= i < prefix.len() && !(prefix[i] is Parsed);
                    assert(all[i] == prefix[i]);
                }
                return None;
            },
        }
    }
    proof {
        assert(all.take(all.len() as int) =~= all);
    }
    aggregator.finish(max)
}

} // verus!
