//! The campaign's decisions: what becomes of a testcase that was run.
//!
//! The range feedback runs *on top of* coverage, not instead of it: a testcase enters the
//! corpus when either of the two finds it interesting. One that crashes is a solution.
use crate::entry::fresh_map;
use crate::feedback::{
    entry_at, is_novel, law_history_is_union_of_runs, law_merge_settles,
    law_uninteresting_changes_nothing, law_wider_ranges_are_interesting, lemma_merged_entry,
    merged, InputRangeMapFeedback,
};
use crate::observer::{count_set, ExitKind, MapObserver};
use crate::range_observer::InputRangeMapObserver;
use crate::storage::count_differing;
use crate::trace::{law_traces_concatenate, lemma_recorded_len, recorded_all};
use vstd::prelude::*;

verus! {

/// The count at `idx`, where a coverage map has no entry yet zero.
pub open spec fn hits_at(map: Seq<u8>, idx: int) -> u8 {
    if 0 <= idx < map.len() {
        map[idx]
    } else {
        0
    }
}

/// Whether some observed count is above all that the history knows.
pub open spec fn is_higher(history: Seq<u8>, observed: Seq<u8>) -> bool {
    exists|i: int| 0 <= i < observed.len() && #[trigger] observed[i] > hits_at(history, i)
}

/// The larger of each two counts.
pub open spec fn maxima(history: Seq<u8>, observed: Seq<u8>) -> Seq<u8> {
    Seq::new(
        if history.len() > observed.len() {
            history.len()
        } else {
            observed.len()
        },
        |i: int|
            if hits_at(observed, i) > hits_at(history, i) {
                hits_at(observed, i)
            } else {
                hits_at(history, i)
            },
    )
}

/// Feedback that finds a testcase interesting when it raises some entry of a coverage map.
pub struct MaxMapFeedback {
    history: Vec<u8>,
}

impl MaxMapFeedback {
    /// The highest counts of every testcase that was kept.
    pub closed spec fn spec_history(&self) -> Seq<u8> {
        self.history@
    }

    /// Feedback without history.
    pub fn new() -> (feedback: Self)
        ensures
            feedback.spec_history() == Seq::<u8>::empty(),
    {
        MaxMapFeedback { history: Vec::new() }
    }

    /// The highest counts of every testcase that was kept.
    pub fn history_map(&self) -> (history: &[u8])
        ensures
            history@ == self.spec_history(),
    {
        self.history.as_slice()
    }

    /// How many entries of the history were hit.
    pub fn num_covered_map_indexes(&self) -> (count: u64)
        ensures
            count == count_set(self.spec_history(), 0),
    {
        assert(self.history@.take(self.history@.len() as int) =~= self.history@);
        count_differing(self.history.as_slice(), self.history.len(), 0)
    }

    fn known(&self, idx: usize) -> (hits: u8)
        ensures
            hits == hits_at(self.spec_history(), idx as int),
    {
        if idx < self.history.len() {
            self.history[idx]
        } else {
            0
        }
    }

    /// Whether what was observed raises some entry of the history.
    pub fn is_interesting<M>(&self, observer: &M) -> (interesting: bool)
        where M: MapObserver<Entry = u8>
        ensures
            interesting == is_higher(self.spec_history(), observer.entries()),
    {
        let count: usize = observer.usable_count();
        let ghost observed = observer.entries();
        let mut idx: usize = 0;
        while idx < count
            invariant
                idx <= count,
                observed == observer.entries(),
                count == observed.len(),
                forall|i: int|
                    0 <= i < idx ==> #[trigger] observed[i] <= hits_at(self.spec_history(), i),
            decreases count - idx,
        {
            if observer.get(idx) > self.known(idx) {
                assert(observed[idx as int] > hits_at(self.spec_history(), idx as int));
                return true;
            }
            idx = idx + 1;
        }
        false
    }

    /// Keep what was observed: raise every entry of the history to it.
    pub fn append_metadata<M>(&mut self, observer: &M) where M: MapObserver<Entry = u8>
        ensures
            final(self).spec_history() == maxima(old(self).spec_history(), observer.entries()),
    {
        let count: usize = observer.usable_count();
        let ghost before = self.history@;
        let ghost observed = observer.entries();
        let mut idx: usize = 0;
        while idx < count
            invariant
                idx <= count,
                count == observed.len(),
                observed == observer.entries(),
                before.len() >= idx ==> self.history@.len() == before.len(),
                before.len() < idx ==> self.history@.len() == idx,
                forall|i: int| 0 <= i < idx ==> self.history@[i] == maxima(before, observed)[i],
                forall|i: int| idx <= i < before.len() ==> self.history@[i] == before[i],
            decreases count - idx,
        {
            let known: u8 = self.known(idx);
            let hits: u8 = observer.get(idx);
            let highest: u8 = if hits > known { hits } else { known };
            if idx < self.history.len() {
                self.history[idx] = highest;
            } else {
                self.history.push(highest);
            }
            idx = idx + 1;
        }
        assert(self.history@ =~= maxima(before, observed));
    }
}

/// What becomes of a testcase.
#[derive(Debug, Clone, Copy, PartialEq, Eq, Structural)]
pub enum Verdict {
    /// It crashed: it is a solution, and nothing of it enters the histories.
    Solution,
    /// It was interesting: it enters the corpus, and both histories take it in.
    Kept,
    /// It told nothing new.
    Discarded,
}

/// The verdict on a testcase, by how it ended and what each history knows.
pub open spec fn verdict_on(
    signals_history: Seq<u8>,
    ranges_history: Seq<u8>,
    signals: Seq<u8>,
    ranges: Seq<u8>,
    exit_kind: ExitKind,
) -> Verdict {
    if exit_kind == ExitKind::Crash {
        Verdict::Solution
    } else if is_higher(signals_history, signals) || is_novel(ranges_history, ranges) {
        Verdict::Kept
    } else {
        Verdict::Discarded
    }
}

/// The feedback of a campaign: coverage, or else ranges.
pub struct CampaignFeedback {
    signals: MaxMapFeedback,
    ranges: InputRangeMapFeedback,
}

impl CampaignFeedback {
    /// The history of the coverage feedback.
    pub closed spec fn signals_history(&self) -> Seq<u8> {
        self.signals.spec_history()
    }

    /// The history of the range feedback.
    pub closed spec fn ranges_history(&self) -> Seq<u8> {
        self.ranges.spec_history()
    }

    /// Feedback without history.
    pub fn new() -> (feedback: Self)
        ensures
            feedback.signals_history() == Seq::<u8>::empty(),
            feedback.ranges_history() == Seq::<u8>::empty(),
    {
        CampaignFeedback { signals: MaxMapFeedback::new(), ranges: InputRangeMapFeedback::new() }
    }

    /// The coverage feedback.
    pub fn signals(&self) -> (feedback: &MaxMapFeedback)
        ensures
            feedback.spec_history() == self.signals_history(),
    {
        &self.signals
    }

    /// The range feedback.
    pub fn ranges(&self) -> (feedback: &InputRangeMapFeedback)
        ensures
            feedback.spec_history() == self.ranges_history(),
    {
        &self.ranges
    }

    /// Judge a testcase, and take it into both histories if it enters the corpus.
    pub fn evaluate<A, B>(
        &mut self,
        signals: &A,
        ranges: &InputRangeMapObserver<B>,
        exit_kind: ExitKind,
    ) -> (verdict: Verdict) where A: MapObserver<Entry = u8>, B: MapObserver<Entry = u8>
        ensures
            verdict == verdict_on(
                old(self).signals_history(),
                old(self).ranges_history(),
                signals.entries(),
                ranges.entries(),
                exit_kind,
            ),
            verdict == Verdict::Solution <==> exit_kind == ExitKind::Crash,
            final(self).signals_history() == if verdict == Verdict::Kept {
                maxima(old(self).signals_history(), signals.entries())
            } else {
                old(self).signals_history()
            },
            final(self).ranges_history() == if verdict == Verdict::Kept {
                merged(old(self).ranges_history(), ranges.entries())
            } else {
                old(self).ranges_history()
            },
    {
        match exit_kind {
            ExitKind::Crash => Verdict::Solution,
            ExitKind::Normal => {
                if self.signals.is_interesting(signals) || self.ranges.is_interesting(ranges) {
                    self.signals.append_metadata(signals);
                    self.ranges.append_metadata(ranges);
                    Verdict::Kept
                } else {
                    Verdict::Discarded
                }
            },
        }
    }
}

/// A testcase that was kept tells nothing new when it is run again.
pub proof fn law_kept_once(
    signals_history: Seq<u8>,
    ranges_history: Seq<u8>,
    signals: Seq<u8>,
    ranges: Seq<u8>,
)
    ensures
        verdict_on(
            maxima(signals_history, signals),
            merged(ranges_history, ranges),
            signals,
            ranges,
            ExitKind::Normal,
        ) == Verdict::Discarded,
{
    law_merge_settles(ranges_history, ranges);
}

/// A testcase as a campaign sees it: its coverage map, what it observed, and how it ended.
pub struct Testcase {
    pub signals: Seq<u8>,
    pub trace: Seq<(int, u64)>,
    pub exit_kind: ExitKind,
}

/// The coverage and the range history after judging testcases in turn, each run over a fresh
/// range map of `len` entries.
pub open spec fn histories_after(len: nat, testcases: Seq<Testcase>) -> (Seq<u8>, Seq<u8>)
    decreases testcases.len(),
{
    if testcases.len() == 0 {
        (Seq::empty(), Seq::empty())
    } else {
        let (signals_history, ranges_history) = histories_after(len, testcases.drop_last());
        let signals = testcases.last().signals;
        let ranges = recorded_all(fresh_map(len), testcases.last().trace);
        let exit_kind = testcases.last().exit_kind;
        if verdict_on(signals_history, ranges_history, signals, ranges, exit_kind)
            == Verdict::Kept {
            (maxima(signals_history, signals), merged(ranges_history, ranges))
        } else {
            (signals_history, ranges_history)
        }
    }
}

/// All observations of the testcases that did not crash, in order.
pub open spec fn survivors_in_a_row(testcases: Seq<Testcase>) -> Seq<(int, u64)>
    decreases testcases.len(),
{
    if testcases.len() == 0 {
        Seq::empty()
    } else if testcases.last().exit_kind == ExitKind::Crash {
        survivors_in_a_row(testcases.drop_last())
    } else {
        survivors_in_a_row(testcases.drop_last()) + testcases.last().trace
    }
}

/// The accumulated ranges of a campaign are those of every testcase that did not crash, the
/// discarded ones among them: whatever was judged, each entry of the range history is what
/// recording all their observations into a fresh map gives.
pub proof fn law_campaign_accumulates_ranges(len: nat, testcases: Seq<Testcase>)
    ensures
        forall|i: int| #[trigger]
            entry_at(histories_after(len, testcases).1, i) == entry_at(
                recorded_all(fresh_map(len), survivors_in_a_row(testcases)),
                i,
            ),
    decreases testcases.len(),
{
    if testcases.len() > 0 {
        let rest = testcases.drop_last();
        let testcase = testcases.last();
        law_campaign_accumulates_ranges(len, rest);
        let history = histories_after(len, rest).1;
        let all = recorded_all(fresh_map(len), survivors_in_a_row(rest));
        if testcase.exit_kind != ExitKind::Crash {
            let ranges = recorded_all(fresh_map(len), testcase.trace);
            lemma_recorded_len(fresh_map(len), survivors_in_a_row(rest));
            law_history_is_union_of_runs(all, len, testcase.trace);
            law_traces_concatenate(fresh_map(len), survivors_in_a_row(rest), testcase.trace);
            if !is_novel(history, ranges) {
                law_uninteresting_changes_nothing(history, ranges);
            }
            assert forall|i: int| #[trigger]
                entry_at(histories_after(len, testcases).1, i) == entry_at(
                    recorded_all(fresh_map(len), survivors_in_a_row(testcases)),
                    i,
                ) by {
                assert(entry_at(history, i) == entry_at(all, i));
                lemma_merged_entry(history, ranges, i);
                lemma_merged_entry(all, ranges, i);
                assert(entry_at(merged(history, ranges), i) == entry_at(merged(all, ranges), i));
            }
        }
    }
}

/// Every crash is a solution, whatever is already known, and nothing else is one. What did not
/// crash is kept exactly if it hits some edge more often than the coverage history knows, or
/// its range at some edge reaches below or above what the range history knows there; a history
/// that lacks an edge knows nothing of it.
pub proof fn law_verdict(
    signals_history: Seq<u8>,
    ranges_history: Seq<u8>,
    signals: Seq<u8>,
    ranges: Seq<u8>,
    exit_kind: ExitKind,
)
    ensures
        ({
            let verdict = verdict_on(signals_history, ranges_history, signals, ranges, exit_kind);
            let more_hits = exists|i: int|
                0 <= i < signals.len() && #[trigger] signals[i] as int > if i
                    < signals_history.len() {
                    signals_history[i] as int
                } else {
                    0
                };
            let wider = exists|i: int|
                0 <= i < ranges.len() && {
                    let known = if i < ranges_history.len() {
                        ranges_history[i] as int
                    } else {
                        15
                    };
                    (#[trigger] ranges[i]) as int % 16 < known % 16 || ranges[i] as int / 16 > known
                        / 16
                };
            &&& verdict == Verdict::Solution <==> exit_kind == ExitKind::Crash
            &&& verdict == Verdict::Kept <==> exit_kind == ExitKind::Normal && (more_hits || wider)
        }),
{
    law_more_hits_are_interesting(signals_history, signals);
    law_wider_ranges_are_interesting(ranges_history, ranges);
}

/// A coverage map is interesting exactly if at any of its edges, however far back, the count is
/// above the one the history holds there, or above zero where the history holds none.
pub proof fn law_more_hits_are_interesting(history: Seq<u8>, observed: Seq<u8>)
    ensures
        is_higher(history, observed) <==> exists|i: int|
            0 <= i < observed.len() && #[trigger] observed[i] as int > if i < history.len() {
                history[i] as int
            } else {
                0
            },
{
    if is_higher(history, observed) {
        let i = choose|i: int|
            0 <= i < observed.len() && #[trigger] observed[i] > hits_at(history, i);
        assert(observed[i] as int > if i < history.len() {
            history[i] as int
        } else {
            0
        });
    }
    if exists|i: int|
        0 <= i < observed.len() && #[trigger] observed[i] as int > if i < history.len() {
            history[i] as int
        } else {
            0
        } {
        let i = choose|i: int|
            0 <= i < observed.len() && #[trigger] observed[i] as int > if i < history.len() {
                history[i] as int
            } else {
                0
            };
        assert(observed[i] > hits_at(history, i));
    }
}

/// The coverage history that took in a map is as long as the longer of the two. Each of its
/// counts is at least that of either, and is that of one of them.
pub proof fn law_history_keeps_maxima(history: Seq<u8>, observed: Seq<u8>)
    ensures
        maxima(history, observed).len() == if history.len() < observed.len() {
            observed.len()
        } else {
            history.len()
        },
        forall|i: int|
            0 <= i < history.len() ==> #[trigger] maxima(history, observed)[i] >= history[i],
        forall|i: int|
            0 <= i < observed.len() ==> #[trigger] maxima(history, observed)[i] >= observed[i],
        forall|i: int|
            0 <= i < maxima(history, observed).len() ==> (i < history.len() && #[trigger] maxima(
                history,
                observed,
            )[i] == history[i]) || (i < observed.len() && maxima(history, observed)[i]
                == observed[i]),
{
}

/// After a coverage map was taken in, no map with counts at most its own is interesting.
pub proof fn law_maxima_settle(history: Seq<u8>, observed: Seq<u8>, again: Seq<u8>)
    requires
        again.len() <= observed.len(),
        forall|i: int| 0 <= i < again.len() ==> #[trigger] again[i] <= observed[i],
    ensures
        !is_higher(maxima(history, observed), again),
{
    assert forall|i: int| 0 <= i < again.len() implies #[trigger] again[i] <= hits_at(
        maxima(history, observed),
        i,
    ) by {}
}

} // verus!
