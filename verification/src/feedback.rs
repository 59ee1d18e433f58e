//! The feedback on input-range maps: which observations are worth keeping.
use crate::entry::{
    bucket_of, covers, fresh_map, highest, hull, is_entry, is_map, lowest, packed, range_union,
    recorded, RANGE_EMPTY,
};
use crate::laws::{
    law_different_is_widened, law_union_absorbs_empty, law_union_associative,
    law_union_by_number, law_union_closed,
    law_union_idempotent, law_union_widens,
};
use crate::observer::{count_set, MapObserver};
use crate::range_observer::InputRangeMapObserver;
use crate::storage::count_differing;
use crate::trace::{in_a_row, law_traces_concatenate, lemma_recorded_len, recorded_all};
use vstd::prelude::*;

verus! {

/// Reduces two entries to their union.
pub struct RangeUnionReducer;

impl RangeUnionReducer {
    /// The union of what is known and what was observed.
    pub fn reduce(first: u8, second: u8) -> (entry: u8)
        ensures
            entry == hull(first, second),
    {
        range_union(first, second)
    }
}

/// The entry at `idx`, where a map has no entry yet the empty one.
pub open spec fn entry_at(map: Seq<u8>, idx: int) -> u8 {
    if 0 <= idx < map.len() {
        map[idx]
    } else {
        RANGE_EMPTY
    }
}

/// Whether the observed entry at `idx` changes the history when it is reduced into it.
pub open spec fn novel_at(history: Seq<u8>, observed: Seq<u8>, idx: int) -> bool {
    hull(entry_at(history, idx), observed[idx]) != entry_at(history, idx)
}

/// Whether any observed entry is novel.
pub open spec fn is_novel(history: Seq<u8>, observed: Seq<u8>) -> bool {
    exists|idx: int| 0 <= idx < observed.len() && #[trigger] novel_at(history, observed, idx)
}

/// The history with every observed entry reduced into it.
pub open spec fn merged(history: Seq<u8>, observed: Seq<u8>) -> Seq<u8> {
    Seq::new(
        if history.len() > observed.len() {
            history.len()
        } else {
            observed.len()
        },
        |i: int| hull(entry_at(history, i), entry_at(observed, i)),
    )
}

/// Feedback that finds a testcase interesting when it widens some entry's range.
pub struct InputRangeMapFeedback {
    history: Vec<u8>,
}

impl InputRangeMapFeedback {
    /// The ranges of every testcase that was kept.
    pub closed spec fn spec_history(&self) -> Seq<u8> {
        self.history@
    }

    /// Feedback without history.
    pub fn new() -> (feedback: Self)
        ensures
            feedback.spec_history() == Seq::<u8>::empty(),
    {
        InputRangeMapFeedback { history: Vec::new() }
    }

    /// The ranges of every testcase that was kept, united.
    pub fn history_map(&self) -> (history: &[u8])
        ensures
            history@ == self.spec_history(),
    {
        self.history.as_slice()
    }

    /// How many entries of the history hold a range.
    pub fn num_covered_map_indexes(&self) -> (count: u64)
        ensures
            count == count_set(self.spec_history(), RANGE_EMPTY),
    {
        assert(self.history@.take(self.history@.len() as int) =~= self.history@);
        count_differing(self.history.as_slice(), self.history.len(), RANGE_EMPTY)
    }

    fn known(&self, idx: usize) -> (entry: u8)
        ensures
            entry == entry_at(self.spec_history(), idx as int),
    {
        if idx < self.history.len() {
            self.history[idx]
        } else {
            RANGE_EMPTY
        }
    }

    /// Whether what was observed widens some entry of the history.
    pub fn is_interesting<M>(&self, observer: &InputRangeMapObserver<M>) -> (interesting: bool)
        where M: MapObserver<Entry = u8>
        ensures
            interesting == is_novel(self.spec_history(), observer.entries()),
    {
        let count: usize = observer.usable_count();
        let mut idx: usize = 0;
        while idx < count
            invariant
                idx <= count,
                count == observer.entries().len(),
                forall|i: int|
                    0 <= i < idx ==> !#[trigger] novel_at(
                        self.spec_history(),
                        observer.entries(),
                        i,
                    ),
            decreases count - idx,
        {
            let existing: u8 = self.known(idx);
            let reduced: u8 = RangeUnionReducer::reduce(existing, observer.get(idx));
            if existing != reduced {
                assert(novel_at(self.spec_history(), observer.entries(), idx as int));
                return true;
            }
            idx = idx + 1;
        }
        false
    }

    /// Keep what was observed: reduce every entry into the history.
    pub fn append_metadata<M>(&mut self, observer: &InputRangeMapObserver<M>)
        where M: MapObserver<Entry = u8>
        ensures
            final(self).spec_history() == merged(old(self).spec_history(), observer.entries()),
    {
        let count: usize = observer.usable_count();
        let ghost before = self.history@;
        let ghost observed = observer.entries();
        let mut idx: usize = 0;
        while idx < count
            invariant
                idx <= count,
                count == observed.len(),
                observed == observer.entries(),
                before.len() >= idx ==> self.history@.len() == before.len(),
                before.len() < idx ==> self.history@.len() == idx,
                forall|i: int|
                    0 <= i < idx ==> self.history@[i] == #[trigger] hull(
                        entry_at(before, i),
                        observed[i],
                    ),
                forall|i: int| idx <= i < before.len() ==> self.history@[i] == before[i],
            decreases count - idx,
        {
            let reduced: u8 = RangeUnionReducer::reduce(self.known(idx), observer.get(idx));
            if idx < self.history.len() {
                self.history[idx] = reduced;
            } else {
                self.history.push(reduced);
            }
            idx = idx + 1;
        }
        proof {
            assert forall|i: int| 0 <= i < self.history@.len() implies self.history@[i] == merged(
                before,
                observed,
            )[i] by {
                law_union_absorbs_empty(entry_at(before, i));
                if i < count {
                    assert(hull(entry_at(before, i), observed[i]) == self.history@[i]);
                }
            }
            assert(self.history@ =~= merged(before, observed));
        }
    }
}

/// Any entry of the merged history, also beyond both maps.
pub proof fn lemma_merged_entry(history: Seq<u8>, observed: Seq<u8>, idx: int)
    ensures
        entry_at(merged(history, observed), idx) == hull(
            entry_at(history, idx),
            entry_at(observed, idx),
        ),
{
    law_union_absorbs_empty(RANGE_EMPTY);
}

/// An observation is interesting exactly if it widens some entry of the history: it pushes a
/// lowest bucket down or a highest bucket up.
pub proof fn law_interesting_is_widening(history: Seq<u8>, observed: Seq<u8>)
    ensures
        is_novel(history, observed) <==> exists|i: int|
            0 <= i < observed.len() && (lowest(#[trigger] observed[i]) < lowest(
                entry_at(history, i),
            ) || highest(observed[i]) > highest(entry_at(history, i))),
{
    assert forall|i: int| 0 <= i < observed.len() implies (#[trigger] novel_at(history, observed, i)
        <==> lowest(observed[i]) < lowest(entry_at(history, i)) || highest(observed[i]) > highest(
        entry_at(history, i),
    )) by {
        law_different_is_widened(entry_at(history, i), observed[i]);
    }
    if exists|i: int|
        0 <= i < observed.len() && (lowest(#[trigger] observed[i]) < lowest(entry_at(history, i))
            || highest(observed[i]) > highest(entry_at(history, i))) {
        let i = choose|i: int|
            0 <= i < observed.len() && (lowest(#[trigger] observed[i]) < lowest(
                entry_at(history, i),
            ) || highest(observed[i]) > highest(entry_at(history, i)));
        assert(novel_at(history, observed, i));
    }
}

/// Entries at which nothing was observed are never interesting.
pub proof fn law_untouched_is_skipped(history: Seq<u8>, observed: Seq<u8>, idx: int)
    requires
        0 <= idx < observed.len(),
        observed[idx] == RANGE_EMPTY,
    ensures
        !novel_at(history, observed, idx),
{
    law_union_absorbs_empty(entry_at(history, idx));
}

/// The history covers all that was kept, and only grows.
pub proof fn law_merge_covers(history: Seq<u8>, observed: Seq<u8>)
    ensures
        forall|i: int|
            covers(#[trigger] entry_at(merged(history, observed), i), entry_at(history, i)),
        forall|i: int|
            covers(#[trigger] entry_at(merged(history, observed), i), entry_at(observed, i)),
{
    assert forall|i: int| covers(
        #[trigger] entry_at(merged(history, observed), i),
        entry_at(history, i),
    ) && covers(entry_at(merged(history, observed), i), entry_at(observed, i)) by {
        law_union_widens(entry_at(history, i), entry_at(observed, i));
    }
}

/// What was kept once is not interesting again.
pub proof fn law_merge_settles(history: Seq<u8>, observed: Seq<u8>)
    ensures
        !is_novel(merged(history, observed), observed),
{
    assert forall|i: int| 0 <= i < observed.len() implies !#[trigger] novel_at(
        merged(history, observed),
        observed,
        i,
    ) by {
        law_union_associative(entry_at(history, i), observed[i], observed[i]);
        law_union_idempotent(observed[i]);
    }
}

/// Keeping what is not interesting changes no entry.
pub proof fn law_uninteresting_changes_nothing(history: Seq<u8>, observed: Seq<u8>)
    requires
        !is_novel(history, observed),
    ensures
        forall|i: int| #[trigger] entry_at(merged(history, observed), i) == entry_at(history, i),
{
    assert forall|i: int| #[trigger]
        entry_at(merged(history, observed), i) == entry_at(history, i) by {
        law_union_absorbs_empty(entry_at(history, i));
        if 0 <= i < observed.len() {
            assert(!novel_at(history, observed, i));
        }
    }
}

/// A history of maps is a map.
pub proof fn law_merge_keeps_map(history: Seq<u8>, observed: Seq<u8>)
    requires
        is_map(history),
        is_map(observed),
    ensures
        is_map(merged(history, observed)),
{
    assert forall|i: int| 0 <= i < merged(history, observed).len() implies is_entry(
        #[trigger] merged(history, observed)[i],
    ) by {
        law_union_closed(entry_at(history, i), entry_at(observed, i));
    }
}

/// The history holds the union of every range ever kept: merging the map of a run over `len`
/// entries, which started out fresh, is the same as recording all that the run observed into
/// the history, grown to that length first. The run must not have observed anything at an edge
/// that only the history has, since its own map ignores such an edge.
pub proof fn law_history_is_union_of_runs(history: Seq<u8>, len: nat, trace: Seq<(int, u64)>)
    requires
        forall|j: int|
            0 <= j < trace.len() ==> !(len <= (#[trigger] trace[j]).0 < history.len()),
    ensures
        merged(history, recorded_all(fresh_map(len), trace)) == recorded_all(
            merged(history, fresh_map(len)),
            trace,
        ),
        len <= history.len() ==> merged(history, fresh_map(len)) == history,
    decreases trace.len(),
{
    let fresh = fresh_map(len);
    let grown = merged(history, fresh);
    if len <= history.len() {
        assert forall|i: int| 0 <= i < history.len() implies grown[i] == history[i] by {
            law_union_absorbs_empty(history[i]);
        }
        assert(grown =~= history);
    }
    if trace.len() > 0 {
        let rest = trace.drop_last();
        let (idx, value) = trace.last();
        assert forall|j: int| 0 <= j < rest.len() implies !(len <= (#[trigger] rest[j]).0
            < history.len()) by {
            assert(rest[j] == trace[j]);
        }
        assert(trace[trace.len() - 1] == (idx, value));
        law_history_is_union_of_runs(history, len, rest);
        lemma_recorded_len(fresh, rest);
        lemma_recorded_len(grown, rest);
        let observed = recorded_all(fresh, rest);
        let known = recorded_all(grown, rest);
        assert forall|i: int| 0 <= i < grown.len() implies merged(
            history,
            recorded(observed, idx, value),
        )[i] == recorded(known, idx, value)[i] by {
            let point = packed(bucket_of(value), bucket_of(value));
            assert(known[i] == hull(entry_at(history, i), entry_at(observed, i)));
            law_union_associative(entry_at(history, i), entry_at(observed, i), point);
        }
        assert(merged(history, recorded(observed, idx, value)) =~= recorded(known, idx, value));
    }
}

/// The history after keeping a list of runs, each over a fresh map of `len` entries.
pub open spec fn kept_runs(history: Seq<u8>, len: nat, runs: Seq<Seq<(int, u64)>>) -> Seq<u8>
    decreases runs.len(),
{
    if runs.len() == 0 {
        history
    } else {
        merged(
            kept_runs(history, len, runs.drop_last()),
            recorded_all(fresh_map(len), runs.last()),
        )
    }
}

/// Over a whole campaign: after keeping any list of runs the history is what recording all
/// their observations in a row makes of the history it started from, grown to the length of the
/// runs' maps. From an empty history and at least one run, that is the record of a fresh map.
pub proof fn law_history_is_union_of_campaign(
    history: Seq<u8>,
    len: nat,
    runs: Seq<Seq<(int, u64)>>,
)
    requires
        runs.len() > 0 || len <= history.len(),
        forall|k: int, j: int|
            0 <= k < runs.len() && 0 <= j < runs[k].len() ==> !(len <= (#[trigger] runs[k][j]).0
                < history.len()),
    ensures
        kept_runs(history, len, runs) == recorded_all(
            merged(history, fresh_map(len)),
            in_a_row(runs),
        ),
        history.len() == 0 ==> kept_runs(history, len, runs) == recorded_all(
            fresh_map(len),
            in_a_row(runs),
        ),
    decreases runs.len(),
{
    let fresh = fresh_map(len);
    let grown = merged(history, fresh);
    let none = Seq::<(int, u64)>::empty();
    law_history_is_union_of_runs(history, len, none);
    if history.len() == 0 {
        assert forall|i: int| 0 <= i < len implies grown[i] == fresh[i] by {
            law_union_absorbs_empty(RANGE_EMPTY);
        }
        assert(grown =~= fresh);
    }
    if runs.len() > 0 {
        let rest = runs.drop_last();
        let run = runs.last();
        assert forall|j: int| 0 <= j < run.len() implies !(len <= (#[trigger] run[j]).0
            < history.len()) by {
            assert(runs[runs.len() - 1][j] == run[j]);
        }
        if rest.len() == 0 && history.len() < len {
            law_history_is_union_of_runs(history, len, run);
            assert(in_a_row(rest) =~= none);
            assert(in_a_row(runs) =~= run);
        } else {
            assert forall|k: int, j: int|
                0 <= k < rest.len() && 0 <= j < rest[k].len() implies !(len <= (
            #[trigger] rest[k][j]).0 < history.len()) by {
                assert(runs[k][j] == rest[k][j]);
            }
            law_history_is_union_of_campaign(history, len, rest);
            let known = kept_runs(history, len, rest);
            lemma_recorded_len(grown, in_a_row(rest));
            law_history_is_union_of_runs(known, len, run);
            law_traces_concatenate(grown, in_a_row(rest), run);
        }
    }
}

/// A range map is interesting exactly if at any of its edges its lowest bucket is below, or its
/// highest above, what the history holds there; where the history holds nothing, against the
/// empty entry.
pub proof fn law_wider_ranges_are_interesting(history: Seq<u8>, observed: Seq<u8>)
    ensures
        is_novel(history, observed) <==> exists|i: int|
            0 <= i < observed.len() && {
                let known = if i < history.len() {
                    history[i] as int
                } else {
                    15
                };
                (#[trigger] observed[i]) as int % 16 < known % 16 || observed[i] as int / 16 > known
                    / 16
            },
{
    law_interesting_is_widening(history, observed);
    assert forall|i: int| 0 <= i < observed.len() implies ((lowest(#[trigger] observed[i]) < lowest(
        entry_at(history, i),
    ) || highest(observed[i]) > highest(entry_at(history, i))) <==> {
        let known = if i < history.len() {
            history[i] as int
        } else {
            15
        };
        observed[i] as int % 16 < known % 16 || observed[i] as int / 16 > known / 16
    }) by {}
}

/// The range history that took in a map is as long as the longer of the two. At an edge that both
/// have it starts at the lower of their lowest buckets and ends at the higher of their highest;
/// at an edge that one has it is that one's entry.
pub proof fn law_history_keeps_ranges(history: Seq<u8>, observed: Seq<u8>)
    ensures
        merged(history, observed).len() == if history.len() < observed.len() {
            observed.len()
        } else {
            history.len()
        },
        forall|i: int|
            0 <= i < history.len() && i < observed.len() ==> {
                let entry = #[trigger] merged(history, observed)[i] as int;
                let a = history[i] as int;
                let b = observed[i] as int;
                &&& entry % 16 <= a % 16 && entry % 16 <= b % 16
                &&& entry % 16 == a % 16 || entry % 16 == b % 16
                &&& entry / 16 >= a / 16 && entry / 16 >= b / 16
                &&& entry / 16 == a / 16 || entry / 16 == b / 16
            },
        forall|i: int|
            observed.len() <= i < history.len() ==> #[trigger] merged(history, observed)[i]
                == history[i],
        forall|i: int|
            history.len() <= i < observed.len() ==> #[trigger] merged(history, observed)[i]
                == observed[i],
{
    assert forall|i: int| 0 <= i < history.len() && i < observed.len() implies ({
        let entry = #[trigger] merged(history, observed)[i] as int;
        let a = history[i] as int;
        let b = observed[i] as int;
        &&& entry % 16 <= a % 16 && entry % 16 <= b % 16
        &&& entry % 16 == a % 16 || entry % 16 == b % 16
        &&& entry / 16 >= a / 16 && entry / 16 >= b / 16
        &&& entry / 16 == a / 16 || entry / 16 == b / 16
    }) by {
        law_union_by_number(history[i], observed[i]);
    }
    assert forall|i: int| observed.len() <= i < history.len() implies #[trigger] merged(
        history,
        observed,
    )[i] == history[i] by {
        law_union_absorbs_empty(history[i]);
    }
    assert forall|i: int| history.len() <= i < observed.len() implies #[trigger] merged(
        history,
        observed,
    )[i] == observed[i] by {
        law_union_absorbs_empty(observed[i]);
    }
}

} // verus!
