//! Observation traces: what a map holds after a whole run of the target.
use crate::entry::{bucket_of, recorded};
use vstd::prelude::*;

verus! {

/// The map that the observations of `trace`, taken in order, make out of `map`. An
/// observation is the index of an edge and the value seen there.
pub open spec fn recorded_all(map: Seq<u8>, trace: Seq<(int, u64)>) -> Seq<u8>
    decreases trace.len(),
{
    if trace.len() == 0 {
        map
    } else {
        recorded(recorded_all(map, trace.drop_last()), trace.last().0, trace.last().1)
    }
}

/// All observations of a list of runs, in order.
pub open spec fn in_a_row(runs: Seq<Seq<(int, u64)>>) -> Seq<(int, u64)>
    decreases runs.len(),
{
    if runs.len() == 0 {
        Seq::empty()
    } else {
        in_a_row(runs.drop_last()) + runs.last()
    }
}

/// Whether `trace` holds an observation at `idx`.
pub open spec fn touches(trace: Seq<(int, u64)>, idx: int) -> bool {
    exists|j: int| 0 <= j < trace.len() && (#[trigger] trace[j]).0 == idx
}

/// Whether `trace` observes a value of `bucket` at `idx`.
pub open spec fn observes(trace: Seq<(int, u64)>, idx: int, bucket: u8) -> bool {
    exists|j: int|
        0 <= j < trace.len() && (#[trigger] trace[j]).0 == idx && bucket_of(trace[j].1) == bucket
}

/// Recording one observation more.
pub proof fn lemma_recorded_push(map: Seq<u8>, trace: Seq<(int, u64)>, idx: int, value: u64)
    ensures
        recorded_all(map, trace.push((idx, value))) == recorded(
            recorded_all(map, trace),
            idx,
            value,
        ),
{
    assert(trace.push((idx, value)).drop_last() =~= trace);
}

/// Observations keep the length of a map.
pub proof fn lemma_recorded_len(map: Seq<u8>, trace: Seq<(int, u64)>)
    ensures
        recorded_all(map, trace).len() == map.len(),
    decreases trace.len(),
{
    if trace.len() > 0 {
        lemma_recorded_len(map, trace.drop_last());
    }
}

/// Taking the observations of two traces one after the other is taking those of both in a row.
pub proof fn law_traces_concatenate(map: Seq<u8>, a: Seq<(int, u64)>, b: Seq<(int, u64)>)
    ensures
        recorded_all(recorded_all(map, a), b) == recorded_all(map, a + b),
    decreases b.len(),
{
    if b.len() == 0 {
        assert(a + b =~= a);
    } else {
        law_traces_concatenate(map, a, b.drop_last());
        assert((a + b).drop_last() =~= a + b.drop_last());
    }
}

} // verus!
