//! A demonstration target whose bug is gated on a value, not on a path.
//!
//! The target matches an `ab` prefix and counts the run of `+` that follows. Once the prefix
//! is matched every input takes the same path, so plain edge coverage is saturated; the range
//! map keeps rewarding inputs that push the run length into a higher bucket.
use crate::entry::{bucket_of, decoded, fresh_map, highest, range_map_record, recorded, widened};
use crate::feedback::{entry_at, is_novel, merged, novel_at};
use crate::laws::{
    law_bucket_monotone, law_different_is_widened, law_first_observation,
    law_inside_changes_nothing, law_record_by_number, law_union_widens,
};
use crate::observer::ExitKind;
use crate::trace::{lemma_recorded_push, recorded_all};
use vstd::prelude::*;

verus! {

/// Number of entries in both maps. In a real target this would be the edge count.
pub const MAP_LEN: usize = 16;

/// How long a run of `+` after the `ab` prefix is needed to trigger the bug.
pub const RUN_TARGET: u64 = 32;

/// The byte `a`.
pub const BYTE_A: u8 = 0x61;

/// The byte `b`.
pub const BYTE_B: u8 = 0x62;

/// The byte `+`.
pub const BYTE_PLUS: u8 = 0x2B;

/// Whether an input starts with `a`.
pub open spec fn starts_with_a(buf: Seq<u8>) -> bool {
    buf.len() > 0 && buf[0] == BYTE_A
}

/// Whether an input starts with `ab`.
pub open spec fn starts_with_ab(buf: Seq<u8>) -> bool {
    starts_with_a(buf) && buf.len() > 1 && buf[1] == BYTE_B
}

/// The number of `+` that `buf` starts with.
pub open spec fn leading_plus(buf: Seq<u8>) -> nat
    decreases buf.len(),
{
    if buf.len() > 0 && buf[0] == BYTE_PLUS {
        1 + leading_plus(buf.skip(1))
    } else {
        0
    }
}

/// The number of `+` behind the two bytes of the prefix.
pub open spec fn run_length(buf: Seq<u8>) -> nat {
    leading_plus(buf.skip(2))
}

/// Whether an input triggers the bug.
pub open spec fn triggers_bug(buf: Seq<u8>) -> bool {
    starts_with_ab(buf) && run_length(buf) >= RUN_TARGET
}

/// What the target observes on an input, as edge and value, in order: the length, then the
/// two bytes of the prefix as far as they match, then the run length.
pub open spec fn observations(buf: Seq<u8>) -> Seq<(int, u64)> {
    let at_0 = seq![(0int, buf.len() as u64)];
    let at_1 = at_0.push((1int, BYTE_A as u64));
    let at_2 = at_1.push((2int, BYTE_B as u64));
    let at_3 = at_2.push((3int, run_length(buf) as u64));
    if starts_with_ab(buf) {
        at_3
    } else if starts_with_a(buf) {
        at_1
    } else {
        at_0
    }
}

/// How many edges an input reaches.
pub open spec fn edges_reached(buf: Seq<u8>) -> int {
    if starts_with_ab(buf) {
        3
    } else if starts_with_a(buf) {
        2
    } else {
        1
    }
}

/// The coverage map with the first `edges` edges marked as hit.
pub open spec fn marked(signals: Seq<u8>, edges: int) -> Seq<u8> {
    Seq::new(
        signals.len(),
        |i: int|
            if i < edges {
                1
            } else {
                signals[i]
            },
    )
}

/// The two maps that the target writes.
pub struct TargetMaps {
    /// The classic coverage map: one byte per edge, "was it hit".
    pub signals: [u8; MAP_LEN],
    /// The input-range map: one byte per edge, "which values passed through it".
    pub ranges: [u8; MAP_LEN],
}

/// Mark an edge as hit.
pub fn signals_set(maps: &mut TargetMaps, idx: usize)
    requires
        idx < MAP_LEN,
    ensures
        final(maps).signals@ == old(maps).signals@.update(idx as int, 1),
        final(maps).ranges == old(maps).ranges,
{
    maps.signals[idx] = 1;
}

/// Record a value observed at an edge, widening that edge's range.
///
/// This is the seam a real target would drive from instrumentation. An edge outside the map is
/// ignored; no other edge's range and nothing of the coverage map changes.
pub fn range_set(maps: &mut TargetMaps, idx: usize, value: u64)
    ensures
        final(maps).ranges@ == recorded(old(maps).ranges@, idx as int, value),
        forall|i: int|
            0 <= i < MAP_LEN && i != idx ==> #[trigger] final(maps).ranges@[i] == old(
                maps,
            ).ranges@[i],
        idx >= MAP_LEN ==> final(maps).ranges == old(maps).ranges,
        final(maps).signals == old(maps).signals,
{
    range_map_record(&mut maps.ranges, idx, value);
    assert(idx >= MAP_LEN ==> maps.ranges =~= old(maps).ranges);
}

/// Count the run of `+` that starts at `from`.
fn count_run(buf: &[u8], from: usize) -> (run: u64)
    requires
        from <= buf@.len(),
    ensures
        run == leading_plus(buf@.skip(from as int)),
{
    let mut at: usize = from;
    while at < buf.len() && buf[at] == BYTE_PLUS
        invariant
            from <= at <= buf@.len(),
            leading_plus(buf@.skip(from as int)) == (at - from) + leading_plus(
                buf@.skip(at as int),
            ),
        decreases buf@.len() - at,
    {
        assert(buf@.skip(at as int).skip(1) =~= buf@.skip(at + 1));
        at = at + 1;
    }
    (at - from) as u64
}

/// Run the target on an input: mark the edges it reaches, record the values seen there, and
/// crash if the run of `+` is long enough.
pub fn run_target(buf: &[u8], maps: &mut TargetMaps) -> (exit_kind: ExitKind)
    ensures
        final(maps).signals@ == marked(old(maps).signals@, edges_reached(buf@)),
        final(maps).ranges@ == recorded_all(old(maps).ranges@, observations(buf@)),
        exit_kind == if triggers_bug(buf@) {
            ExitKind::Crash
        } else {
            ExitKind::Normal
        },
{
    let ghost map = maps.ranges@;
    let ghost trace = Seq::<(int, u64)>::empty();
    proof {
        lemma_recorded_push(map, trace, 0, buf@.len() as u64);
        assert(trace.push((0int, buf@.len() as u64)) =~= seq![(0int, buf@.len() as u64)]);
        trace = trace.push((0int, buf@.len() as u64));
    }
    signals_set(maps, 0);
    range_set(maps, 0, buf.len() as u64);

    if buf.len() > 0 && buf[0] == BYTE_A {
        signals_set(maps, 1);
        // Edges 1 and 2 only ever see one value, which the range map reports as a
        // degenerate `lo == hi` interval -- itself a useful readout.
        range_set(maps, 1, buf[0] as u64);
        proof {
            lemma_recorded_push(map, trace, 1, BYTE_A as u64);
            trace = trace.push((1int, BYTE_A as u64));
        }

        if buf.len() > 1 && buf[1] == BYTE_B {
            signals_set(maps, 2);
            range_set(maps, 2, buf[1] as u64);

            // From here on the edge map is saturated: every further input takes the
            // exact same path. Only the *value* changes, and only the range map sees that.
            let run: u64 = count_run(buf, 2);
            range_set(maps, 3, run);
            proof {
                lemma_recorded_push(map, trace, 2, BYTE_B as u64);
                trace = trace.push((2int, BYTE_B as u64));
                lemma_recorded_push(map, trace, 3, run);
            }
            assert(maps.signals@ =~= marked(old(maps).signals@, 3));

            if run >= RUN_TARGET {
                return ExitKind::Crash;
            }
        }
    }
    assert(maps.signals@ =~= marked(old(maps).signals@, edges_reached(buf@)));
    ExitKind::Normal
}

/// Run the target on an input, over a coverage map and a range map that observers hold.
pub fn harness(
    buf: &[u8],
    signals: &mut [u8; MAP_LEN],
    ranges: &mut [u8; MAP_LEN],
) -> (exit_kind: ExitKind)
    ensures
        final(signals)@ == marked(old(signals)@, edges_reached(buf@)),
        final(ranges)@ == recorded_all(old(ranges)@, observations(buf@)),
        exit_kind == if triggers_bug(buf@) {
            ExitKind::Crash
        } else {
            ExitKind::Normal
        },
{
    let mut maps: TargetMaps = TargetMaps { signals: *signals, ranges: *ranges };
    let exit_kind: ExitKind = run_target(buf, &mut maps);
    *signals = maps.signals;
    *ranges = maps.ranges;
    exit_kind
}

proof fn lemma_run_fits(buf: Seq<u8>)
    ensures
        leading_plus(buf) <= buf.len(),
    decreases buf.len(),
{
    if buf.len() > 0 && buf[0] == BYTE_PLUS {
        lemma_run_fits(buf.skip(1));
    }
}

proof fn lemma_recorded_edges(map: Seq<u8>, buf: Seq<u8>)
    requires
        map.len() == MAP_LEN,
    ensures
        ({
            let after = recorded_all(map, observations(buf));
            &&& after.len() == map.len()
            &&& after[0] == widened(map[0], buf.len() as u64)
            &&& forall|i: int| 4 <= i < map.len() ==> #[trigger] after[i] == map[i]
            &&& after[1] == if starts_with_a(buf) {
                widened(map[1], BYTE_A as u64)
            } else {
                map[1]
            }
            &&& after[2] == if starts_with_ab(buf) {
                widened(map[2], BYTE_B as u64)
            } else {
                map[2]
            }
            &&& after[3] == if starts_with_ab(buf) {
                widened(map[3], run_length(buf) as u64)
            } else {
                map[3]
            }
        }),
{
    let none = Seq::<(int, u64)>::empty();
    lemma_recorded_push(map, none, 0, buf.len() as u64);
    let at_0 = seq![(0int, buf.len() as u64)];
    assert(none.push((0int, buf.len() as u64)) =~= at_0);
    lemma_recorded_push(map, at_0, 1, BYTE_A as u64);
    let at_1 = at_0.push((1int, BYTE_A as u64));
    lemma_recorded_push(map, at_1, 2, BYTE_B as u64);
    let at_2 = at_1.push((2int, BYTE_B as u64));
    lemma_recorded_push(map, at_2, 3, run_length(buf) as u64);
}

/// Once the prefix is matched the coverage map tells no two inputs apart.
pub proof fn law_path_is_saturated(a: Seq<u8>, b: Seq<u8>, signals: Seq<u8>)
    requires
        starts_with_ab(a),
        starts_with_ab(b),
    ensures
        marked(signals, edges_reached(a)) == marked(signals, edges_reached(b)),
{
}

/// Edges 1 and 2 only ever see one value: they stay empty or report a degenerate interval.
pub proof fn law_prefix_edges_are_degenerate(map: Seq<u8>, buf: Seq<u8>)
    requires
        map.len() == MAP_LEN,
        decoded(map[1]) is None || decoded(map[1]) == Some(
            (bucket_of(BYTE_A as u64), bucket_of(BYTE_A as u64)),
        ),
        decoded(map[2]) is None || decoded(map[2]) == Some(
            (bucket_of(BYTE_B as u64), bucket_of(BYTE_B as u64)),
        ),
    ensures
        ({
            let after = recorded_all(map, observations(buf));
            let a = bucket_of(BYTE_A as u64);
            let b = bucket_of(BYTE_B as u64);
            &&& decoded(after[1]) is None || decoded(after[1]) == Some((a, a))
            &&& decoded(after[2]) is None || decoded(after[2]) == Some((b, b))
            &&& starts_with_a(buf) ==> decoded(after[1]) == Some((a, a))
            &&& starts_with_ab(buf) ==> decoded(after[2]) == Some((b, b))
        }),
{
    lemma_recorded_edges(map, buf);
    law_first_observation(BYTE_A as u64);
    law_first_observation(BYTE_B as u64);
    law_inside_changes_nothing(map[1], BYTE_A as u64);
    law_inside_changes_nothing(map[2], BYTE_B as u64);
}

/// Every bucket that the run length climbs above the history makes an input interesting.
pub proof fn law_longer_run_is_interesting(history: Seq<u8>, buf: Seq<u8>)
    requires
        starts_with_ab(buf),
        highest(entry_at(history, 3)) < bucket_of(run_length(buf) as u64),
    ensures
        is_novel(history, recorded_all(fresh_map(MAP_LEN as nat), observations(buf))),
{
    let fresh = fresh_map(MAP_LEN as nat);
    let observed = recorded_all(fresh, observations(buf));
    lemma_recorded_edges(fresh, buf);
    law_first_observation(run_length(buf) as u64);
    law_different_is_widened(entry_at(history, 3), observed[3]);
    assert(novel_at(history, observed, 3));
}

/// What is kept of inputs that do not crash stays short of the bucket of the run that
/// triggers the bug; an input that crashes reaches it.
pub proof fn law_kept_runs_stay_short(history: Seq<u8>, buf: Seq<u8>)
    requires
        buf.len() <= u64::MAX,
        highest(entry_at(history, 3)) < bucket_of(RUN_TARGET),
    ensures
        ({
            let observed = recorded_all(fresh_map(MAP_LEN as nat), observations(buf));
            &&& !triggers_bug(buf) ==> highest(merged(history, observed)[3]) < bucket_of(RUN_TARGET)
            &&& triggers_bug(buf) ==> highest(observed[3]) >= bucket_of(RUN_TARGET)
        }),
{
    let fresh = fresh_map(MAP_LEN as nat);
    let observed = recorded_all(fresh, observations(buf));
    lemma_recorded_edges(fresh, buf);
    lemma_run_fits(buf.skip(2));
    let run = run_length(buf) as u64;
    law_first_observation(run);
    law_union_widens(entry_at(history, 3), observed[3]);
    if run < RUN_TARGET {
        law_bucket_monotone(run, RUN_TARGET);
    } else {
        law_bucket_monotone(RUN_TARGET, run);
    }
}

/// The run of `+` is as long as it can be: it holds nothing else, and what follows it, if anything
/// does, is no `+`.
pub proof fn law_run_is_maximal(buf: Seq<u8>)
    ensures
        leading_plus(buf) <= buf.len(),
        forall|i: int| 0 <= i < leading_plus(buf) ==> #[trigger] buf[i] == 0x2B,
        leading_plus(buf) < buf.len() ==> buf[leading_plus(buf) as int] != 0x2B,
    decreases buf.len(),
{
    if buf.len() > 0 && buf[0] == BYTE_PLUS {
        let rest = buf.skip(1);
        law_run_is_maximal(rest);
        assert forall|i: int| 0 <= i < leading_plus(buf) implies #[trigger] buf[i] == 0x2B by {
            if i > 0 {
                assert(rest[i - 1] == buf[i]);
            }
        }
        if leading_plus(buf) < buf.len() {
            assert(rest[leading_plus(rest) as int] == buf[leading_plus(buf) as int]);
        }
    }
}

/// An input crashes the target exactly if it starts with the bytes of `ab` and thirty-two times
/// that of `+`.
pub proof fn law_crash_is_prefix_and_run(buf: Seq<u8>)
    ensures
        triggers_bug(buf) <==> {
            &&& buf.len() >= 34
            &&& buf[0] == 0x61
            &&& buf[1] == 0x62
            &&& forall|i: int| 2 <= i < 34 ==> #[trigger] buf[i] == 0x2B
        },
{
    let tail = buf.skip(2);
    law_run_is_maximal(tail);
    let n = leading_plus(tail);
    if triggers_bug(buf) {
        assert forall|i: int| 2 <= i < 34 implies #[trigger] buf[i] == 0x2B by {
            assert(tail[i - 2] == buf[i]);
        }
    }
    if buf.len() >= 34 && buf[0] == 0x61 && buf[1] == 0x62 && (forall|i: int|
        2 <= i < 34 ==> #[trigger] buf[i] == 0x2B) {
        if n < 32 {
            assert(tail[n as int] == buf[n as int + 2]);
        }
    }
}

/// A crash stays a crash whatever follows it, and an input one byte short of it is none.
pub proof fn law_crash_is_about_the_start(buf: Seq<u8>, more: Seq<u8>)
    ensures
        triggers_bug(buf) ==> triggers_bug(buf + more),
        buf.len() < 34 ==> !triggers_bug(buf),
{
    law_crash_is_prefix_and_run(buf);
    law_crash_is_prefix_and_run(buf + more);
    if triggers_bug(buf) {
        assert forall|i: int| 2 <= i < 34 implies #[trigger] (buf + more)[i] == 0x2B by {
            assert((buf + more)[i] == buf[i]);
        }
    }
}

/// Which edges an input marks: edge 0 always, edge 1 exactly if byte 0 is that of `a`, edge 2
/// exactly if byte 1 is that of `b` as well, and no other. An edge that is marked holds 1, and
/// any other what it held.
pub proof fn law_marks_follow_the_prefix(signals: Seq<u8>, buf: Seq<u8>)
    ensures
        marked(signals, edges_reached(buf)).len() == signals.len(),
        forall|i: int|
            0 <= i < signals.len() ==> #[trigger] marked(signals, edges_reached(buf))[i] == if i == 0
                || (i == 1 && buf.len() >= 1 && buf[0] == 0x61) || (i == 2 && buf.len() >= 2
                && buf[0] == 0x61 && buf[1] == 0x62) {
                1
            } else {
                signals[i]
            },
{
}

/// Whether `after` is `before` widened by one bucket and no more.
pub open spec fn reaches(before: u8, after: u8, bucket: u8) -> bool {
    let (old_lo, old_hi) = (before as int % 16, before as int / 16);
    let (new_lo, new_hi) = (after as int % 16, after as int / 16);
    &&& new_lo <= old_lo && new_lo <= bucket && (new_lo == old_lo || new_lo == bucket)
    &&& new_hi >= old_hi && new_hi >= bucket && (new_hi == old_hi || new_hi == bucket)
}

/// Which values an input records: its length at edge 0; 97 at edge 1 exactly if byte 0 is that
/// of `a`; 98 at edge 2 and the length of the longest run of `+` from byte 2 on at edge 3 exactly
/// if byte 1 is that of `b` as well. Nothing else changes.
pub proof fn law_records_follow_the_prefix(map: Seq<u8>, buf: Seq<u8>, run: nat)
    requires
        map.len() == 16,
        buf.len() <= u64::MAX,
        buf.len() >= 2 ==> {
            &&& 2 + run <= buf.len()
            &&& forall|i: int| 2 <= i < 2 + run ==> #[trigger] buf[i] == 0x2B
            &&& 2 + run < buf.len() ==> buf[2 + run as int] != 0x2B
        },
    ensures
        ({
            let after = recorded_all(map, observations(buf));
            let a = buf.len() >= 1 && buf[0] == 0x61;
            let ab = a && buf.len() >= 2 && buf[1] == 0x62;
            &&& after.len() == 16
            &&& reaches(map[0], after[0], bucket_of(buf.len() as u64))
            &&& if a {
                reaches(map[1], after[1], bucket_of(97))
            } else {
                after[1] == map[1]
            }
            &&& if ab {
                reaches(map[2], after[2], bucket_of(98))
            } else {
                after[2] == map[2]
            }
            &&& if ab {
                reaches(map[3], after[3], bucket_of(run as u64))
            } else {
                after[3] == map[3]
            }
            &&& forall|i: int| 4 <= i < 16 ==> #[trigger] after[i] == map[i]
        }),
{
    lemma_recorded_edges(map, buf);
    if buf.len() >= 2 {
        let tail = buf.skip(2);
        law_run_is_maximal(tail);
        let n = leading_plus(tail);
        if n < run {
            assert(tail[n as int] == buf[n as int + 2]);
        }
        if run < n {
            assert(tail[run as int] == buf[run as int + 2]);
        }
    }
    law_record_by_number(map, 0, buf.len() as u64);
    law_record_by_number(map, 1, 97);
    law_record_by_number(map, 2, 98);
    law_record_by_number(map, 3, run as u64);
}

} // verus!
