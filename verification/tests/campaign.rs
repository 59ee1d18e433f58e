use std::borrow::Cow;

use range_map::campaign::{CampaignFeedback, MaxMapFeedback, Verdict};
use range_map::entry::{unpack_range, RANGE_EMPTY};
use range_map::feedback::{InputRangeMapFeedback, RangeUnionReducer};
use range_map::harness::{harness, range_set, signals_set, TargetMaps, MAP_LEN, RUN_TARGET};
use range_map::observer::{ConstLenMapObserver, ExitKind, MapObserver};
use range_map::range_observer::InputRangeMapObserver;
use range_map::storage::{ConstMapObserver, StdMapObserver};

fn run(buf: &[u8]) -> (ExitKind, [u8; MAP_LEN], [u8; MAP_LEN]) {
    let mut signals = [0u8; MAP_LEN];
    let mut ranges = [RANGE_EMPTY; MAP_LEN];
    let exit_kind = harness(buf, &mut signals, &mut ranges);
    (exit_kind, signals, ranges)
}

fn with_run(len: usize) -> Vec<u8> {
    let mut buf = b"ab".to_vec();
    buf.extend(vec![b'+'; len]);
    buf
}

fn observer(map: Vec<u8>) -> InputRangeMapObserver<StdMapObserver> {
    InputRangeMapObserver::new(StdMapObserver::new(Cow::Borrowed("ranges"), map))
}

#[test]
fn harness_follows_the_prefix() {
    let (exit_kind, signals, ranges) = run(b"");
    assert_eq!(exit_kind, ExitKind::Normal);
    assert_eq!(&signals[..4], &[1, 0, 0, 0]);
    assert_eq!(unpack_range(ranges[0]), Some((0, 0)));
    assert_eq!(unpack_range(ranges[1]), None);

    let (_, signals, ranges) = run(b"b+++++++++");
    assert_eq!(&signals[..4], &[1, 0, 0, 0]);
    assert_eq!(unpack_range(ranges[0]), Some((5, 5)));

    let (_, signals, ranges) = run(b"a+b");
    assert_eq!(&signals[..4], &[1, 1, 0, 0]);
    assert_eq!(unpack_range(ranges[1]), Some((8, 8)));
    assert_eq!(unpack_range(ranges[2]), None);

    let (exit_kind, signals, ranges) = run(b"ab++x+");
    assert_eq!(exit_kind, ExitKind::Normal);
    assert_eq!(&signals[..4], &[1, 1, 1, 0]);
    assert_eq!(unpack_range(ranges[2]), Some((8, 8)));
    assert_eq!(unpack_range(ranges[3]), Some((2, 2)));
    assert_eq!(&ranges[4..], &[RANGE_EMPTY; MAP_LEN - 4]);
}

#[test]
fn harness_crashes_at_the_run_target() {
    let target = RUN_TARGET as usize;
    assert_eq!(run(&with_run(target - 1)).0, ExitKind::Normal);
    assert_eq!(run(&with_run(target)).0, ExitKind::Crash);
    assert_eq!(run(&with_run(target + 100)).0, ExitKind::Crash);
    let mut broken = with_run(target);
    broken[20] = b'-';
    assert_eq!(run(&broken).0, ExitKind::Normal);
    assert_eq!(unpack_range(run(&with_run(target)).2[3]), Some((7, 7)));
}

#[test]
fn path_is_saturated_once_the_prefix_matches() {
    let (_, signals, _) = run(b"ab");
    for len in 0..50 {
        assert_eq!(run(&with_run(len)).1, signals);
    }
}

#[test]
fn prefix_edges_stay_degenerate() {
    let mut signals = [0u8; MAP_LEN];
    let mut ranges = [RANGE_EMPTY; MAP_LEN];
    for buf in [&b"a"[..], b"zz", b"ab", b"ab++++", b"ax"] {
        harness(buf, &mut signals, &mut ranges);
    }
    assert_eq!(unpack_range(ranges[1]), Some((8, 8)));
    assert_eq!(unpack_range(ranges[2]), Some((8, 8)));
    assert_eq!(unpack_range(ranges[3]), Some((0, 4)));
}

#[test]
fn reducer_is_the_union() {
    assert_eq!(RangeUnionReducer::reduce(0x55, 0x88), 0x85);
    assert_eq!(RangeUnionReducer::reduce(RANGE_EMPTY, 0x42), 0x42);
}

#[test]
fn interesting_when_some_range_widens() {
    let mut feedback = InputRangeMapFeedback::new();
    assert!(feedback.history_map().is_empty());
    assert!(!feedback.is_interesting(&observer(vec![RANGE_EMPTY; 3])));
    let first = observer(vec![RANGE_EMPTY, 0x85, RANGE_EMPTY]);
    assert!(feedback.is_interesting(&first));
    feedback.append_metadata(&first);
    assert_eq!(feedback.history_map(), &[RANGE_EMPTY, 0x85, RANGE_EMPTY]);
    assert!(!feedback.is_interesting(&first));
    assert!(!feedback.is_interesting(&observer(vec![RANGE_EMPTY, 0x76])));
    assert!(feedback.is_interesting(&observer(vec![RANGE_EMPTY, 0x95])));
    assert!(feedback.is_interesting(&observer(vec![RANGE_EMPTY, 0x84])));
    assert!(feedback.is_interesting(&observer(vec![RANGE_EMPTY, 0x66, 0x00])));
}

#[test]
fn history_unites_and_grows() {
    let mut feedback = InputRangeMapFeedback::new();
    feedback.append_metadata(&observer(vec![0x33]));
    feedback.append_metadata(&observer(vec![0x51, RANGE_EMPTY, 0x22]));
    assert_eq!(feedback.history_map(), &[0x51, RANGE_EMPTY, 0x22]);
    feedback.append_metadata(&observer(vec![RANGE_EMPTY]));
    assert_eq!(feedback.history_map(), &[0x51, RANGE_EMPTY, 0x22]);
    feedback.append_metadata(&observer(vec![0x32]));
    assert_eq!(feedback.history_map(), &[0x51, RANGE_EMPTY, 0x22]);
}

#[test]
fn campaign_climbs_bucket_by_bucket() {
    let base = ConstMapObserver::new(Cow::Borrowed("ranges"), [0u8; MAP_LEN]);
    let mut observer = InputRangeMapObserver::new(base);
    let mut feedback = InputRangeMapFeedback::new();
    let mut signals = [0u8; MAP_LEN];
    let mut all = [RANGE_EMPTY; MAP_LEN];
    let mut kept = Vec::new();
    let mut crashed = None;
    for len in 0..64 {
        assert!(observer.reset_map().is_ok());
        let input = with_run(len);
        let exit_kind =
            harness(&input, &mut signals, ConstLenMapObserver::map_slice_mut(&mut observer));
        if exit_kind == ExitKind::Crash {
            crashed = Some(len);
            break;
        }
        harness(&input, &mut [0u8; MAP_LEN], &mut all);
        if feedback.is_interesting(&observer) {
            feedback.append_metadata(&observer);
            kept.push(len);
        }
    }
    // Inputs of two bytes more than the run; edge 0 climbs with the length.
    assert_eq!(kept, vec![0, 1, 2, 3, 4, 6, 8, 14, 16, 30]);
    assert_eq!(crashed, Some(32));
    // One bucket short of the crashing value.
    assert_eq!(unpack_range(feedback.history_map()[3]), Some((0, 6)));
    assert_eq!(unpack_range(observer.get(3)), Some((7, 7)));
    assert_eq!(feedback.history_map(), &all);
}

#[test]
fn maps_are_written_one_at_a_time() {
    let mut maps = TargetMaps { signals: [0; MAP_LEN], ranges: [RANGE_EMPTY; MAP_LEN] };
    range_set(&mut maps, 5, 9);
    range_set(&mut maps, 5, 100);
    range_set(&mut maps, MAP_LEN, 1);
    range_set(&mut maps, usize::MAX, 1);
    let mut expected = [RANGE_EMPTY; MAP_LEN];
    expected[5] = 0x85;
    assert_eq!(maps.ranges, expected);
    assert_eq!(maps.signals, [0; MAP_LEN]);
    signals_set(&mut maps, 15);
    assert_eq!(maps.ranges, expected);
    assert_eq!(maps.signals[15], 1);
    assert_eq!(&maps.signals[..15], &[0; 15]);
}

fn coverage(map: Vec<u8>) -> StdMapObserver {
    StdMapObserver::new(Cow::Borrowed("signals"), map)
}

#[test]
fn coverage_is_interesting_when_it_rises() {
    let mut feedback = MaxMapFeedback::new();
    assert!(!feedback.is_interesting(&coverage(vec![0, 0])));
    assert!(feedback.is_interesting(&coverage(vec![0, 1])));
    feedback.append_metadata(&coverage(vec![0, 3]));
    feedback.append_metadata(&coverage(vec![2]));
    feedback.append_metadata(&coverage(vec![1, 1, 0]));
    assert_eq!(feedback.history_map(), &[2, 3, 0]);
    assert_eq!(feedback.num_covered_map_indexes(), 2);
    assert!(!feedback.is_interesting(&coverage(vec![2, 3])));
    assert!(feedback.is_interesting(&coverage(vec![0, 0, 0, 1])));
}

#[test]
fn either_feedback_keeps_a_testcase() {
    let mut feedback = CampaignFeedback::new();
    let ranges = observer(vec![0x33, RANGE_EMPTY]);
    let wider = observer(vec![0x43, RANGE_EMPTY]);
    let hit = coverage(vec![1, 0]);
    let more = coverage(vec![1, 1]);
    assert_eq!(feedback.evaluate(&hit, &ranges, ExitKind::Crash), Verdict::Solution);
    assert!(feedback.ranges().history_map().is_empty());
    assert!(feedback.signals().history_map().is_empty());
    assert_eq!(feedback.evaluate(&hit, &ranges, ExitKind::Normal), Verdict::Kept);
    assert_eq!(feedback.evaluate(&hit, &ranges, ExitKind::Normal), Verdict::Discarded);
    // Coverage alone: the ranges stay as they were.
    assert_eq!(feedback.evaluate(&more, &ranges, ExitKind::Normal), Verdict::Kept);
    assert_eq!(feedback.ranges().history_map(), &[0x33, RANGE_EMPTY]);
    // Ranges alone: the coverage stays as it was.
    assert_eq!(feedback.evaluate(&hit, &wider, ExitKind::Normal), Verdict::Kept);
    assert_eq!(feedback.signals().history_map(), &[1, 1]);
    assert_eq!(feedback.ranges().history_map(), &[0x43, RANGE_EMPTY]);
    assert_eq!(feedback.ranges().num_covered_map_indexes(), 1);
    assert_eq!(feedback.signals().num_covered_map_indexes(), 2);
    // A solution is not merged, however wide.
    let widest = observer(vec![0xF0, 0xF0]);
    assert_eq!(feedback.evaluate(&more, &widest, ExitKind::Crash), Verdict::Solution);
    assert_eq!(feedback.ranges().history_map(), &[0x43, RANGE_EMPTY]);
}

#[test]
fn first_run_becomes_the_history() {
    let mut feedback = InputRangeMapFeedback::new();
    let (_, _, ranges) = run(b"ab+++");
    feedback.append_metadata(&observer(ranges.to_vec()));
    assert_eq!(feedback.history_map(), &ranges);
}

#[test]
fn accumulated_ranges_are_those_of_every_survivor() {
    let mut feedback = CampaignFeedback::new();
    let mut all = [RANGE_EMPTY; MAP_LEN];
    let mut verdicts = Vec::new();
    let crashing = with_run(40);
    let inputs: [&[u8]; 6] = [b"ab+++", b"ab++", &crashing, b"x", b"ab++", b"ab++++++++"];
    for input in inputs {
        let (exit_kind, signals, ranges) = run(input);
        let verdict =
            feedback.evaluate(&coverage(signals.to_vec()), &observer(ranges.to_vec()), exit_kind);
        if verdict != Verdict::Solution {
            harness(input, &mut [0u8; MAP_LEN], &mut all);
        }
        verdicts.push(verdict);
    }
    assert_eq!(
        verdicts,
        vec![
            Verdict::Kept,
            Verdict::Kept,
            Verdict::Solution,
            Verdict::Kept,
            Verdict::Discarded,
            Verdict::Kept,
        ],
    );
    assert_eq!(feedback.ranges().history_map(), &all);
    assert_eq!(unpack_range(all[3]), Some((2, 5)));
}
