use range_map::entry::{
    is_range_map, pack_range, range_bucket, range_map_record, range_union, unpack_range,
    RANGE_BUCKETS, RANGE_EMPTY,
};

#[test]
fn bucket_classes_follow_the_logarithm() {
    for value in 4..20_000u64 {
        let class = (value.ilog2() + 2).min(15);
        assert_eq!(u32::from(range_bucket(value)), class);
    }
    assert_eq!(range_bucket(1 << 40), RANGE_BUCKETS - 1);
    assert_eq!(range_bucket(4095), 13);
    assert_eq!(range_bucket(4096), 14);
}

#[test]
fn pack_uses_low_nibbles_only() {
    assert_eq!(pack_range(0xA3, 0xB7), 0x73);
    assert_eq!(pack_range(0xF0, 0xFF), 0xF0);
    assert_eq!(pack_range(2, 9), 0x92);
}

#[test]
fn every_entry_packs_back() {
    for entry in 0..=255u8 {
        if entry & 0x0F <= entry >> 4 {
            let (lo, hi) = unpack_range(entry).unwrap();
            assert_eq!(pack_range(lo, hi), entry);
        }
    }
}

#[test]
fn union_is_associative() {
    for a in 0..=255u8 {
        for b in 0..=255u8 {
            let ab = range_union(a, b);
            for c in [RANGE_EMPTY, 0x00, 0x12, 0x31, 0x5A, 0xF0, 0xFF] {
                assert_eq!(range_union(ab, c), range_union(a, range_union(b, c)));
            }
        }
    }
}

#[test]
fn union_of_values() {
    assert_eq!(range_union(0x55, 0x88), 0x85);
    assert_eq!(range_union(0x85, 0x00), 0x80);
    assert_eq!(range_union(0x42, 0x33), 0x42);
}

#[test]
fn different_is_widened() {
    for existing in 0..=255u8 {
        for observed in 0..=255u8 {
            let pushed = (observed & 0x0F) < (existing & 0x0F) || (observed >> 4) > (existing >> 4);
            assert_eq!(range_union(existing, observed) != existing, pushed);
        }
    }
}

#[test]
fn a_value_inside_the_range_changes_nothing() {
    let mut map = [0x85u8];
    for value in [8, 15, 16, 40, 64, 127] {
        range_map_record(&mut map, 0, value);
        assert_eq!(map, [0x85]);
    }
    range_map_record(&mut map, 0, 128);
    assert_eq!(map, [0x95]);
    range_map_record(&mut map, 0, 7);
    assert_eq!(map, [0x94]);
}

#[test]
fn no_observation_leaves_an_entry_empty() {
    for value in [0, 1, 3, 4, 100, 8191, 8192, u64::MAX] {
        let mut map = [RANGE_EMPTY];
        range_map_record(&mut map, 0, value);
        assert_ne!(map[0], RANGE_EMPTY);
        let bucket = range_bucket(value);
        assert_eq!(unpack_range(map[0]), Some((bucket, bucket)));
    }
}

#[test]
fn entries_hold_the_extremes_in_any_order() {
    let trace = [(0usize, 9u64), (2, 70), (0, 1), (2, 5), (0, 3000), (7, 1), (2, 64)];
    let mut forward = [RANGE_EMPTY; 3];
    for (idx, value) in trace {
        range_map_record(&mut forward, idx, value);
    }
    let mut backward = [RANGE_EMPTY; 3];
    for (idx, value) in trace.iter().rev() {
        range_map_record(&mut backward, *idx, *value);
        range_map_record(&mut backward, *idx, *value);
    }
    assert_eq!(forward, backward);
    assert_eq!(unpack_range(forward[0]), Some((1, 13)));
    assert_eq!(unpack_range(forward[1]), None);
    assert_eq!(unpack_range(forward[2]), Some((4, 8)));
}

#[test]
fn malformed_entries_are_told_apart() {
    assert!(is_range_map(&[]));
    assert!(is_range_map(&[RANGE_EMPTY, 0x00, 0x85, 0xFF, 0xF0]));
    assert!(!is_range_map(&[0x00, 0x12]));
    assert!(!is_range_map(&[0x0E]));
    let mut valid = 0;
    for entry in 0..=255u8 {
        if is_range_map(&[entry]) {
            valid += 1;
        }
    }
    // 16 * 17 / 2 intervals and the empty entry
    assert_eq!(valid, 137);
}

#[test]
fn recording_keeps_a_map_decodable() {
    let mut map = [RANGE_EMPTY, 0x31, 0xF0];
    for idx in 0..4 {
        for value in [0, 6, 1000, 1 << 50] {
            range_map_record(&mut map, idx, value);
            assert!(is_range_map(&map));
        }
    }
    assert_eq!(map, [0xF0, 0xF0, 0xF0]);
}

#[test]
fn union_is_empty_only_if_both_sides_are() {
    for a in 0..=255u8 {
        for b in 0..=255u8 {
            let both = a == RANGE_EMPTY && b == RANGE_EMPTY;
            assert_eq!(range_union(a, b) == RANGE_EMPTY, both);
        }
    }
}

#[test]
fn malformed_bytes_become_intervals() {
    for entry in 0..=255u8 {
        let mut map = [entry];
        range_map_record(&mut map, 0, 20);
        assert_ne!(map[0], RANGE_EMPTY);
        assert!(map[0] & 0x0F <= map[0] >> 4);
    }
}

#[test]
fn values_of_one_bucket_count_once() {
    let mut map = [0x31u8, RANGE_EMPTY];
    range_map_record(&mut map, 1, 64);
    let before = map;
    for value in 64..128 {
        range_map_record(&mut map, 1, value);
        assert_eq!(map, before);
    }
}
