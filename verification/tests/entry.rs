use range_map::entry::{
    pack_range, range_bucket, range_map_record, range_union, unpack_range, RANGE_EMPTY,
};

#[test]
fn bucket_boundaries() {
    assert_eq!(range_bucket(0), 0);
    assert_eq!(range_bucket(1), 1);
    assert_eq!(range_bucket(2), 2);
    assert_eq!(range_bucket(3), 3);
    assert_eq!(range_bucket(4), 4);
    assert_eq!(range_bucket(7), 4);
    assert_eq!(range_bucket(8), 5);
    assert_eq!(range_bucket(15), 5);
    assert_eq!(range_bucket(16), 6);
    assert_eq!(range_bucket(8191), 14);
    assert_eq!(range_bucket(8192), 15);
    assert_eq!(range_bucket(u64::MAX), 15);
}

#[test]
fn bucket_is_monotone() {
    let mut last = 0;
    for v in 0..100_000u64 {
        let b = range_bucket(v);
        assert!(b >= last, "bucket decreased at {v}");
        assert!(b < 16);
        last = b;
    }
}

#[test]
fn pack_unpack_roundtrip() {
    for lo in 0..16u8 {
        for hi in lo..16u8 {
            let packed = pack_range(lo, hi);
            // RANGE_EMPTY is the inverted interval lo = 15, hi = 0, so no valid
            // `lo <= hi` pair can ever collide with it
            assert_ne!(packed, RANGE_EMPTY, "valid range {lo}..={hi} hit RANGE_EMPTY");
            assert_eq!(unpack_range(packed), Some((lo, hi)));
        }
    }
}

#[test]
fn empty_decodes_to_none() {
    assert_eq!(unpack_range(RANGE_EMPTY), None);
    assert_eq!(pack_range(15, 0), RANGE_EMPTY);
}

#[test]
fn union_absorbs_empty() {
    for lo in 0..16u8 {
        for hi in lo..16u8 {
            let r = pack_range(lo, hi);
            assert_eq!(range_union(RANGE_EMPTY, r), r);
            assert_eq!(range_union(r, RANGE_EMPTY), r);
        }
    }
    assert_eq!(range_union(RANGE_EMPTY, RANGE_EMPTY), RANGE_EMPTY);
}

#[test]
fn union_is_idempotent_commutative_and_widening() {
    for a_lo in 0..16u8 {
        for a_hi in a_lo..16u8 {
            let a = pack_range(a_lo, a_hi);
            assert_eq!(range_union(a, a), a);
            for b_lo in 0..16u8 {
                for b_hi in b_lo..16u8 {
                    let b = pack_range(b_lo, b_hi);
                    let u = range_union(a, b);
                    assert_eq!(u, range_union(b, a));

                    let (lo, hi) = unpack_range(u).expect("union of real ranges is not empty");
                    assert!(lo <= hi);
                    assert_eq!(lo, a_lo.min(b_lo));
                    assert_eq!(hi, a_hi.max(b_hi));
                }
            }
        }
    }
}

#[test]
fn record_widens_in_place() {
    let mut map = [RANGE_EMPTY; 4];

    range_map_record(&mut map, 1, 8); // bucket 5
    assert_eq!(unpack_range(map[1]), Some((5, 5)));

    range_map_record(&mut map, 1, 100); // bucket 8
    assert_eq!(unpack_range(map[1]), Some((5, 8)));

    range_map_record(&mut map, 1, 0); // bucket 0
    assert_eq!(unpack_range(map[1]), Some((0, 8)));

    // a value inside the known range changes nothing
    let before = map[1];
    range_map_record(&mut map, 1, 8);
    assert_eq!(map[1], before);

    // untouched entries stay empty, out-of-bounds is ignored
    assert_eq!(map[0], RANGE_EMPTY);
    range_map_record(&mut map, 99, 1);
    assert_eq!(map, [RANGE_EMPTY, before, RANGE_EMPTY, RANGE_EMPTY]);
}
