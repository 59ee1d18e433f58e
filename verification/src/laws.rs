//! What holds of buckets, entries and maps, whatever the values are.
use crate::entry::{
    bucket_of, covers, decoded, fresh_map, highest, hull, is_entry, is_map, lowest, packed,
    recorded, widened, RANGE_BUCKETS, RANGE_EMPTY,
};
use crate::trace::{lemma_recorded_len, observes, recorded_all, touches};
use vstd::arithmetic::logarithm::{lemma_log0, lemma_log_s, log};
use vstd::arithmetic::power2::{
    lemma2_to64, lemma_pow2_strictly_increases, lemma_pow2_unfold, pow2,
};
use vstd::prelude::*;

verus! {

proof fn lemma_log_bounds(value: int)
    requires
        value > 0,
    ensures
        log(2, value) >= 0,
        pow2(log(2, value) as nat) <= value < 2 * pow2(log(2, value) as nat),
    decreases value,
{
    if value < 2 {
        lemma_log0(2, value);
        lemma2_to64();
    } else {
        lemma_log_s(2, value);
        lemma_log_bounds(value / 2);
        lemma_pow2_unfold(log(2, value) as nat);
    }
}

proof fn lemma_log_class(value: int, k: nat)
    requires
        value > 0,
    ensures
        log(2, value) == k <==> pow2(k) <= value < 2 * pow2(k),
        log(2, value) >= k <==> pow2(k) <= value,
{
    lemma_log_bounds(value);
    let l = log(2, value) as nat;
    if l < k {
        lemma_pow2_unfold(l + 1);
        if l + 1 < k {
            lemma_pow2_strictly_increases(l + 1, k);
        }
    } else if k < l {
        lemma_pow2_unfold(k + 1);
        if k + 1 < l {
            lemma_pow2_strictly_increases(k + 1, l);
        }
    }
}

/// Above `3` the bucket is the binary logarithm, rounded down, plus two, saturating at the last
/// bucket.
pub proof fn law_bucket_is_log(value: u64)
    requires
        value >= 4,
    ensures
        bucket_of(value) == if log(2, value as int) + 2 < RANGE_BUCKETS {
            log(2, value as int) + 2
        } else {
            RANGE_BUCKETS - 1
        },
{
    lemma2_to64();
    lemma_log_class(value as int, 2);
    lemma_log_class(value as int, 3);
    lemma_log_class(value as int, 4);
    lemma_log_class(value as int, 5);
    lemma_log_class(value as int, 6);
    lemma_log_class(value as int, 7);
    lemma_log_class(value as int, 8);
    lemma_log_class(value as int, 9);
    lemma_log_class(value as int, 10);
    lemma_log_class(value as int, 11);
    lemma_log_class(value as int, 12);
    lemma_log_class(value as int, 13);
}

/// `0..=3` map to themselves, each power-of-two class from `4..=7` up to `4096..=8191` has a
/// bucket of its own, and `8192..` saturates at the last bucket.
pub proof fn law_bucket_classes(value: u64)
    ensures
        value < 4 ==> bucket_of(value) == value,
        forall|k: nat|
            2 <= k < 13 ==> (bucket_of(value) == k + 2 <==> #[trigger] pow2(k) <= value < 2
                * pow2(k)),
        bucket_of(value) == RANGE_BUCKETS - 1 <==> value >= 8192,
{
    lemma2_to64();
}

/// A larger value never falls into a lower bucket, and every bucket fits a nibble.
pub proof fn law_bucket_monotone(a: u64, b: u64)
    requires
        a <= b,
    ensures
        bucket_of(a) <= bucket_of(b) < RANGE_BUCKETS,
{
}

/// Packing two buckets and decoding the entry gives their low nibbles back, unless they pack
/// to the empty entry, which no interval of buckets does.
pub proof fn law_pack_unpack_roundtrip(lo: u8, hi: u8)
    ensures
        packed(lo, hi) == RANGE_EMPTY <==> lo % 16 == 15 && hi % 16 == 0,
        packed(lo, hi) != RANGE_EMPTY ==> decoded(packed(lo, hi)) == Some(
            ((lo % 16) as u8, (hi % 16) as u8),
        ),
        lo <= hi < RANGE_BUCKETS ==> is_entry(packed(lo, hi)) && decoded(packed(lo, hi)) == Some(
            (lo, hi),
        ),
{
}

/// Decoding an entry and packing what it says gives the entry back.
pub proof fn law_unpack_pack_roundtrip(entry: u8)
    ensures
        match decoded(entry) {
            Some((lo, hi)) => packed(lo, hi) == entry,
            None => entry == packed(15, 0),
        },
{
}

/// A byte is an entry exactly if it is empty or packs an interval of buckets.
pub proof fn law_entries_are_intervals(entry: u8)
    ensures
        is_entry(entry) <==> entry == RANGE_EMPTY || exists|lo: u8, hi: u8|
            lo <= hi < RANGE_BUCKETS && entry == #[trigger] packed(lo, hi),
{
    if is_entry(entry) && entry != RANGE_EMPTY {
        assert(entry == packed(lowest(entry), highest(entry)));
    }
}

/// The empty entry is the identity of the union.
pub proof fn law_union_absorbs_empty(entry: u8)
    ensures
        hull(RANGE_EMPTY, entry) == entry,
        hull(entry, RANGE_EMPTY) == entry,
{
}

/// A union with itself changes nothing.
pub proof fn law_union_idempotent(entry: u8)
    ensures
        hull(entry, entry) == entry,
{
}

/// The order of the two entries does not matter.
pub proof fn law_union_commutative(a: u8, b: u8)
    ensures
        hull(a, b) == hull(b, a),
{
}

/// The grouping of unions does not matter.
pub proof fn law_union_associative(a: u8, b: u8, c: u8)
    ensures
        hull(hull(a, b), c) == hull(a, hull(b, c)),
{
    assert(hull(hull(a, b), c) == hull(a, hull(b, c))) by (bit_vector);
}

/// The union has the lower of the two lowest and the higher of the two highest buckets. It
/// covers both entries, and whatever covers both covers it.
pub proof fn law_union_widens(a: u8, b: u8)
    ensures
        lowest(hull(a, b)) == if lowest(a) < lowest(b) { lowest(a) } else { lowest(b) },
        highest(hull(a, b)) == if highest(a) > highest(b) { highest(a) } else { highest(b) },
        covers(hull(a, b), a),
        covers(hull(a, b), b),
        forall|c: u8| #[trigger] covers(c, a) && covers(c, b) ==> covers(c, hull(a, b)),
{
    assert forall|c: u8| #[trigger] covers(c, a) && covers(c, b) implies covers(
        c,
        hull(a, b),
    ) by {
        assert(covers(c, hull(a, b))) by (bit_vector)
            requires
                covers(c, a),
                covers(c, b),
        ;
    }
}

/// The union of two bytes is empty only if both are. It is an interval as soon as one of them
/// is, so the union of two entries is an entry.
pub proof fn law_union_closed(a: u8, b: u8)
    ensures
        hull(a, b) == RANGE_EMPTY <==> a == RANGE_EMPTY && b == RANGE_EMPTY,
        lowest(a) <= highest(a) || lowest(b) <= highest(b) ==> lowest(hull(a, b)) <= highest(
            hull(a, b),
        ),
        is_entry(a) && is_entry(b) ==> is_entry(hull(a, b)),
{
    assert(hull(a, b) == RANGE_EMPTY <==> a == RANGE_EMPTY && b == RANGE_EMPTY) by (bit_vector);
    assert(lowest(a) <= highest(a) || lowest(b) <= highest(b) ==> lowest(hull(a, b)) <= highest(
        hull(a, b),
    )) by (bit_vector);
}

/// Widening is monotone: what covers more before covers more after.
pub proof fn law_union_monotone(a: u8, b: u8, c: u8)
    requires
        covers(a, b),
    ensures
        covers(hull(a, c), hull(b, c)),
{
    assert(covers(hull(a, c), hull(b, c))) by (bit_vector)
        requires
            covers(a, b),
    ;
}

/// "Different" and "widened" are the same: the union differs from the entry it started from
/// exactly if the lowest bucket was pushed down or the highest was pushed up.
pub proof fn law_different_is_widened(existing: u8, observed: u8)
    ensures
        hull(existing, observed) != existing <==> lowest(observed) < lowest(existing) || highest(
            observed,
        ) > highest(existing),
{
    assert(hull(existing, observed) != existing <==> lowest(observed) < lowest(existing) || highest(
        observed,
    ) > highest(existing)) by (bit_vector);
}

/// An observation makes an interval out of whatever stood there; none leaves an entry empty.
pub proof fn law_observation_is_not_empty(entry: u8, value: u64)
    ensures
        widened(entry, value) != RANGE_EMPTY,
        lowest(widened(entry, value)) <= highest(widened(entry, value)),
        is_entry(widened(entry, value)),
{
    law_bucket_monotone(value, value);
    let b = bucket_of(value);
    law_pack_unpack_roundtrip(b, b);
    law_union_closed(entry, packed(b, b));
}

/// The first observation makes a range of one bucket.
pub proof fn law_first_observation(value: u64)
    ensures
        decoded(widened(RANGE_EMPTY, value)) == Some((bucket_of(value), bucket_of(value))),
{
    law_bucket_monotone(value, value);
}

proof fn lemma_inside(entry: u8, bucket: u8)
    requires
        bucket < RANGE_BUCKETS,
    ensures
        hull(entry, packed(bucket, bucket)) == entry <==> lowest(entry) <= bucket <= highest(entry),
{
    law_different_is_widened(entry, packed(bucket, bucket));
}

/// A value changes an entry exactly if its bucket lies outside the known range.
pub proof fn law_inside_changes_nothing(entry: u8, value: u64)
    ensures
        widened(entry, value) == entry <==> lowest(entry) <= bucket_of(value) <= highest(entry),
{
    law_bucket_monotone(value, value);
    lemma_inside(entry, bucket_of(value));
}

/// Recording changes the entry at the index and nothing else, nothing at all outside the map,
/// and keeps a map a map.
pub proof fn law_record_keeps_map(map: Seq<u8>, idx: int, value: u64)
    ensures
        recorded(map, idx, value).len() == map.len(),
        forall|i: int|
            0 <= i < map.len() && i != idx ==> #[trigger] recorded(map, idx, value)[i] == map[i],
        !(0 <= idx < map.len()) ==> recorded(map, idx, value) == map,
        is_map(map) ==> is_map(recorded(map, idx, value)),
{
    if 0 <= idx < map.len() {
        law_observation_is_not_empty(map[idx], value);
    }
}

/// Two observations can be taken in either order.
pub proof fn law_record_order(map: Seq<u8>, i: int, v: u64, j: int, w: u64)
    ensures
        recorded(recorded(map, i, v), j, w) == recorded(recorded(map, j, w), i, v),
{
    let a = recorded(recorded(map, i, v), j, w);
    let b = recorded(recorded(map, j, w), i, v);
    if i == j && 0 <= i < map.len() {
        let p = packed(bucket_of(v), bucket_of(v));
        let q = packed(bucket_of(w), bucket_of(w));
        law_union_associative(map[i], p, q);
        law_union_associative(map[i], q, p);
        law_union_commutative(p, q);
    }
    assert(a =~= b);
}

/// Another observation of the same bucket changes nothing.
pub proof fn law_record_idempotent(map: Seq<u8>, idx: int, v: u64, w: u64)
    requires
        bucket_of(v) == bucket_of(w),
    ensures
        recorded(recorded(map, idx, v), idx, w) == recorded(map, idx, v),
{
    if 0 <= idx < map.len() {
        let p = packed(bucket_of(v), bucket_of(v));
        law_union_associative(map[idx], p, p);
        law_union_idempotent(p);
        assert(recorded(recorded(map, idx, v), idx, w) =~= recorded(map, idx, v));
    }
}

proof fn lemma_last_observation(trace: Seq<(int, u64)>, idx: int)
    requires
        trace.len() > 0,
    ensures
        touches(trace, idx) <==> touches(trace.drop_last(), idx) || trace.last().0 == idx,
        forall|b: u8| #[trigger]
            observes(trace, idx, b) <==> observes(trace.drop_last(), idx, b) || (trace.last().0
                == idx && bucket_of(trace.last().1) == b),
{
    let rest = trace.drop_last();
    let n = trace.len() - 1;
    if touches(rest, idx) {
        let j = choose|j: int| 0 <= j < rest.len() && (#[trigger] rest[j]).0 == idx;
        assert(trace[j].0 == idx);
    }
    if trace.last().0 == idx {
        assert(trace[n].0 == idx);
    }
    if touches(trace, idx) && trace.last().0 != idx {
        let j = choose|j: int| 0 <= j < trace.len() && (#[trigger] trace[j]).0 == idx;
        assert(rest[j].0 == idx);
    }
    assert forall|b: u8| #[trigger] observes(trace, idx, b) implies observes(rest, idx, b) || (
    trace.last().0 == idx && bucket_of(trace.last().1) == b) by {
        let j = choose|j: int|
            0 <= j < trace.len() && (#[trigger] trace[j]).0 == idx && bucket_of(trace[j].1) == b;
        if j < n {
            assert(rest[j].0 == idx);
        }
    }
    assert forall|b: u8| observes(rest, idx, b) || (trace.last().0 == idx && bucket_of(
        trace.last().1,
    ) == b) implies #[trigger] observes(trace, idx, b) by {
        if observes(rest, idx, b) {
            let j = choose|j: int|
                0 <= j < rest.len() && (#[trigger] rest[j]).0 == idx && bucket_of(rest[j].1) == b;
            assert(trace[j].0 == idx);
        } else {
            assert(trace[n].0 == idx);
        }
    }
}

proof fn lemma_widened_extremes(entry: u8, value: u64)
    ensures
        widened(entry, value) != RANGE_EMPTY,
        entry == RANGE_EMPTY ==> lowest(widened(entry, value)) == bucket_of(value) && highest(
            widened(entry, value),
        ) == bucket_of(value),
        lowest(widened(entry, value)) == if lowest(entry) < bucket_of(value) {
            lowest(entry)
        } else {
            bucket_of(value)
        },
        highest(widened(entry, value)) == if highest(entry) > bucket_of(value) {
            highest(entry)
        } else {
            bucket_of(value)
        },
        is_entry(widened(entry, value)),
{
    law_observation_is_not_empty(entry, value);
    law_bucket_monotone(value, value);
    let b = bucket_of(value);
    law_pack_unpack_roundtrip(b, b);
    law_union_widens(entry, packed(b, b));
}

/// Whatever an entry starts from, after any observations its lowest bucket is the lowest of
/// where it started and all that was observed there, and its highest bucket the highest.
pub proof fn law_entry_widens_to_extremes(map: Seq<u8>, trace: Seq<(int, u64)>, idx: int)
    requires
        0 <= idx < map.len(),
    ensures
        recorded_all(map, trace).len() == map.len(),
        !touches(trace, idx) ==> recorded_all(map, trace)[idx] == map[idx],
        ({
            let entry = recorded_all(map, trace)[idx];
            &&& covers(entry, map[idx])
            &&& lowest(entry) == lowest(map[idx]) || observes(trace, idx, lowest(entry))
            &&& highest(entry) == highest(map[idx]) || observes(trace, idx, highest(entry))
            &&& forall|b: u8| #[trigger]
                observes(trace, idx, b) ==> lowest(entry) <= b <= highest(entry)
        }),
    decreases trace.len(),
{
    if trace.len() > 0 {
        let rest = trace.drop_last();
        law_entry_widens_to_extremes(map, rest, idx);
        lemma_last_observation(trace, idx);
        if trace.last().0 == idx {
            lemma_widened_extremes(recorded_all(map, rest)[idx], trace.last().1);
            assert(observes(trace, idx, bucket_of(trace.last().1)));
        }
    }
}

/// An entry that starts empty holds, after any observations, the lowest and the highest
/// bucket ever observed there, and stays empty as long as there were none.
pub proof fn law_entry_is_extremes(map: Seq<u8>, trace: Seq<(int, u64)>, idx: int)
    requires
        0 <= idx < map.len(),
        map[idx] == RANGE_EMPTY,
    ensures
        recorded_all(map, trace).len() == map.len(),
        is_entry(recorded_all(map, trace)[idx]),
        !touches(trace, idx) <==> recorded_all(map, trace)[idx] == RANGE_EMPTY,
        touches(trace, idx) ==> {
            let entry = recorded_all(map, trace)[idx];
            &&& observes(trace, idx, lowest(entry))
            &&& observes(trace, idx, highest(entry))
            &&& forall|b: u8| #[trigger]
                observes(trace, idx, b) ==> lowest(entry) <= b <= highest(entry)
        },
    decreases trace.len(),
{
    if trace.len() > 0 {
        let rest = trace.drop_last();
        law_entry_is_extremes(map, rest, idx);
        lemma_last_observation(trace, idx);
        if trace.last().0 == idx {
            lemma_widened_extremes(recorded_all(map, rest)[idx], trace.last().1);
            assert(observes(trace, idx, bucket_of(trace.last().1)));
        }
    }
}

/// Observations keep a map a map of the same length.
pub proof fn law_trace_keeps_map(map: Seq<u8>, trace: Seq<(int, u64)>)
    ensures
        recorded_all(map, trace).len() == map.len(),
        is_map(map) ==> is_map(recorded_all(map, trace)),
    decreases trace.len(),
{
    if trace.len() > 0 {
        let rest = trace.drop_last();
        law_trace_keeps_map(map, rest);
        law_record_keeps_map(recorded_all(map, rest), trace.last().0, trace.last().1);
    }
}

/// Neither the order nor the number of observations matters: runs that observe the same
/// buckets at the same edges make the same map out of any map.
pub proof fn law_order_does_not_matter(map: Seq<u8>, a: Seq<(int, u64)>, b: Seq<(int, u64)>)
    requires
        forall|idx: int, bucket: u8|
            #![trigger observes(a, idx, bucket)]
            #![trigger observes(b, idx, bucket)]
            observes(a, idx, bucket) == observes(b, idx, bucket),
    ensures
        recorded_all(map, a) == recorded_all(map, b),
{
    let map_a = recorded_all(map, a);
    let map_b = recorded_all(map, b);
    lemma_recorded_len(map, a);
    lemma_recorded_len(map, b);
    assert forall|i: int| 0 <= i < map.len() implies map_a[i] == map_b[i] by {
        law_entry_widens_to_extremes(map, a, i);
        law_entry_widens_to_extremes(map, b, i);
        assert(observes(a, i, lowest(map_a[i])) == observes(b, i, lowest(map_a[i])));
        assert(observes(a, i, highest(map_a[i])) == observes(b, i, highest(map_a[i])));
        assert(observes(a, i, lowest(map_b[i])) == observes(b, i, lowest(map_b[i])));
        assert(observes(a, i, highest(map_b[i])) == observes(b, i, highest(map_b[i])));
    }
    assert(map_a =~= map_b);
}

/// Nothing observed yet is the byte with all low bits and no high bit set, and there are as many
/// buckets as a nibble has values.
pub proof fn law_empty_is_inverted()
    ensures
        RANGE_EMPTY as int == 15 + 16 * 0,
        RANGE_BUCKETS as int == 16,
{
}

/// A byte is its two nibbles, the highest bucket above the lowest, and packing puts each of its
/// arguments in its place.
pub proof fn law_entry_is_two_nibbles(entry: u8, lo: u8, hi: u8)
    ensures
        0 <= lowest(entry) < 16,
        0 <= highest(entry) < 16,
        entry as int == 16 * highest(entry) + lowest(entry),
        packed(lo, hi) as int == 16 * (hi as int % 16) + lo as int % 16,
{
}

/// What an entry says, by its number: nothing if it is 15, else the remainder and the quotient by
/// 16. It is well formed if it is 15 or the remainder is not above the quotient.
pub proof fn law_decoding_by_number(entry: u8)
    ensures
        decoded(entry) is None <==> entry as int == 15,
        decoded(entry) matches Some((lo, hi)) ==> lo as int == entry as int % 16 && hi as int
            == entry as int / 16,
        is_entry(entry) <==> entry as int == 15 || entry as int % 16 <= entry as int / 16,
{
}

/// A bucket lies in the union's interval if it lies in that of either side, and each end of the
/// union is an end of one side.
pub proof fn law_union_by_number(a: u8, b: u8)
    ensures
        hull(a, b) as int % 16 <= a as int % 16,
        hull(a, b) as int % 16 <= b as int % 16,
        hull(a, b) as int / 16 >= a as int / 16,
        hull(a, b) as int / 16 >= b as int / 16,
        hull(a, b) as int % 16 == a as int % 16 || hull(a, b) as int % 16 == b as int % 16,
        hull(a, b) as int / 16 == a as int / 16 || hull(a, b) as int / 16 == b as int / 16,
{
    law_union_widens(a, b);
    law_entry_is_two_nibbles(hull(a, b), 0, 0);
}

/// Covering, by number: no end of `b` lies outside `a`.
pub proof fn law_covering_by_number(a: u8, b: u8)
    ensures
        covers(a, b) <==> a as int % 16 <= b as int % 16 && b as int / 16 <= a as int / 16,
{
}

/// An observation at an edge of the map: the entry there reaches the value's bucket, keeps what it
/// had, and reaches no further; every other entry, and the length, stay.
pub proof fn law_record_by_number(map: Seq<u8>, idx: int, value: u64)
    ensures
        recorded(map, idx, value).len() == map.len(),
        forall|i: int|
            0 <= i < map.len() && i != idx ==> #[trigger] recorded(map, idx, value)[i] == map[i],
        0 <= idx < map.len() ==> {
            let old_lo = map[idx] as int % 16;
            let old_hi = map[idx] as int / 16;
            let new_lo = recorded(map, idx, value)[idx] as int % 16;
            let new_hi = recorded(map, idx, value)[idx] as int / 16;
            let bucket = bucket_of(value) as int;
            &&& new_lo <= old_lo && new_lo <= bucket && (new_lo == old_lo || new_lo == bucket)
            &&& new_hi >= old_hi && new_hi >= bucket && (new_hi == old_hi || new_hi == bucket)
        },
{
    law_record_keeps_map(map, idx, value);
    if 0 <= idx < map.len() {
        lemma_widened_extremes(map[idx], value);
    }
}

/// A map is well formed exactly if each of its bytes is 15 or has a remainder by 16 that is not
/// above the quotient; a fresh map holds 15 everywhere.
pub proof fn law_maps_by_number(map: Seq<u8>, len: nat)
    ensures
        is_map(map) <==> forall|i: int|
            0 <= i < map.len() ==> (#[trigger] map[i]) as int == 15 || map[i] as int % 16
                <= map[i] as int / 16,
        fresh_map(len).len() == len,
        forall|i: int| 0 <= i < len ==> #[trigger] fresh_map(len)[i] as int == 15,
{
    if is_map(map) {
        assert forall|i: int| 0 <= i < map.len() implies (#[trigger] map[i]) as int == 15
            || map[i] as int % 16 <= map[i] as int / 16 by {
            assert(is_entry(map[i]));
        }
    }
    if forall|i: int|
        0 <= i < map.len() ==> (#[trigger] map[i]) as int == 15 || map[i] as int % 16 <= map[i]
            as int / 16 {
        assert forall|i: int| 0 <= i < map.len() implies is_entry(#[trigger] map[i]) by {}
    }
}

} // verus!
