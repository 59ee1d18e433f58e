//! Map entries: the packed byte, its buckets and the union of two entries.
//!
//! ```text
//! bit  7 6 5 4 | 3 2 1 0
//!      hi bkt  | lo bkt
//! ```
//!
//! The low nibble is the *lowest* value bucket ever observed at an entry, the high nibble
//! the *highest*. "Nothing observed yet" is [`RANGE_EMPTY`], the inverted interval
//! `lo = 15, hi = 0`: a union takes the `min` of the low nibbles and the `max` of the high
//! nibbles, so any real range absorbs it without a special case.
use crate::laws::law_bucket_is_log;
use vstd::arithmetic::logarithm::{lemma_log0, lemma_log_nonnegative, lemma_log_s, log};
use vstd::prelude::*;
use vstd::std_specs::bits::{axiom_u64_leading_zeros, u64_leading_zeros};

verus! {

/// The "no value observed yet" entry: the inverted interval `lo = 15, hi = 0`.
pub const RANGE_EMPTY: u8 = 0x0F;

/// The number of distinct value buckets (one nibble).
pub const RANGE_BUCKETS: u8 = 16;

/// The bucket of a value: `0..=3` map to themselves, then every power-of-two class has a
/// bucket of its own, and the last bucket takes everything above.
pub open spec fn bucket_of(value: u64) -> u8 {
    if value < 4 {
        value as u8
    } else if value < 8 {
        4
    } else if value < 16 {
        5
    } else if value < 32 {
        6
    } else if value < 64 {
        7
    } else if value < 128 {
        8
    } else if value < 256 {
        9
    } else if value < 512 {
        10
    } else if value < 1024 {
        11
    } else if value < 2048 {
        12
    } else if value < 4096 {
        13
    } else if value < 8192 {
        14
    } else {
        15
    }
}

/// The lowest bucket of an entry: its low nibble.
pub open spec fn lowest(entry: u8) -> u8 {
    entry % 16
}

/// The highest bucket of an entry: its high nibble.
pub open spec fn highest(entry: u8) -> u8 {
    entry / 16
}

/// The entry whose low nibble is that of `lo` and whose high nibble is the low nibble of `hi`.
pub open spec fn packed(lo: u8, hi: u8) -> u8 {
    ((hi % 16) * 16 + lo % 16) as u8
}

/// Whether a byte is an entry that observations can produce: empty, or an interval.
pub open spec fn is_entry(entry: u8) -> bool {
    entry == RANGE_EMPTY || lowest(entry) <= highest(entry)
}

/// What an entry says: nothing yet, or its lowest and highest bucket.
pub open spec fn decoded(entry: u8) -> Option<(u8, u8)> {
    if entry == RANGE_EMPTY {
        None
    } else {
        Some((lowest(entry), highest(entry)))
    }
}

/// The smallest interval that covers both entries.
pub open spec fn hull(a: u8, b: u8) -> u8 {
    packed(
        if lowest(a) < lowest(b) { lowest(a) } else { lowest(b) },
        if highest(a) > highest(b) { highest(a) } else { highest(b) },
    )
}

/// The entry that one observation of `value` makes out of `entry`.
pub open spec fn widened(entry: u8, value: u64) -> u8 {
    hull(entry, packed(bucket_of(value), bucket_of(value)))
}

/// The map that one observation of `value` at `idx` makes out of `map`; an index outside the
/// map changes nothing.
pub open spec fn recorded(map: Seq<u8>, idx: int, value: u64) -> Seq<u8> {
    if 0 <= idx < map.len() {
        map.update(idx, widened(map[idx], value))
    } else {
        map
    }
}

/// Whether entry `a` covers entry `b`: no bucket of `b` lies outside `a`.
pub open spec fn covers(a: u8, b: u8) -> bool {
    lowest(a) <= lowest(b) && highest(b) <= highest(a)
}

/// Whether every byte of a map is an entry.
pub open spec fn is_map(map: Seq<u8>) -> bool {
    forall|i: int| 0 <= i < map.len() ==> is_entry(#[trigger] map[i])
}

/// The map of `len` entries at which nothing has been observed yet.
pub open spec fn fresh_map(len: nat) -> Seq<u8> {
    Seq::new(len, |i: int| RANGE_EMPTY)
}

proof fn lemma_leading_zeros_log(value: u64)
    requires
        value > 0,
    ensures
        u64_leading_zeros(value) + log(2, value as int) == 63,
    decreases value,
{
    reveal(u64_leading_zeros);
    if value < 2 {
        assert(u64_leading_zeros(0) == 64);
        lemma_log0(2, value as int);
    } else {
        lemma_leading_zeros_log(value / 2);
        lemma_log_s(2, value as int);
    }
}

/// The binary logarithm, rounded down.
fn ilog2(value: u64) -> (r: u32)
    requires
        value > 0,
    ensures
        r == log(2, value as int),
        r < 64,
{
    proof {
        lemma_leading_zeros_log(value);
        lemma_log_nonnegative(2, value as int);
        axiom_u64_leading_zeros(value);
    }
    63 - value.leading_zeros()
}

/// Bucket a value into one of [`RANGE_BUCKETS`] log2 classes.
///
/// `0..=3` map to themselves, then each power-of-two class gets its own bucket:
/// `4..=7 -> 4`, `8..=15 -> 5`, ..., saturating at `8192.. -> 15`.
#[must_use]
pub fn range_bucket(value: u64) -> (bucket: u8)
    ensures
        bucket == bucket_of(value),
        bucket < RANGE_BUCKETS,
{
    match value {
        0 => 0,
        1 => 1,
        2 => 2,
        3 => 3,
        _ => {
            proof {
                law_bucket_is_log(value);
            }
            let class: u8 = ilog2(value) as u8 + 2;
            if class > RANGE_BUCKETS - 1 {
                RANGE_BUCKETS - 1
            } else {
                class
            }
        },
    }
}

/// Pack a `lo`/`hi` bucket pair into a single map entry.
///
/// Only the low nibble of each argument is used.
#[must_use]
pub fn pack_range(lo: u8, hi: u8) -> (entry: u8)
    ensures
        entry == packed(lo, hi),
        lowest(entry) == lo % 16,
        highest(entry) == hi % 16,
{
    assert(((hi & 0x0F) << 4) | (lo & 0x0F) == (hi % 16) * 16 + lo % 16) by (bit_vector);
    ((hi & 0x0F) << 4) | (lo & 0x0F)
}

/// Decode a map entry into its `(lo, hi)` bucket pair, or [`None`] if nothing has been
/// observed at that entry yet.
///
/// A byte with `lo > hi` other than [`RANGE_EMPTY`] is malformed and must not be decoded;
/// [`is_range_map`] tells such bytes apart.
#[must_use]
pub fn unpack_range(packed: u8) -> (range: Option<(u8, u8)>)
    requires
        is_entry(packed),
    ensures
        range == decoded(packed),
{
    if packed == RANGE_EMPTY {
        return None;
    }
    assert(packed & 0x0F == packed % 16) by (bit_vector);
    assert(packed >> 4 == packed / 16) by (bit_vector);
    let lo: u8 = packed & 0x0F;
    let hi: u8 = packed >> 4;
    Some((lo, hi))
}

/// Union two map entries: the `min` of the low nibbles and the `max` of the high nibbles.
///
/// [`RANGE_EMPTY`] is the identity element.
#[must_use]
pub fn range_union(a: u8, b: u8) -> (entry: u8)
    ensures
        entry == hull(a, b),
{
    assert(forall|e: u8| #[trigger] (e & 0x0F) == e % 16) by (bit_vector);
    assert(forall|e: u8| #[trigger] (e >> 4) == e / 16) by (bit_vector);
    let lo_a: u8 = a & 0x0F;
    let lo_b: u8 = b & 0x0F;
    let hi_a: u8 = a >> 4;
    let hi_b: u8 = b >> 4;

    let lo: u8 = if lo_a < lo_b { lo_a } else { lo_b };
    let hi: u8 = if hi_a > hi_b { hi_a } else { hi_b };
    pack_range(lo, hi)
}

/// Record `value` as observed at `idx`, widening that entry's range in place.
///
/// Out-of-bounds indexes are ignored, mirroring how coverage runtimes mask edge ids.
#[inline]
pub fn range_map_record(map: &mut [u8], idx: usize, value: u64)
    ensures
        final(map)@ == recorded(old(map)@, idx as int, value),
{
    if idx < map.len() {
        let bucket: u8 = range_bucket(value);
        let entry: u8 = map[idx];
        map[idx] = range_union(entry, pack_range(bucket, bucket));
    }
}

/// Whether every byte of a map can be decoded: none is an interval with `lo > hi`, other than
/// the empty one.
#[must_use]
pub fn is_range_map(map: &[u8]) -> (valid: bool)
    ensures
        valid == is_map(map@),
{
    assert(forall|e: u8| #[trigger] (e & 0x0F) == e % 16) by (bit_vector);
    assert(forall|e: u8| #[trigger] (e >> 4) == e / 16) by (bit_vector);
    let mut idx: usize = 0;
    while idx < map.len()
        invariant
            idx <= map@.len(),
            forall|i: int| 0 <= i < idx ==> is_entry(#[trigger] map@[i]),
            forall|e: u8| #[trigger] (e & 0x0F) == e % 16,
            forall|e: u8| #[trigger] (e >> 4) == e / 16,
        decreases map@.len() - idx,
    {
        let entry: u8 = map[idx];
        if entry != RANGE_EMPTY && (entry & 0x0F) > (entry >> 4) {
            assert(!is_entry(map@[idx as int]));
            return false;
        }
        idx = idx + 1;
    }
    true
}

} // verus!
