//! Experience buckets of a leaderboard.
//!
//! Experience is grouped into buckets whose width grows with the experience: 1 000 up
//! to 50 000, 5 000 up to 250 000, 25 000 up to 1 000 000, 100 000 up to 5 000 000 and
//! 500 000 beyond. Negative experience counts as none.
use vstd::prelude::*;

verus! {

/// `(last experience of the range, bucket width)` for each range, in increasing order.
pub const BUCKET_RANGES: [(i64, i64); 5] = [
    (50_000, 1_000),
    (250_000, 5_000),
    (1_000_000, 25_000),
    (5_000_000, 100_000),
    (i64::MAX, 500_000),
];

/// Largest experience a leaderboard ranks: the upper bound of its bucket still fits an `i64`.
pub const MAX_RANKED_XP: i64 = 9_223_372_036_854_500_000;

/// First experience of range `i`.
pub open spec fn range_start(i: int) -> int {
    if i <= 0 {
        0
    } else if i == 1 {
        50_001
    } else if i == 2 {
        250_001
    } else if i == 3 {
        1_000_001
    } else {
        5_000_001
    }
}

/// Number of buckets before range `i`.
pub open spec fn range_offset(i: int) -> int {
    if i <= 0 {
        0
    } else if i == 1 {
        51
    } else if i == 2 {
        91
    } else if i == 3 {
        121
    } else {
        161
    }
}

/// Bucket of an experience value.
pub open spec fn bucket_of(xp: int) -> int {
    let n = if xp < 0 { 0 } else { xp };
    if n <= 50_000 {
        n / 1_000
    } else if n <= 250_000 {
        51 + (n - 50_001) / 5_000
    } else if n <= 1_000_000 {
        91 + (n - 250_001) / 25_000
    } else if n <= 5_000_000 {
        121 + (n - 1_000_001) / 100_000
    } else {
        161 + (n - 5_000_001) / 500_000
    }
}

/// Width of bucket `b`.
pub open spec fn bucket_width(b: int) -> int {
    if b < 51 {
        1_000
    } else if b < 91 {
        5_000
    } else if b < 121 {
        25_000
    } else if b < 161 {
        100_000
    } else {
        500_000
    }
}

/// Smallest experience of bucket `b` as the bounds report it.
pub open spec fn bucket_low(b: int) -> int {
    if b < 51 {
        b * 1_000
    } else if b < 91 {
        50_001 + (b - 51) * 5_000
    } else if b < 121 {
        250_001 + (b - 91) * 25_000
    } else if b < 161 {
        1_000_001 + (b - 121) * 100_000
    } else {
        5_000_001 + (b - 161) * 500_000
    }
}

/// Largest experience of bucket `b` as the bounds report it.
pub open spec fn bucket_high(b: int) -> int {
    bucket_low(b) + bucket_width(b) - 1
}

/// Bucket of the largest ranked experience.
pub open spec fn max_bucket() -> int {
    bucket_of(MAX_RANKED_XP as int)
}

/// Bucket an experience value falls into.
pub fn bucket_for(xp: i64) -> (bucket: i64)
    ensures
        bucket == bucket_of(xp as int),
{
    let normalized = if xp < 0 { 0 } else { xp };
    let ranges = BUCKET_RANGES;
    let mut range_start_xp: i64 = 0;
    let mut offset: i64 = 0;
    let mut i: usize = 0;
    while i < 5
        invariant
            i <= 4,
            ranges@ == BUCKET_RANGES@,
            0 <= normalized,
            normalized == (if xp < 0 { 0 } else { xp as int }),
            range_start_xp == range_start(i as int),
            offset == range_offset(i as int),
            normalized >= range_start_xp,
        decreases 5 - i,
    {
        let (range_max, bucket_size) = ranges[i];
        if range_max == i64::MAX {
            let idx_in_range = (normalized - range_start_xp) / bucket_size;
            return offset + idx_in_range;
        }
        if normalized <= range_max {
            let idx_in_range = (normalized - range_start_xp) / bucket_size;
            return offset + idx_in_range;
        }
        let range_len = range_max - range_start_xp + 1;
        let buckets_in_range = (range_len + bucket_size - 1) / bucket_size;
        offset = offset + buckets_in_range;
        range_start_xp = range_max + 1;
        i = i + 1;
    }
    offset
}

/// Experience bounds `(low, high)` that a bucket reports.
pub fn bucket_bounds(bucket: i64) -> (bounds: (i64, i64))
    requires
        0 <= bucket <= max_bucket(),
    ensures
        bounds.0 == bucket_low(bucket as int),
        bounds.1 == bucket_high(bucket as int),
{
    let ranges = BUCKET_RANGES;
    let mut range_start_xp: i64 = 0;
    let mut offset: i64 = 0;
    let mut i: usize = 0;
    assert(max_bucket() == 18_446_744_073_859);
    while i < 5
        invariant
            i <= 4,
            ranges@ == BUCKET_RANGES@,
            0 <= bucket <= 18_446_744_073_859,
            range_start_xp == range_start(i as int),
            offset == range_offset(i as int),
            bucket >= offset,
        decreases 5 - i,
    {
        let (range_max, bucket_size) = ranges[i];
        if range_max == i64::MAX {
            let idx_in_range = bucket - offset;
            assert(0 <= idx_in_range * bucket_size <= 18_446_744_073_698 * 500_000) by (nonlinear_arith)
                requires
                    0 <= idx_in_range <= 18_446_744_073_698,
                    bucket_size == 500_000,
            ;
            let min = range_start_xp + (idx_in_range * bucket_size);
            let max = min + bucket_size - 1;
            return (min, max);
        }
        let range_len = range_max - range_start_xp + 1;
        let buckets_in_range = (range_len + bucket_size - 1) / bucket_size;
        if bucket < offset + buckets_in_range {
            let idx_in_range = bucket - offset;
            let min = range_start_xp + (idx_in_range * bucket_size);
            let max = min + bucket_size - 1;
            return (min, max);
        }
        offset = offset + buckets_in_range;
        range_start_xp = range_max + 1;
        i = i + 1;
    }
    (0, 0)
}

/// Every experience value lies within the bounds its bucket reports.
pub proof fn lemma_bucket_contains(xp: int)
    ensures
        bucket_low(bucket_of(xp)) <= (if xp < 0 { 0 } else { xp }) <= bucket_high(bucket_of(xp)),
        0 <= bucket_of(xp),
{
}

/// Buckets never decrease as experience grows.
pub proof fn lemma_bucket_monotone(x: int, y: int)
    requires
        x <= y,
    ensures
        bucket_of(x) <= bucket_of(y),
{
}

/// Apart from bucket 50, which holds 50 000 alone but reports bounds up to 50 999, an
/// experience lies in a higher bucket exactly when it exceeds the upper bound of the
/// lower bucket.
pub proof fn lemma_bucket_separation(x: int, y: int)
    requires
        bucket_of(x) != 50,
    ensures
        bucket_of(y) > bucket_of(x) <==> y > bucket_high(bucket_of(x)),
{
}

} // verus!
