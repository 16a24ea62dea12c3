//! Range reads on the ordered maps behind a leaderboard, made with `BTreeMap::range`.
use std::collections::BTreeMap;
use vstd::prelude::*;

verus! {

/// Lexicographic order on `(experience, player id)` pairs, the order of tuples in std.
pub open spec fn pair_lt(a: (i64, i64), b: (i64, i64)) -> bool {
    a.0 < b.0 || (a.0 == b.0 && a.1 < b.1)
}

/// `a` is at or below `b` in the order of `(experience, player id)` pairs.
pub open spec fn pair_le(a: (i64, i64), b: (i64, i64)) -> bool {
    pair_lt(a, b) || a == b
}

/// `BTreeMap::range(lo..=hi)` on a count map: the `(key, count)` entries with keys in
/// `lo..=hi`, each once, in increasing key order. std panics when `lo > hi`.
#[verifier::external_body]
pub(crate) fn count_entries_between(map: &BTreeMap<i64, usize>, lo: i64, hi: i64) -> (entries: Vec<
    (i64, usize),
>)
    requires
        lo <= hi,
    ensures
        forall|i: int|
            0 <= i < entries.len() ==> {
                &&& lo <= #[trigger] entries@[i].0 <= hi
                &&& map@.contains_key(entries@[i].0)
                &&& map@[entries@[i].0] == entries@[i].1
            },
        forall|k: i64|
            lo <= k <= hi && #[trigger] map@.contains_key(k) ==> exists|i: int|
                0 <= i < entries.len() && entries@[i].0 == k,
        forall|i: int, j: int| 0 <= i < j < entries.len() ==> entries@[i].0 < entries@[j].0,
{
    map.range(lo..=hi).map(|(k, v)| (*k, *v)).collect()
}

/// `BTreeMap::range(lo..=hi)` on the ranking set: the `(experience, player id)` keys
/// between `lo` and `hi`, each once, in increasing order. std panics when `lo > hi`.
#[verifier::external_body]
pub(crate) fn rank_keys_between(map: &BTreeMap<(i64, i64), ()>, lo: (i64, i64), hi: (i64, i64)) -> (keys: Vec<
    (i64, i64),
>)
    requires
        pair_le(lo, hi),
    ensures
        forall|i: int|
            0 <= i < keys.len() ==> {
                &&& pair_le(lo, #[trigger] keys@[i])
                &&& pair_le(keys@[i], hi)
                &&& map@.contains_key(keys@[i])
            },
        forall|k: (i64, i64)|
            pair_le(lo, k) && pair_le(k, hi) && #[trigger] map@.contains_key(k) ==> exists|i: int|
                0 <= i < keys.len() && keys@[i] == k,
        forall|i: int, j: int| 0 <= i < j < keys.len() ==> pair_lt(keys@[i], keys@[j]),
{
    map.range(lo..=hi).map(|(k, _)| *k).collect()
}

} // verus!
