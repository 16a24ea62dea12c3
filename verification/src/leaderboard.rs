//! Leaderboards: each keeps the score of every player, the set of `(score, player)`
//! pairs in order, and per-bucket and per-score counters that let a rank be read
//! without walking every player.
use crate::buckets::{
    bucket_bounds, bucket_for, bucket_high, bucket_of, lemma_bucket_contains,
    lemma_bucket_monotone, max_bucket, MAX_RANKED_XP,
};
use crate::ordered_ranges::{count_entries_between, pair_le, pair_lt, rank_keys_between};
use crate::score_map::{
    score_entries, scores_contains, scores_get, scores_insert, scores_new, scores_remove,
};
use crate::tally::{
    entries_sum, entry_keys, lemma_count_le_total, lemma_entries_sum_is_tally, lemma_tally_agree,
    lemma_tally_insert, lemma_tally_remove, lemma_tally_subset, tally, total,
};
use dashmap::DashMap;
use std::collections::BTreeMap;
use vstd::prelude::*;

verus! {

broadcast use vstd::std_specs::btree::group_btree_axioms, vstd::laws_cmp::group_laws_cmp;

/// One row of a leaderboard page.
#[derive(Debug, Clone, Copy, PartialEq, Eq)]
pub struct LeaderboardEntry {
    pub rank: usize,
    pub user_id: i64,
    pub xp: i64,
}

/// How many players a bucket holds, with the experience bounds the bucket reports.
#[derive(Debug, Clone, Copy, PartialEq, Eq)]
pub struct BucketDistribution {
    pub bucket: i64,
    pub min_xp: i64,
    pub max_xp: i64,
    pub count: usize,
}

/// A change to the ordered part of a leaderboard.
pub enum LeaderboardOp {
    Update { user_id: i64, old_xp: i64, new_xp: i64 },
    Remove { user_id: i64, xp: i64 },
}

/// The ordered part of a leaderboard: the `(score, player)` pairs, and the counters per
/// bucket and per score.
pub struct RankView {
    pub ranks: Set<(i64, i64)>,
    pub buckets: Map<i64, usize>,
    pub xps: Map<i64, usize>,
}

/// `m` with the counter at `k` raised by one (starting from zero).
pub open spec fn counted_up(m: Map<i64, usize>, k: i64) -> Map<i64, usize> {
    if m.contains_key(k) {
        m.insert(k, (m[k] + 1) as usize)
    } else {
        m.insert(k, 1)
    }
}

/// `m` with the counter at `k` lowered by one; a counter that would reach zero is dropped,
/// and an absent counter stays absent.
pub open spec fn counted_down(m: Map<i64, usize>, k: i64) -> Map<i64, usize> {
    if m.contains_key(k) {
        if m[k] <= 1 {
            m.remove(k)
        } else {
            m.insert(k, (m[k] - 1) as usize)
        }
    } else {
        m
    }
}

/// The ordered part after `(xp, user_id)` leaves it.
pub open spec fn without_pair(v: RankView, user_id: i64, xp: i64) -> RankView {
    RankView {
        ranks: v.ranks.remove((xp, user_id)),
        buckets: counted_down(v.buckets, bucket_of(xp as int) as i64),
        xps: counted_down(v.xps, xp),
    }
}

/// The ordered part after `(xp, user_id)` joins it.
pub open spec fn with_pair(v: RankView, user_id: i64, xp: i64) -> RankView {
    RankView {
        ranks: v.ranks.insert((xp, user_id)),
        buckets: counted_up(v.buckets, bucket_of(xp as int) as i64),
        xps: counted_up(v.xps, xp),
    }
}

/// The ordered part after one change. An update from score 0 takes nothing out first.
pub open spec fn op_result(v: RankView, op: LeaderboardOp) -> RankView {
    match op {
        LeaderboardOp::Update { user_id, old_xp, new_xp } => {
            let taken_out = if old_xp != 0 {
                without_pair(v, user_id, old_xp)
            } else {
                v
            };
            with_pair(taken_out, user_id, new_xp)
        },
        LeaderboardOp::Remove { user_id, xp } => without_pair(v, user_id, xp),
    }
}

/// The ordered part after a batch of changes, applied first to last.
pub open spec fn ops_result(v: RankView, ops: Seq<LeaderboardOp>) -> RankView
    decreases ops.len(),
{
    if ops.len() == 0 {
        v
    } else {
        op_result(ops_result(v, ops.drop_last()), ops.last())
    }
}

impl RankView {
    /// The number of pairs and both counter totals together fit a `usize`.
    pub open spec fn wf(self) -> bool {
        &&& self.ranks.finite()
        &&& self.buckets.dom().finite()
        &&& self.xps.dom().finite()
        &&& self.size() <= usize::MAX
    }

    /// The number of pairs plus both counter totals.
    pub open spec fn size(self) -> nat {
        self.ranks.len() + total(self.buckets) + total(self.xps)
    }

    /// Every bucket counter belongs to a bucket whose bounds fit an `i64`: the buckets of
    /// scores up to `MAX_RANKED_XP`.
    pub open spec fn buckets_reportable(self) -> bool {
        forall|b: i64| #[trigger] self.buckets.contains_key(b) ==> 0 <= b <= max_bucket()
    }

    /// One more pair can be brought in (one more pair, one more count in each counter
    /// map) without the size leaving a `usize`.
    pub open spec fn has_room(self) -> bool {
        self.size() + 3 <= usize::MAX
    }
}

pub proof fn lemma_bucket_of_range(xp: i64)
    ensures
        0 <= bucket_of(xp as int) <= 18_446_744_073_860,
        xp <= MAX_RANKED_XP ==> bucket_of(xp as int) <= max_bucket(),
{
    lemma_bucket_contains(xp as int);
    lemma_bucket_monotone(xp as int, i64::MAX as int);
    if xp <= MAX_RANKED_XP {
        lemma_bucket_monotone(xp as int, MAX_RANKED_XP as int);
    }
}

pub proof fn lemma_counted_up_total(m: Map<i64, usize>, k: i64)
    requires
        m.dom().finite(),
        total(m) < usize::MAX,
    ensures
        counted_up(m, k).dom().finite(),
        total(counted_up(m, k)) == total(m) + 1,
{
    let up = counted_up(m, k);
    if m.contains_key(k) {
        lemma_count_le_total(m, k);
        assert(up.dom() =~= m.dom());
        lemma_tally_remove(m, m.dom(), k);
        lemma_tally_remove(up, up.dom(), k);
        lemma_tally_agree(m, up, m.dom().remove(k));
    } else {
        assert(up.dom() =~= m.dom().insert(k));
        lemma_tally_insert(up, m.dom(), k);
        lemma_tally_agree(m, up, m.dom());
    }
}

pub proof fn lemma_counted_down_total(m: Map<i64, usize>, k: i64)
    requires
        m.dom().finite(),
    ensures
        counted_down(m, k).dom().finite(),
        total(counted_down(m, k)) == total(m) - (if m.contains_key(k) && m[k] >= 1 {
            1int
        } else {
            0int
        }),
{
    let down = counted_down(m, k);
    if m.contains_key(k) {
        lemma_tally_remove(m, m.dom(), k);
        if m[k] <= 1 {
            assert(down.dom() =~= m.dom().remove(k));
            lemma_tally_agree(m, down, m.dom().remove(k));
        } else {
            assert(down.dom() =~= m.dom());
            lemma_tally_remove(down, down.dom(), k);
            lemma_tally_agree(m, down, m.dom().remove(k));
        }
    }
}

/// Raises the counter at `key` by one.
fn increment(map: &mut BTreeMap<i64, usize>, key: i64)
    requires
        old(map)@.dom().finite(),
        total(old(map)@) < usize::MAX,
    ensures
        final(map)@ == counted_up(old(map)@, key),
{
    let current = match map.get(&key) {
        Some(count) => *count,
        None => 0,
    };
    proof {
        if old(map)@.contains_key(key) {
            lemma_count_le_total(old(map)@, key);
        }
    }
    map.insert(key, current + 1);
}

/// Lowers the counter at `key` by one, dropping it when it would reach zero; tells
/// whether a count was taken away.
fn decrement_btreemap(map: &mut BTreeMap<i64, usize>, key: i64) -> (lowered: bool)
    ensures
        final(map)@ == counted_down(old(map)@, key),
        lowered == (old(map)@.contains_key(key) && old(map)@[key] >= 1),
{
    if let Some(count) = map.get(&key) {
        let count = *count;
        if count <= 1 {
            map.remove(&key);
        } else {
            map.insert(key, count - 1);
        }
        count >= 1
    } else {
        false
    }
}

/// The score a player has, 0 when none.
pub open spec fn score_of(scores: Map<i64, i64>, user_id: i64) -> i64 {
    if scores.contains_key(user_id) {
        scores[user_id]
    } else {
        0
    }
}

/// The ordered part after setting the score of `user_id` to `new_xp`.
pub open spec fn updated_ranking(scores: Map<i64, i64>, v: RankView, user_id: i64, new_xp: i64) -> RankView {
    let old_xp = score_of(scores, user_id);
    if old_xp == new_xp {
        v
    } else {
        op_result(v, LeaderboardOp::Update { user_id, old_xp, new_xp })
    }
}

/// The ordered part after dropping the score of `user_id`.
pub open spec fn removed_ranking(scores: Map<i64, i64>, v: RankView, user_id: i64) -> RankView {
    if scores.contains_key(user_id) {
        op_result(v, LeaderboardOp::Remove { user_id, xp: scores[user_id] })
    } else {
        v
    }
}

/// Bucket counters above bucket `b`.
pub open spec fn higher_bucket_keys(v: RankView, b: int) -> Set<i64> {
    v.buckets.dom().filter(|k: i64| k > b)
}

/// Score counters strictly above `lo` and at most `hi`.
pub open spec fn score_keys_between(v: RankView, lo: int, hi: int) -> Set<i64> {
    v.xps.dom().filter(|k: i64| lo < k <= hi)
}

/// Pairs with score `xp` and a player id of at least `user_id`.
pub open spec fn tie_pairs(v: RankView, xp: i64, user_id: i64) -> Set<(i64, i64)> {
    v.ranks.filter(|r: (i64, i64)| r.0 == xp && r.1 >= user_id)
}

/// The rank a leaderboard reports for `user_id` with score `xp`: the counters of all
/// higher buckets, the counters of the higher scores up to the upper bound of its own
/// bucket, and the pairs with the same score and a player id at least `user_id`.
pub open spec fn rank_formula(v: RankView, xp: i64, user_id: i64) -> nat {
    let b = bucket_of(xp as int);
    let hi = bucket_high(b);
    tally(v.buckets, higher_bucket_keys(v, b)) + (if xp >= hi {
        0
    } else {
        tally(v.xps, score_keys_between(v, xp as int, hi))
    }) + tie_pairs(v, xp, user_id).len()
}

/// Number of pairs at or above `e` in the order of `(score, player id)` pairs.
pub open spec fn count_at_or_above(ranks: Set<(i64, i64)>, e: (i64, i64)) -> nat {
    at_or_above(ranks, e).len()
}

/// The pairs at or above `e` in the order of `(score, player id)` pairs.
pub open spec fn at_or_above(ranks: Set<(i64, i64)>, e: (i64, i64)) -> Set<(i64, i64)> {
    ranks.filter(|r: (i64, i64)| pair_le(e, r))
}

/// The rows of a page of the leaderboard: `entries` lists, from rank `offset + 1` on,
/// at most `limit` pairs, highest first.
pub open spec fn is_page(ranks: Set<(i64, i64)>, offset: int, limit: int, entries: Seq<LeaderboardEntry>) -> bool {
    &&& entries.len() == (if offset < ranks.len() {
        if limit < ranks.len() - offset {
            limit
        } else {
            ranks.len() - offset
        }
    } else {
        0
    })
    &&& forall|i: int|
        0 <= i < entries.len() ==> {
            &&& (#[trigger] entries[i]).rank == offset + i + 1
            &&& ranks.contains((entries[i].xp, entries[i].user_id))
            &&& count_at_or_above(ranks, (entries[i].xp, entries[i].user_id)) == offset + i + 1
        }
}

/// The rows of the bucket distribution: one per bucket counter, in increasing bucket
/// order, with the bounds the bucket reports.
pub open spec fn is_distribution(buckets: Map<i64, usize>, rows: Seq<BucketDistribution>) -> bool {
    &&& forall|i: int|
        0 <= i < rows.len() ==> {
            &&& buckets.contains_key((#[trigger] rows[i]).bucket)
            &&& rows[i].count == buckets[rows[i].bucket]
            &&& rows[i].min_xp == crate::buckets::bucket_low(rows[i].bucket as int)
            &&& rows[i].max_xp == bucket_high(rows[i].bucket as int)
        }
    &&& forall|b: i64| #[trigger] buckets.contains_key(b) ==> exists|i: int|
        0 <= i < rows.len() && rows[i].bucket == b
    &&& forall|i: int, j: int| 0 <= i < j < rows.len() ==> rows[i].bucket < rows[j].bucket
}

pub proof fn lemma_entries_sum_prefix(s: Seq<(i64, usize)>, i: int)
    requires
        0 <= i < s.len(),
    ensures
        entries_sum(s.take(i + 1)) == entries_sum(s.take(i)) + s[i].1,
{
    assert(s.take(i + 1).drop_last() =~= s.take(i));
}

pub proof fn lemma_entries_sum_prefix_le(s: Seq<(i64, usize)>, i: int)
    requires
        0 <= i <= s.len(),
    ensures
        entries_sum(s.take(i)) <= entries_sum(s),
    decreases s.len(),
{
    if i == s.len() {
        assert(s.take(i) =~= s);
    } else {
        lemma_entries_sum_prefix_le(s.drop_last(), i);
        assert(s.drop_last().take(i) =~= s.take(i));
    }
}

/// Adds up the counters of a list of entries.
fn sum_entries(entries: &Vec<(i64, usize)>) -> (sum: usize)
    requires
        entries_sum(entries@) <= usize::MAX,
    ensures
        sum == entries_sum(entries@),
{
    let mut sum: usize = 0;
    let mut i: usize = 0;
    while i < entries.len()
        invariant
            i <= entries.len(),
            sum == entries_sum(entries@.take(i as int)),
            entries_sum(entries@) <= usize::MAX,
        decreases entries.len() - i,
    {
        proof {
            lemma_entries_sum_prefix(entries@, i as int);
            lemma_entries_sum_prefix_le(entries@, i + 1);
        }
        sum = sum + entries[i].1;
        i = i + 1;
    }
    assert(entries@.take(entries.len() as int) =~= entries@);
    sum
}

/// In a strictly increasing list of all the pairs of a set, the pairs at or above
/// position `p` are the last `len - p` of the list.
pub proof fn lemma_position_counts(ranks: Set<(i64, i64)>, keys: Seq<(i64, i64)>, p: int)
    requires
        0 <= p < keys.len(),
        forall|i: int, j: int| 0 <= i < j < keys.len() ==> pair_lt(keys[i], keys[j]),
        keys.to_set() == ranks,
    ensures
        count_at_or_above(ranks, keys[p]) == keys.len() - p,
{
    let tail = keys.subrange(p, keys.len() as int);
    assert(at_or_above(ranks, keys[p]) =~= tail.to_set()) by {
        assert forall|r: (i64, i64)| #[trigger] at_or_above(ranks, keys[p]).contains(r)
            implies tail.to_set().contains(r) by {
            assert(keys.to_set().contains(r));
            let q = choose|q: int| 0 <= q < keys.len() && keys[q] == r;
            if q < p {
                assert(pair_lt(keys[q], keys[p]));
            }
            assert(tail[q - p] == r);
        }
        assert forall|r: (i64, i64)| tail.to_set().contains(r) implies #[trigger] at_or_above(
            ranks,
            keys[p],
        ).contains(r) by {
            let q = choose|q: int| 0 <= q < tail.len() && tail[q] == r;
            assert(keys[p + q] == r);
            assert(keys.to_set().contains(keys[p + q]));
            if q > 0 {
                assert(pair_lt(keys[p], keys[p + q]));
            }
        }
    }
    assert(tail.no_duplicates()) by {
        assert forall|i: int, j: int| 0 <= i < tail.len() && 0 <= j < tail.len() && i != j implies tail[i]
            != tail[j] by {
            if i < j {
                assert(pair_lt(keys[p + i], keys[p + j]));
            } else {
                assert(pair_lt(keys[p + j], keys[p + i]));
            }
        }
    }
    tail.unique_seq_to_set();
}

/// A rank never exceeds the size of the ordered part.
pub proof fn lemma_rank_formula_within_size(v: RankView, xp: i64, user_id: i64)
    requires
        v.wf(),
    ensures
        rank_formula(v, xp, user_id) <= v.size(),
{
    let b = bucket_of(xp as int);
    let hi = bucket_high(b);
    lemma_tally_subset(v.buckets, higher_bucket_keys(v, b), v.buckets.dom());
    lemma_tally_subset(v.xps, score_keys_between(v, xp as int, hi), v.xps.dom());
    vstd::set_lib::lemma_len_subset(tie_pairs(v, xp, user_id), v.ranks);
}

/// The ordered part of a leaderboard, which a single writer changes one batch at a time.
pub struct LeaderboardInner {
    sorted_ranks: BTreeMap<(i64, i64), ()>,
    bucket_counts: BTreeMap<i64, usize>,
    xp_counts: BTreeMap<i64, usize>,
    bucket_total: usize,
    xp_total: usize,
}

impl View for LeaderboardInner {
    type V = RankView;

    closed spec fn view(&self) -> RankView {
        RankView {
            ranks: self.sorted_ranks@.dom(),
            buckets: self.bucket_counts@,
            xps: self.xp_counts@,
        }
    }
}

impl LeaderboardInner {
    /// The running totals match the counter maps, and the ordered part is well formed.
    pub closed spec fn inv(&self) -> bool {
        &&& self@.wf()
        &&& self.bucket_total == total(self@.buckets)
        &&& self.xp_total == total(self@.xps)
    }

    /// Nothing ranked yet.
    pub fn new() -> (inner: Self)
        ensures
            inner@.ranks == Set::<(i64, i64)>::empty(),
            inner@.buckets == Map::<i64, usize>::empty(),
            inner@.xps == Map::<i64, usize>::empty(),
            inner.inv(),
    {
        let inner = LeaderboardInner {
            sorted_ranks: BTreeMap::new(),
            bucket_counts: BTreeMap::new(),
            xp_counts: BTreeMap::new(),
            bucket_total: 0,
            xp_total: 0,
        };
        proof {
            assert(inner@.ranks =~= Set::<(i64, i64)>::empty());
            assert(inner.bucket_counts@.dom() =~= Set::<i64>::empty());
            assert(inner.xp_counts@.dom() =~= Set::<i64>::empty());
            crate::tally::lemma_tally_empty(inner.bucket_counts@);
            crate::tally::lemma_tally_empty(inner.xp_counts@);
        }
        inner
    }

    proof fn lemma_ranks_fit(&self)
        ensures
            self@.ranks.finite(),
            self@.ranks.len() <= usize::MAX,
            self@.buckets.dom().finite(),
            self@.xps.dom().finite(),
    {
        let n = vstd::std_specs::btree::spec_btree_map_len(&self.sorted_ranks);
        assert(self.sorted_ranks@.len() == self.sorted_ranks@.dom().len());
    }

    /// Takes `(xp, user_id)` out of the ordered part.
    fn take_out(&mut self, user_id: i64, xp: i64)
        requires
            old(self).inv(),
        ensures
            final(self)@ == without_pair(old(self)@, user_id, xp),
            final(self).inv(),
            final(self)@.size() <= old(self)@.size(),
    {
        proof {
            self.lemma_ranks_fit();
        }
        self.sorted_ranks.remove(&(xp, user_id));
        let bucket = bucket_for(xp);
        let lowered_bucket = decrement_btreemap(&mut self.bucket_counts, bucket);
        let lowered_xp = decrement_btreemap(&mut self.xp_counts, xp);
        proof {
            lemma_counted_down_total(old(self)@.buckets, bucket);
            lemma_counted_down_total(old(self)@.xps, xp);
            self.lemma_ranks_fit();
            assert(self@ == without_pair(old(self)@, user_id, xp));
            if old(self)@.ranks.contains((xp, user_id)) {
                assert(self@.ranks == old(self)@.ranks.remove((xp, user_id)));
            } else {
                assert(self@.ranks =~= old(self)@.ranks);
            }
        }
        if lowered_bucket {
            self.bucket_total = self.bucket_total - 1;
        }
        if lowered_xp {
            self.xp_total = self.xp_total - 1;
        }
    }

    /// Brings `(xp, user_id)` into the ordered part.
    fn bring_in(&mut self, user_id: i64, xp: i64)
        requires
            old(self).inv(),
            old(self)@.has_room(),
        ensures
            final(self)@ == with_pair(old(self)@, user_id, xp),
            final(self).inv(),
            final(self)@.size() <= old(self)@.size() + 3,
    {
        proof {
            self.lemma_ranks_fit();
        }
        self.sorted_ranks.insert((xp, user_id), ());
        let bucket = bucket_for(xp);
        increment(&mut self.bucket_counts, bucket);
        increment(&mut self.xp_counts, xp);
        proof {
            lemma_counted_up_total(old(self)@.buckets, bucket);
            lemma_counted_up_total(old(self)@.xps, xp);
            self.lemma_ranks_fit();
            assert(self@ == with_pair(old(self)@, user_id, xp));
            if old(self)@.ranks.contains((xp, user_id)) {
                assert(self@.ranks =~= old(self)@.ranks);
            } else {
                assert(self@.ranks == old(self)@.ranks.insert((xp, user_id)));
            }
        }
        self.bucket_total = self.bucket_total + 1;
        self.xp_total = self.xp_total + 1;
    }

    /// Whether one more pair can be brought in (see `RankView::has_room`).
    pub fn has_room(&self) -> (room: bool)
        requires
            self.inv(),
        ensures
            room == self@.has_room(),
    {
        proof {
            self.lemma_ranks_fit();
        }
        let pairs = self.sorted_ranks.len();
        let counted = self.bucket_total + self.xp_total;
        assert(pairs == self@.ranks.len());
        if counted <= usize::MAX - 3 && pairs <= usize::MAX - 3 - counted {
            true
        } else {
            false
        }
    }

    /// Applies one change; this is what the background writer does for each message.
    pub fn apply(&mut self, op: LeaderboardOp)
        requires
            old(self).inv(),
            old(self)@.has_room(),
        ensures
            final(self)@ == op_result(old(self)@, op),
            final(self).inv(),
            final(self)@.size() <= old(self)@.size() + 3,
    {
        match op {
            LeaderboardOp::Update { user_id, old_xp, new_xp } => {
                if old_xp != 0 {
                    self.take_out(user_id, old_xp);
                }
                self.bring_in(user_id, new_xp);
            },
            LeaderboardOp::Remove { user_id, xp } => {
                self.take_out(user_id, xp);
            },
        }
    }

    /// Applies a batch of changes in order, under one write.
    pub fn apply_batch(&mut self, ops: Vec<LeaderboardOp>)
        requires
            old(self).inv(),
            old(self)@.size() + 3 * ops.len() <= usize::MAX,
        ensures
            final(self)@ == ops_result(old(self)@, ops@),
            final(self).inv(),
    {
        let mut i: usize = 0;
        while i < ops.len()
            invariant
                i <= ops.len(),
                self.inv(),
                self@ == ops_result(old(self)@, ops@.take(i as int)),
                self@.size() <= old(self)@.size() + 3 * i,
                old(self)@.size() + 3 * ops.len() <= usize::MAX,
            decreases ops.len() - i,
        {
            let op = match &ops[i] {
                LeaderboardOp::Update { user_id, old_xp, new_xp } => LeaderboardOp::Update {
                    user_id: *user_id,
                    old_xp: *old_xp,
                    new_xp: *new_xp,
                },
                LeaderboardOp::Remove { user_id, xp } => LeaderboardOp::Remove {
                    user_id: *user_id,
                    xp: *xp,
                },
            };
            assert(op == ops@[i as int]);
            self.apply(op);
            assert(ops@.take(i + 1).drop_last() =~= ops@.take(i as int));
            i = i + 1;
        }
        assert(ops@.take(ops.len() as int) =~= ops@);
    }

    /// The rank the leaderboard reports for `user_id` with score `xp`.
    pub fn rank_of(&self, xp: i64, user_id: i64) -> (rank: usize)
        requires
            self.inv(),
            xp <= MAX_RANKED_XP,
        ensures
            rank == rank_formula(self@, xp, user_id),
    {
        let ghost v = self@;
        proof {
            self.lemma_ranks_fit();
            lemma_bucket_of_range(xp);
            lemma_rank_formula_within_size(v, xp, user_id);
        }
        let bucket = bucket_for(xp);
        let (_, bucket_max) = bucket_bounds(bucket);

        let higher = count_entries_between(&self.bucket_counts, bucket + 1, i64::MAX);
        proof {
            lemma_entries_sum_is_tally(v.buckets, higher@);
            assert(entry_keys(higher@) =~= higher_bucket_keys(v, bucket as int)) by {
                assert forall|k: i64| higher_bucket_keys(v, bucket as int).contains(k) implies entry_keys(
                    higher@,
                ).contains(k) by {
                    assert(v.buckets.contains_key(k));
                }
            }
            lemma_tally_subset(v.buckets, higher_bucket_keys(v, bucket as int), v.buckets.dom());
        }
        let higher_count = sum_entries(&higher);

        let above_same_bucket_higher_xp: usize = if xp >= bucket_max {
            0
        } else {
            let above = count_entries_between(&self.xp_counts, xp + 1, bucket_max);
            proof {
                lemma_entries_sum_is_tally(v.xps, above@);
                assert(entry_keys(above@) =~= score_keys_between(v, xp as int, bucket_max as int)) by {
                    assert forall|k: i64| score_keys_between(v, xp as int, bucket_max as int).contains(k)
                        implies entry_keys(above@).contains(k) by {
                        assert(v.xps.contains_key(k));
                    }
                }
                lemma_tally_subset(v.xps, score_keys_between(v, xp as int, bucket_max as int), v.xps.dom());
            }
            sum_entries(&above)
        };

        let ties = rank_keys_between(&self.sorted_ranks, (xp, user_id), (xp, i64::MAX));
        proof {
            assert(ties@.to_set() =~= tie_pairs(v, xp, user_id)) by {
                assert forall|r: (i64, i64)| #[trigger] tie_pairs(v, xp, user_id).contains(r) implies ties@.to_set().contains(r) by {
                    assert(self.sorted_ranks@.contains_key(r));
                }
            }
            assert(ties@.no_duplicates()) by {
                assert forall|i: int, j: int| 0 <= i < ties.len() && 0 <= j < ties.len() && i != j implies ties@[i] != ties@[j] by {
                    if i < j {
                        assert(pair_lt(ties@[i], ties@[j]));
                    } else {
                        assert(pair_lt(ties@[j], ties@[i]));
                    }
                }
            }
            ties@.unique_seq_to_set();
        }
        let tie_rank = ties.len();
        higher_count + above_same_bucket_higher_xp + tie_rank
    }

    /// One page of the leaderboard, highest first, from rank `offset + 1` on.
    pub fn range(&self, offset: usize, limit: usize) -> (entries: Vec<LeaderboardEntry>)
        requires
            self.inv(),
        ensures
            is_page(self@.ranks, offset as int, limit as int, entries@),
    {
        let ghost v = self@;
        proof {
            self.lemma_ranks_fit();
        }
        let keys = rank_keys_between(&self.sorted_ranks, (i64::MIN, i64::MIN), (i64::MAX, i64::MAX));
        proof {
            assert(keys@.to_set() =~= v.ranks) by {
                assert forall|r: (i64, i64)| v.ranks.contains(r) implies keys@.to_set().contains(r) by {
                    assert(self.sorted_ranks@.contains_key(r));
                }
            }
            assert(keys@.no_duplicates()) by {
                assert forall|i: int, j: int| 0 <= i < keys.len() && 0 <= j < keys.len() && i != j implies keys@[i] != keys@[j] by {
                    if i < j {
                        assert(pair_lt(keys@[i], keys@[j]));
                    } else {
                        assert(pair_lt(keys@[j], keys@[i]));
                    }
                }
            }
            keys@.unique_seq_to_set();
        }
        let n = keys.len();
        let mut entries: Vec<LeaderboardEntry> = Vec::new();
        if offset < n {
            let available = n - offset;
            let count = if limit < available {
                limit
            } else {
                available
            };
            let mut i: usize = 0;
            while i < count
                invariant
                    i <= count,
                    count <= n - offset,
                    offset < n,
                    n == keys.len(),
                    n == v.ranks.len(),
                    keys@.to_set() == v.ranks,
                    forall|a: int, b: int| 0 <= a < b < keys.len() ==> pair_lt(keys@[a], keys@[b]),
                    entries.len() == i,
                    forall|j: int|
                        0 <= j < i ==> {
                            &&& (#[trigger] entries@[j]).rank == offset + j + 1
                            &&& v.ranks.contains((entries@[j].xp, entries@[j].user_id))
                            &&& count_at_or_above(v.ranks, (entries@[j].xp, entries@[j].user_id)) == offset + j
                                + 1
                        },
                decreases count - i,
            {
                let position = n - 1 - offset - i;
                let (xp, user_id) = keys[position];
                proof {
                    lemma_position_counts(v.ranks, keys@, position as int);
                    assert(keys@.to_set().contains(keys@[position as int]));
                }
                entries.push(LeaderboardEntry { rank: offset + i + 1, user_id, xp });
                i = i + 1;
            }
        }
        entries
    }

    /// Players per bucket, in increasing bucket order.
    pub fn bucket_distribution(&self) -> (rows: Vec<BucketDistribution>)
        requires
            self.inv(),
            self@.buckets_reportable(),
        ensures
            is_distribution(self@.buckets, rows@),
    {
        let ghost v = self@;
        let counts = count_entries_between(&self.bucket_counts, i64::MIN, i64::MAX);
        let mut rows: Vec<BucketDistribution> = Vec::new();
        let mut i: usize = 0;
        while i < counts.len()
            invariant
                i <= counts.len(),
                v.wf(),
                v.buckets_reportable(),
                rows.len() == i,
                forall|j: int|
                    0 <= j < counts.len() ==> {
                        &&& v.buckets.contains_key((#[trigger] counts@[j]).0)
                        &&& v.buckets[counts@[j].0] == counts@[j].1
                    },
                forall|a: int, b: int| 0 <= a < b < counts.len() ==> counts@[a].0 < counts@[b].0,
                forall|j: int|
                    0 <= j < i ==> {
                        &&& (#[trigger] rows@[j]).bucket == counts@[j].0
                        &&& rows@[j].count == counts@[j].1
                        &&& rows@[j].min_xp == crate::buckets::bucket_low(rows@[j].bucket as int)
                        &&& rows@[j].max_xp == bucket_high(rows@[j].bucket as int)
                    },
            decreases counts.len() - i,
        {
            let (bucket, count) = counts[i];
            assert(v.buckets.contains_key(counts@[i as int].0));
            let (min_xp, max_xp) = bucket_bounds(bucket);
            rows.push(BucketDistribution { bucket, min_xp, max_xp, count });
            i = i + 1;
        }
        proof {
            assert forall|b: i64| #[trigger] v.buckets.contains_key(b) implies exists|j: int|
                0 <= j < rows.len() && rows@[j].bucket == b by {
                let j = choose|j: int| 0 <= j < counts.len() && counts@[j].0 == b;
                assert(rows@[j].bucket == b);
            }
        }
        rows
    }
}


/// A leaderboard: the score of each player, and the ordered part that ranks them.
///
/// Changes to the ordered part are applied as they are made; the ordered part answers
/// rank, page and distribution reads.
pub struct Leaderboard {
    scores: DashMap<i64, i64>,
    data: LeaderboardInner,
}

impl Leaderboard {
    /// Score of each player.
    pub closed spec fn scores_view(&self) -> Map<i64, i64> {
        score_entries(self.scores)
    }

    /// The ordered part.
    pub closed spec fn ranking(&self) -> RankView {
        self.data@
    }

    /// The ordered part is well formed, and its running totals match its counters.
    pub open spec fn wf(&self) -> bool {
        &&& self.ranking().wf()
        &&& self.inner_ok()
    }

    /// The running totals of the ordered part match its counters.
    pub closed spec fn inner_ok(&self) -> bool {
        self.data.inv()
    }

    /// Whether one more score change fits (see `RankView::has_room`).
    pub fn has_room(&self) -> (room: bool)
        requires
            self.wf(),
        ensures
            room == self.ranking().has_room(),
    {
        self.data.has_room()
    }

    /// An empty leaderboard.
    pub fn new() -> (board: Self)
        ensures
            board.wf(),
            board.scores_view() == Map::<i64, i64>::empty(),
            board.ranking().ranks == Set::<(i64, i64)>::empty(),
            board.ranking().buckets == Map::<i64, usize>::empty(),
            board.ranking().xps == Map::<i64, usize>::empty(),
            total(board.ranking().buckets) == 0,
            total(board.ranking().xps) == 0,
    {
        let board = Leaderboard { scores: scores_new(), data: LeaderboardInner::new() };
        assert(board.scores_view() =~= Map::<i64, i64>::empty());
        proof {
            assert(board.ranking().buckets.dom() =~= Set::<i64>::empty());
            assert(board.ranking().xps.dom() =~= Set::<i64>::empty());
            crate::tally::lemma_tally_empty(board.ranking().buckets);
            crate::tally::lemma_tally_empty(board.ranking().xps);
        }
        board
    }

    /// Sets the score of `user_id`. When the score changes, the ordered part takes out
    /// the previous pair (unless the previous score was 0) and brings in the new one;
    /// only then must it have room.
    pub fn update(&mut self, user_id: i64, new_xp: i64)
        requires
            old(self).wf(),
            score_of(old(self).scores_view(), user_id) == new_xp || old(self).ranking().has_room(),
        ensures
            final(self).wf(),
            final(self).scores_view() == old(self).scores_view().insert(user_id, new_xp),
            final(self).ranking() == updated_ranking(
                old(self).scores_view(),
                old(self).ranking(),
                user_id,
                new_xp,
            ),
    {
        let previous = scores_insert(&mut self.scores, user_id, new_xp);
        let old_xp = match previous {
            Some(xp) => xp,
            None => 0,
        };
        if old_xp == new_xp {
            return;
        }
        self.data.apply(LeaderboardOp::Update { user_id, old_xp, new_xp });
    }

    /// Whether `user_id` has a score.
    pub fn has(&self, user_id: &i64) -> (present: bool)
        ensures
            present == self.scores_view().contains_key(*user_id),
    {
        scores_contains(&self.scores, *user_id)
    }

    /// The score of `user_id`, if any.
    pub fn get_value(&self, user_id: &i64) -> (score: Option<i64>)
        ensures
            score == (if self.scores_view().contains_key(*user_id) {
                Some(self.scores_view()[*user_id])
            } else {
                None::<i64>
            }),
    {
        scores_get(&self.scores, *user_id)
    }

    /// The rank of `user_id`: `None` when the player has no score, otherwise the rank the
    /// ordered part reports for the player's score.
    pub fn get_rank(&self, user_id: i64) -> (rank: Option<usize>)
        requires
            self.wf(),
            self.scores_view().contains_key(user_id) ==> self.scores_view()[user_id] <= MAX_RANKED_XP,
        ensures
            rank == (if self.scores_view().contains_key(user_id) {
                Some(rank_formula(self.ranking(), self.scores_view()[user_id], user_id) as usize)
            } else {
                None::<usize>
            }),
    {
        let xp = match scores_get(&self.scores, user_id) {
            Some(xp) => xp,
            None => {
                return None;
            },
        };
        Some(self.data.rank_of(xp, user_id))
    }

    /// Drops the score of `user_id`, and its pair from the ordered part.
    pub fn remove(&mut self, user_id: i64)
        requires
            old(self).wf(),
        ensures
            final(self).wf(),
            final(self).scores_view() == old(self).scores_view().remove(user_id),
            final(self).ranking() == removed_ranking(old(self).scores_view(), old(self).ranking(), user_id),
    {
        if let Some(xp) = scores_remove(&mut self.scores, user_id) {
            self.data.take_out(user_id, xp);
        }
    }

    /// One page of the leaderboard, highest first, from rank `offset + 1` on.
    pub fn get_range(&self, offset: usize, limit: usize) -> (entries: Vec<LeaderboardEntry>)
        requires
            self.wf(),
        ensures
            is_page(self.ranking().ranks, offset as int, limit as int, entries@),
    {
        self.data.range(offset, limit)
    }

    /// Players per bucket, in increasing bucket order.
    pub fn bucket_distribution(&self) -> (rows: Vec<BucketDistribution>)
        requires
            self.wf(),
            self.ranking().buckets_reportable(),
        ensures
            is_distribution(self.ranking().buckets, rows@),
    {
        self.data.bucket_distribution()
    }
}

impl Default for Leaderboard {
    fn default() -> (board: Self)
        ensures
            board.wf(),
            board.scores_view() == Map::<i64, i64>::empty(),
            board.ranking().ranks == Set::<(i64, i64)>::empty(),
    {
        Leaderboard::new()
    }
}

} // verus!
