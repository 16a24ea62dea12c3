//! What holds of a leaderboard across its operations.
//!
//! A leaderboard is *consistent* when its ordered part holds exactly the pair
//! `(score, player)` of every player with a non-zero score, and its bucket and score
//! counters count those pairs. Updates to a non-zero score and removals of players whose
//! score is not zero keep it consistent; on a consistent leaderboard the rank of a player
//! is the number of pairs at or above the player's pair, except for the score 50 000,
//! whose bucket reports bounds reaching into the next bucket.
use crate::buckets::{
    bucket_high, bucket_of, lemma_bucket_contains, lemma_bucket_separation, max_bucket,
    MAX_RANKED_XP,
};
use crate::leaderboard::{
    LeaderboardEntry, at_or_above, count_at_or_above, counted_down, counted_up, higher_bucket_keys,
    is_page, op_result, rank_formula, removed_ranking, score_of, updated_ranking, score_keys_between, tie_pairs, with_pair, without_pair,
    LeaderboardOp, RankView,
};
use crate::ordered_ranges::{pair_le, pair_lt};
use crate::tally::{
    group_members, lemma_count_le_total, lemma_tally_counts_groups, members_in_groups, total,
};
use vstd::prelude::*;

verus! {

broadcast use vstd::set::group_set_axioms, vstd::set_lib::group_set_lib_default;

/// Bucket key of a `(score, player)` pair.
pub open spec fn bucket_key(r: (i64, i64)) -> i64 {
    bucket_of(r.0 as int) as i64
}

/// Groups pairs by bucket.
pub open spec fn by_bucket() -> spec_fn((i64, i64)) -> i64 {
    |r: (i64, i64)| bucket_key(r)
}

/// Groups pairs by score.
pub open spec fn by_score() -> spec_fn((i64, i64)) -> i64 {
    |r: (i64, i64)| r.0
}

/// The counter of each group is the number of pairs in the group, and there is a
/// counter for every non-empty group and for no other.
pub open spec fn counts_match(
    ranks: Set<(i64, i64)>,
    m: Map<i64, usize>,
    group: spec_fn((i64, i64)) -> i64,
) -> bool {
    &&& forall|k: i64| #[trigger] m.contains_key(k) ==> m[k] == group_members(ranks, group, k).len()
    &&& forall|k: i64| #[trigger] group_members(ranks, group, k).len() > 0 ==> m.contains_key(k)
}

/// The ordered part holds exactly the pairs of the players with a non-zero score, and
/// the counters count them.
pub open spec fn consistent(scores: Map<i64, i64>, v: RankView) -> bool {
    &&& forall|r: (i64, i64)|
        #[trigger] v.ranks.contains(r) <==> (scores.contains_key(r.1) && scores[r.1] == r.0 && r.0
            != 0)
    &&& counts_match(v.ranks, v.buckets, by_bucket())
    &&& counts_match(v.ranks, v.xps, by_score())
}

proof fn lemma_member_of_group(ranks: Set<(i64, i64)>, group: spec_fn((i64, i64)) -> i64, r: (i64, i64))
    requires
        ranks.finite(),
        ranks.contains(r),
    ensures
        group_members(ranks, group, group(r)).len() > 0,
{
    let g = group_members(ranks, group, group(r));
    assert(g.subset_of(ranks));
    vstd::set_lib::lemma_set_subset_finite(ranks, g);
    assert(g.contains(r));
    assert(g.remove(r).len() + 1 == g.len());
}

proof fn lemma_bucket_key(r: (i64, i64))
    ensures
        bucket_key(r) as int == bucket_of(r.0 as int),
{
    crate::leaderboard::lemma_bucket_of_range(r.0);
}

proof fn lemma_group_remove(ranks: Set<(i64, i64)>, group: spec_fn((i64, i64)) -> i64, e: (i64, i64), k: i64)
    requires
        ranks.finite(),
        ranks.contains(e),
    ensures
        group_members(ranks.remove(e), group, k) == (if group(e) == k {
            group_members(ranks, group, k).remove(e)
        } else {
            group_members(ranks, group, k)
        }),
        group(e) == k ==> group_members(ranks.remove(e), group, k).len() + 1 == group_members(
            ranks,
            group,
            k,
        ).len(),
{
    assert(group_members(ranks.remove(e), group, k) =~= (if group(e) == k {
        group_members(ranks, group, k).remove(e)
    } else {
        group_members(ranks, group, k)
    }));
}

proof fn lemma_group_insert(ranks: Set<(i64, i64)>, group: spec_fn((i64, i64)) -> i64, e: (i64, i64), k: i64)
    requires
        ranks.finite(),
        !ranks.contains(e),
    ensures
        group_members(ranks.insert(e), group, k) == (if group(e) == k {
            group_members(ranks, group, k).insert(e)
        } else {
            group_members(ranks, group, k)
        }),
        group(e) == k ==> group_members(ranks.insert(e), group, k).len() == group_members(
            ranks,
            group,
            k,
        ).len() + 1,
{
    assert(group_members(ranks.insert(e), group, k) =~= (if group(e) == k {
        group_members(ranks, group, k).insert(e)
    } else {
        group_members(ranks, group, k)
    }));
}

/// Taking a pair out and lowering its group's counter keeps the counters matching.
proof fn lemma_counts_after_remove(
    ranks: Set<(i64, i64)>,
    m: Map<i64, usize>,
    group: spec_fn((i64, i64)) -> i64,
    e: (i64, i64),
)
    requires
        ranks.finite(),
        ranks.contains(e),
        counts_match(ranks, m, group),
    ensures
        counts_match(ranks.remove(e), counted_down(m, group(e)), group),
{
    let g = group(e);
    lemma_group_remove(ranks, group, e, g);
    assert(group_members(ranks, group, g).contains(e));
    assert(group_members(ranks, group, g).len() > 0);
    let down = counted_down(m, g);
    assert forall|k: i64| #[trigger] down.contains_key(k) implies down[k] == group_members(
        ranks.remove(e),
        group,
        k,
    ).len() by {
        lemma_group_remove(ranks, group, e, k);
    }
    assert forall|k: i64| #[trigger] group_members(ranks.remove(e), group, k).len() > 0 implies down.contains_key(
        k,
    ) by {
        lemma_group_remove(ranks, group, e, k);
        if k != g {
            assert(group_members(ranks, group, k).len() > 0);
        }
    }
}

/// Bringing a pair in and raising its group's counter keeps the counters matching.
proof fn lemma_counts_after_insert(
    ranks: Set<(i64, i64)>,
    m: Map<i64, usize>,
    group: spec_fn((i64, i64)) -> i64,
    e: (i64, i64),
)
    requires
        ranks.finite(),
        !ranks.contains(e),
        counts_match(ranks, m, group),
        m.contains_key(group(e)) ==> m[group(e)] < usize::MAX,
    ensures
        counts_match(ranks.insert(e), counted_up(m, group(e)), group),
{
    let g = group(e);
    lemma_group_insert(ranks, group, e, g);
    let up = counted_up(m, g);
    if !m.contains_key(g) {
        assert(!(group_members(ranks, group, g).len() > 0));
    }
    assert forall|k: i64| #[trigger] up.contains_key(k) implies up[k] == group_members(
        ranks.insert(e),
        group,
        k,
    ).len() by {
        lemma_group_insert(ranks, group, e, k);
    }
    assert forall|k: i64| #[trigger] group_members(ranks.insert(e), group, k).len() > 0 implies up.contains_key(
        k,
    ) by {
        lemma_group_insert(ranks, group, e, k);
        if k != g {
            assert(group_members(ranks, group, k).len() > 0);
        }
    }
}

proof fn lemma_without_pair_consistent_counts(v: RankView, user_id: i64, xp: i64)
    requires
        v.wf(),
        v.ranks.contains((xp, user_id)),
        counts_match(v.ranks, v.buckets, by_bucket()),
        counts_match(v.ranks, v.xps, by_score()),
    ensures
        counts_match(without_pair(v, user_id, xp).ranks, without_pair(v, user_id, xp).buckets, by_bucket()),
        counts_match(without_pair(v, user_id, xp).ranks, without_pair(v, user_id, xp).xps, by_score()),
        without_pair(v, user_id, xp).wf(),
{
    let e = (xp, user_id);
    assert(by_bucket()(e) == bucket_of(xp as int) as i64);
    assert(by_score()(e) == xp);
    lemma_counts_after_remove(v.ranks, v.buckets, by_bucket(), e);
    lemma_counts_after_remove(v.ranks, v.xps, by_score(), e);
    crate::leaderboard::lemma_counted_down_total(v.buckets, bucket_of(xp as int) as i64);
    crate::leaderboard::lemma_counted_down_total(v.xps, xp);
}

proof fn lemma_with_pair_consistent_counts(v: RankView, user_id: i64, xp: i64)
    requires
        v.wf(),
        v.has_room(),
        !v.ranks.contains((xp, user_id)),
        counts_match(v.ranks, v.buckets, by_bucket()),
        counts_match(v.ranks, v.xps, by_score()),
    ensures
        counts_match(with_pair(v, user_id, xp).ranks, with_pair(v, user_id, xp).buckets, by_bucket()),
        counts_match(with_pair(v, user_id, xp).ranks, with_pair(v, user_id, xp).xps, by_score()),
{
    let e = (xp, user_id);
    let b = bucket_of(xp as int) as i64;
    assert(by_bucket()(e) == b);
    assert(by_score()(e) == xp);
    if v.buckets.contains_key(b) {
        lemma_count_le_total(v.buckets, b);
    }
    if v.xps.contains_key(xp) {
        lemma_count_le_total(v.xps, xp);
    }
    lemma_counts_after_insert(v.ranks, v.buckets, by_bucket(), e);
    lemma_counts_after_insert(v.ranks, v.xps, by_score(), e);
}

/// An empty leaderboard is consistent.
pub proof fn lemma_empty_is_consistent(v: RankView)
    requires
        v.ranks == Set::<(i64, i64)>::empty(),
        v.buckets == Map::<i64, usize>::empty(),
        v.xps == Map::<i64, usize>::empty(),
    ensures
        consistent(Map::empty(), v),
{
    assert forall|k: i64| #[trigger] group_members(v.ranks, by_bucket(), k).len() > 0 implies v.buckets.contains_key(
        k,
    ) by {
        assert(group_members(v.ranks, by_bucket(), k) =~= Set::empty());
    }
    assert forall|k: i64| #[trigger] group_members(v.ranks, by_score(), k).len() > 0 implies v.xps.contains_key(
        k,
    ) by {
        assert(group_members(v.ranks, by_score(), k) =~= Set::empty());
    }
}

/// Setting a player's score to a non-zero value keeps a consistent leaderboard
/// consistent. (Setting a non-zero score to 0 brings in the pair `(0, player)`, which a
/// consistent leaderboard never holds.)
pub proof fn lemma_update_keeps_consistency(scores: Map<i64, i64>, v: RankView, user_id: i64, new_xp: i64)
    requires
        consistent(scores, v),
        v.wf(),
        v.has_room(),
        new_xp != 0,
    ensures
        consistent(scores.insert(user_id, new_xp), updated_ranking(scores, v, user_id, new_xp)),
{
    let old_xp = score_of(scores, user_id);
    let after = scores.insert(user_id, new_xp);
    if old_xp == new_xp {
        assert(after =~= scores);
    } else {
        let taken_out = if old_xp != 0 {
            assert(v.ranks.contains((old_xp, user_id)));
            lemma_without_pair_consistent_counts(v, user_id, old_xp);
            crate::leaderboard::lemma_counted_down_total(v.buckets, bucket_of(old_xp as int) as i64);
            crate::leaderboard::lemma_counted_down_total(v.xps, old_xp);
            without_pair(v, user_id, old_xp)
        } else {
            v
        };
        assert(!taken_out.ranks.contains((new_xp, user_id)));
        assert(taken_out.has_room());
        lemma_with_pair_consistent_counts(taken_out, user_id, new_xp);
        let result = with_pair(taken_out, user_id, new_xp);
        assert(result == updated_ranking(scores, v, user_id, new_xp));
        assert forall|r: (i64, i64)| #[trigger] result.ranks.contains(r) <==> (after.contains_key(r.1)
            && after[r.1] == r.0 && r.0 != 0) by {
            if r.1 == user_id {
                if v.ranks.contains(r) {
                    assert(r.0 == old_xp);
                }
            }
        }
    }
}

/// Dropping a player whose score is not 0 (or who has none) keeps a consistent
/// leaderboard consistent.
pub proof fn lemma_remove_keeps_consistency(scores: Map<i64, i64>, v: RankView, user_id: i64)
    requires
        consistent(scores, v),
        v.wf(),
        score_of(scores, user_id) != 0 || !scores.contains_key(user_id),
    ensures
        consistent(scores.remove(user_id), removed_ranking(scores, v, user_id)),
{
    if scores.contains_key(user_id) {
        let xp = scores[user_id];
        assert(v.ranks.contains((xp, user_id)));
        lemma_without_pair_consistent_counts(v, user_id, xp);
        let result = without_pair(v, user_id, xp);
        assert forall|r: (i64, i64)| #[trigger] result.ranks.contains(r) <==> (scores.remove(
            user_id,
        ).contains_key(r.1) && scores.remove(user_id)[r.1] == r.0 && r.0 != 0) by {}
    } else {
        assert(scores.remove(user_id) =~= scores);
    }
}

/// On a consistent leaderboard, the rank reported for a player with score `xp` is the
/// number of pairs at or above `(xp, player)`, unless `xp` is 50 000.
pub proof fn lemma_rank_counts_pairs_at_or_above(scores: Map<i64, i64>, v: RankView, user_id: i64, xp: i64)
    requires
        consistent(scores, v),
        v.wf(),
        xp != 50_000,
    ensures
        rank_formula(v, xp, user_id) == count_at_or_above(v.ranks, (xp, user_id)),
{
    let b = bucket_of(xp as int);
    let hi = bucket_high(b);
    lemma_bucket_contains(xp as int);
    assert(b != 50);
    let ranks = v.ranks;
    assert forall|r: (i64, i64)| ranks.contains(r) implies bucket_key(r) as int == bucket_of(r.0 as int) by {
        lemma_bucket_key(r);
    }
    // Pairs in higher buckets.
    let hk = higher_bucket_keys(v, b);
    lemma_tally_counts_groups(v.buckets, hk, ranks, by_bucket());
    let a = members_in_groups(ranks, by_bucket(), hk);
    assert(a =~= ranks.filter(|r: (i64, i64)| r.0 > hi)) by {
        assert forall|r: (i64, i64)| ranks.contains(r) implies (a.contains(r) <==> r.0 > hi) by {
            lemma_bucket_separation(xp as int, r.0 as int);
            lemma_member_of_group(ranks, by_bucket(), r);
            assert(v.buckets.contains_key(bucket_key(r)));
        }
    }
    // Pairs with a higher score up to the bound of the bucket.
    let ck = score_keys_between(v, xp as int, hi);
    lemma_tally_counts_groups(v.xps, ck, ranks, by_score());
    let c = members_in_groups(ranks, by_score(), ck);
    assert(c =~= ranks.filter(|r: (i64, i64)| xp < r.0 <= hi)) by {
        assert forall|r: (i64, i64)| ranks.contains(r) implies (c.contains(r) <==> xp < r.0 <= hi) by {
            lemma_member_of_group(ranks, by_score(), r);
            assert(v.xps.contains_key(r.0));
        }
    }
    let d = tie_pairs(v, xp, user_id);
    let above = at_or_above(ranks, (xp, user_id));
    assert(above =~= a.union(c).union(d));
    assert(a.disjoint(c));
    assert(a.union(c).disjoint(d));
    vstd::set_lib::lemma_set_disjoint_lens(a, c);
    vstd::set_lib::lemma_set_disjoint_lens(a.union(c), d);
    if xp >= hi {
        assert(c =~= Set::empty());
    }
}

/// On a consistent leaderboard the reported rank of a player fits a `usize`, unless the
/// player's score is 50 000.
pub proof fn lemma_rank_fits(scores: Map<i64, i64>, v: RankView, user_id: i64, xp: i64)
    requires
        consistent(scores, v),
        v.wf(),
        xp != 50_000,
    ensures
        rank_formula(v, xp, user_id) <= v.ranks.len(),
        rank_formula(v, xp, user_id) <= usize::MAX,
{
    lemma_rank_counts_pairs_at_or_above(scores, v, user_id, xp);
    vstd::set_lib::lemma_len_subset(at_or_above(v.ranks, (xp, user_id)), v.ranks);
}

/// On a consistent leaderboard, each row of a page holds a player's current score, and
/// the rank read for that player is the rank the row shows (unless the score is 50 000).
pub proof fn lemma_page_rows_match_ranks(
    scores: Map<i64, i64>,
    v: RankView,
    offset: int,
    limit: int,
    entries: Seq<crate::leaderboard::LeaderboardEntry>,
    i: int,
)
    requires
        consistent(scores, v),
        v.wf(),
        is_page(v.ranks, offset, limit, entries),
        0 <= i < entries.len(),
        entries[i].xp != 50_000,
    ensures
        scores.contains_key(entries[i].user_id),
        scores[entries[i].user_id] == entries[i].xp,
        rank_formula(v, entries[i].xp, entries[i].user_id) == entries[i].rank,
{
    assert(v.ranks.contains((entries[i].xp, entries[i].user_id)));
    lemma_rank_counts_pairs_at_or_above(scores, v, entries[i].user_id, entries[i].xp);
}

/// Of two different pairs of a finite ranking, the higher has fewer pairs at or above it.
proof fn lemma_count_strictly_decreases(ranks: Set<(i64, i64)>, low: (i64, i64), high: (i64, i64))
    requires
        ranks.finite(),
        ranks.contains(low),
        ranks.contains(high),
        pair_lt(low, high),
    ensures
        count_at_or_above(ranks, high) < count_at_or_above(ranks, low),
{
    let a = at_or_above(ranks, high);
    let b = at_or_above(ranks, low);
    assert(a.subset_of(b.remove(low)));
    vstd::set_lib::lemma_len_subset(a, b.remove(low));
    assert(b.contains(low));
}

/// A page of a leaderboard is determined by its ranking: two pages from the same
/// offset with the same limit are the same rows.
pub proof fn lemma_page_unique(
    ranks: Set<(i64, i64)>,
    offset: int,
    limit: int,
    a: Seq<LeaderboardEntry>,
    b: Seq<LeaderboardEntry>,
)
    requires
        ranks.finite(),
        is_page(ranks, offset, limit, a),
        is_page(ranks, offset, limit, b),
    ensures
        a == b,
{
    assert forall|i: int| 0 <= i < a.len() implies #[trigger] a[i] == b[i] by {
        let p = (a[i].xp, a[i].user_id);
        let q = (b[i].xp, b[i].user_id);
        assert(count_at_or_above(ranks, p) == count_at_or_above(ranks, q));
        if pair_lt(p, q) {
            lemma_count_strictly_decreases(ranks, p, q);
        } else if pair_lt(q, p) {
            lemma_count_strictly_decreases(ranks, q, p);
        }
        assert(p == q);
    }
    assert(a =~= b);
}

/// Setting a player's score twice to the same value is setting it once: the second
/// call finds the score already there (so it needs no room) and changes neither the
/// scores nor the ordered part.
pub proof fn lemma_update_twice_is_once(scores: Map<i64, i64>, v: RankView, user_id: i64, xp: i64)
    ensures
        score_of(scores.insert(user_id, xp), user_id) == xp,
        scores.insert(user_id, xp).insert(user_id, xp) == scores.insert(user_id, xp),
        updated_ranking(scores.insert(user_id, xp), updated_ranking(scores, v, user_id, xp), user_id, xp)
            == updated_ranking(scores, v, user_id, xp),
{
    assert(scores.insert(user_id, xp).insert(user_id, xp) =~= scores.insert(user_id, xp));
}

} // verus!
