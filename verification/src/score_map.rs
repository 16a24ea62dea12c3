//! The concurrent map from player id to score that each leaderboard keeps, a
//! `dashmap::DashMap<i64, i64>`, and the calls the leaderboard makes on it.
use dashmap::DashMap;
use vstd::prelude::*;

verus! {

/// `dashmap::DashMap`, declared so that verified code can hold one.
#[verifier::external_type_specification]
#[verifier::external_body]
#[verifier::reject_recursive_types(K)]
#[verifier::reject_recursive_types(V)]
#[verifier::reject_recursive_types(S)]
pub struct ExDashMap<K, V, S>(DashMap<K, V, S>);

/// The `(player id, score)` pairs held in a score map.
pub uninterp spec fn score_entries(m: DashMap<i64, i64>) -> Map<i64, i64>;

/// The score map with no entries.
pub open spec fn no_scores() -> Map<i64, i64> {
    Map::empty()
}

/// `DashMap::new`: a map with no entries.
#[verifier::external_body]
pub(crate) fn scores_new() -> (fresh: DashMap<i64, i64>)
    ensures
        score_entries(fresh) == no_scores(),
{
    DashMap::new()
}

/// `DashMap::insert`: sets the score of `user_id` and hands back the score it replaced.
#[verifier::external_body]
pub(crate) fn scores_insert(m: &mut DashMap<i64, i64>, user_id: i64, score: i64) -> (previous: Option<
    i64,
>)
    ensures
        score_entries(*final(m)) == score_entries(*old(m)).insert(user_id, score),
        previous == (if score_entries(*old(m)).contains_key(user_id) {
            Some(score_entries(*old(m))[user_id])
        } else {
            None::<i64>
        }),
{
    m.insert(user_id, score)
}

/// `DashMap::get`: the score of `user_id`, read through the returned guard.
#[verifier::external_body]
pub(crate) fn scores_get(m: &DashMap<i64, i64>, user_id: i64) -> (score: Option<i64>)
    ensures
        score == (if score_entries(*m).contains_key(user_id) {
            Some(score_entries(*m)[user_id])
        } else {
            None::<i64>
        }),
{
    m.get(&user_id).map(|entry| *entry.value())
}

/// `DashMap::contains_key`: whether `user_id` has a score.
#[verifier::external_body]
pub(crate) fn scores_contains(m: &DashMap<i64, i64>, user_id: i64) -> (present: bool)
    ensures
        present == score_entries(*m).contains_key(user_id),
{
    m.contains_key(&user_id)
}

/// `DashMap::remove`: drops the score of `user_id` and hands back the removed score.
#[verifier::external_body]
pub(crate) fn scores_remove(m: &mut DashMap<i64, i64>, user_id: i64) -> (removed: Option<i64>)
    ensures
        score_entries(*final(m)) == score_entries(*old(m)).remove(user_id),
        removed == (if score_entries(*old(m)).contains_key(user_id) {
            Some(score_entries(*old(m))[user_id])
        } else {
            None::<i64>
        }),
{
    m.remove(&user_id).map(|(_, score)| score)
}

} // verus!
