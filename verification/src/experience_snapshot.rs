//! The initial snapshot of experience a region sends: the totals it corrects on the
//! experience leaderboards, the experience rows to store, and the stored rows that
//! the snapshot no longer holds.
use crate::experience::{
    experience_per_hour, experience_sum, experience_totals, xp_per_hour, ExperienceRow, ExperienceStack,
    ExperienceState, LeaderboardFull, MAX_STACKS,
};
use crate::ranking::{board_of, board_position, skill_boards_after, update_if_room, updated_board, BoardView, RankingSystem};
use vstd::prelude::*;

verus! {

/// The leaderboards a snapshot acts on, and whether one of them ran out of room.
pub struct SnapshotBoards {
    pub skills: Seq<(i64, BoardView)>,
    pub global: BoardView,
    pub per_hour: BoardView,
    pub failed: bool,
}

/// The leaderboards of `ranking` that a snapshot acts on.
pub open spec fn snapshot_boards(ranking: RankingSystem, failed: bool) -> SnapshotBoards {
    SnapshotBoards {
        skills: ranking.skills_view(),
        global: board_of(ranking.global_leaderboard),
        per_hour: board_of(ranking.xp_per_hour),
        failed,
    }
}

/// The effect of one player's experience on the totals: when the experience
/// leaderboard already has a different total for the player, it takes the new total
/// and the experience per hour leaderboard the new rate.
pub open spec fn total_step(b: SnapshotBoards, s: ExperienceState, time_signed_in: Option<i32>) -> SnapshotBoards {
    if b.failed {
        b
    } else {
        let id = s.entity_id as i64;
        let total = experience_sum(s.experience_stacks@, s.experience_stacks@.len() as int) as i64;
        if b.global.scores.contains_key(id) && b.global.scores[id] != total {
            if b.global.ranking.has_room() && b.per_hour.ranking.has_room() {
                SnapshotBoards {
                    global: updated_board(b.global, id, total),
                    per_hour: updated_board(b.per_hour, id, experience_per_hour(total, time_signed_in)),
                    ..b
                }
            } else {
                SnapshotBoards { failed: true, ..b }
            }
        } else {
            b
        }
    }
}

/// The leaderboards after the totals of the first `n` players.
pub open spec fn totals_upto(
    b: SnapshotBoards,
    states: Seq<ExperienceState>,
    times: Seq<Option<i32>>,
    n: int,
) -> SnapshotBoards
    decreases n,
{
    if n <= 0 {
        b
    } else {
        total_step(totals_upto(b, states, times, n - 1), states[n - 1], times[n - 1])
    }
}

/// The (player, skill, experience) rows of one player's experience.
pub open spec fn state_rows(s: ExperienceState) -> Seq<(i64, i32, i32)> {
    s.experience_stacks@.map_values(|st: ExperienceStack| (s.entity_id as i64, st.skill_id, st.quantity))
}

/// The rows of a snapshot, player after player.
pub open spec fn snapshot_rows(states: Seq<ExperienceState>) -> Seq<(i64, i32, i32)> {
    states.map_values(|s: ExperienceState| state_rows(s)).flatten()
}

fn rows_of(states: &Vec<ExperienceState>) -> (rows: Vec<(i64, i32, i32)>)
    ensures
        rows@ == snapshot_rows(states@),
{
    let mut rows: Vec<(i64, i32, i32)> = Vec::new();
    let mut j: usize = 0;
    while j < states.len()
        invariant
            j <= states.len(),
            rows@ == states@.take(j as int).map_values(|s: ExperienceState| state_rows(s)).flatten(),
        decreases states.len() - j,
    {
        let s = &states[j];
        let ghost start = rows@;
        let mut k: usize = 0;
        while k < s.experience_stacks.len()
            invariant
                k <= s.experience_stacks.len(),
                *s == states@[j as int],
                rows@ == start + state_rows(*s).take(k as int),
            decreases s.experience_stacks.len() - k,
        {
            let st = s.experience_stacks[k];
            rows.push((s.entity_id as i64, st.skill_id, st.quantity));
            assert(state_rows(*s).take(k + 1) =~= state_rows(*s).take(k as int).push(
                (s.entity_id as i64, st.skill_id, st.quantity),
            ));
            k = k + 1;
        }
        proof {
            let f = |s: ExperienceState| state_rows(s);
            assert(state_rows(*s).take(k as int) =~= state_rows(*s));
            assert(states@.take(j + 1).map_values(f) =~= states@.take(j as int).map_values(f).push(state_rows(*s)));
            states@.take(j as int).map_values(f).lemma_flatten_push(state_rows(*s));
        }
        j = j + 1;
    }
    assert(states@.take(j as int) =~= states@);
    rows
}

/// The experience of the last known row of the player `entity_id` in `skill_id`.
pub open spec fn known_experience(known: Seq<(i64, i32, i32)>, entity_id: i64, skill_id: i32) -> Option<i32>
    decreases known.len(),
{
    if known.len() == 0 {
        None
    } else if known.last().0 == entity_id && known.last().1 == skill_id {
        Some(known.last().2)
    } else {
        known_experience(known.drop_last(), entity_id, skill_id)
    }
}

/// Some of the first `n` rows is of the player `entity_id` in `skill_id`.
pub open spec fn has_row(rows: Seq<(i64, i32, i32)>, n: int, entity_id: i64, skill_id: i32) -> bool {
    exists|j: int| 0 <= j < n && (#[trigger] rows[j]).0 == entity_id && rows[j].1 == skill_id
}

/// The effect of the row at `i` of a snapshot: a row known from storage, met for the
/// first time, is stored only when its experience changed, and then the leaderboard
/// of its skill (if any) takes it; any other row is stored.
pub open spec fn row_step<R>(
    m: (SnapshotBoards, Seq<ExperienceRow<R>>),
    rows: Seq<(i64, i32, i32)>,
    known: Seq<(i64, i32, i32)>,
    region: R,
    i: int,
) -> (SnapshotBoards, Seq<ExperienceRow<R>>) {
    let (b, stored) = m;
    if b.failed {
        m
    } else {
        let r = rows[i];
        let row = ExperienceRow { entity_id: r.0, skill_id: r.1, experience: r.2, region };
        match known_experience(known, r.0, r.1) {
            Some(e) => if has_row(rows, i, r.0, r.1) {
                (b, stored.push(row))
            } else if e == r.2 {
                m
            } else {
                match board_position(b.skills, r.1 as i64) {
                    Some(p) => if b.skills[p].1.ranking.has_room() {
                        (
                            SnapshotBoards { skills: skill_boards_after(b.skills, r.1 as i64, r.0, r.2 as i64), ..b },
                            stored.push(row),
                        )
                    } else {
                        (SnapshotBoards { failed: true, ..b }, stored)
                    },
                    None => (b, stored.push(row)),
                }
            },
            None => (b, stored.push(row)),
        }
    }
}

/// The leaderboards and the rows to store after the first `n` rows of a snapshot.
pub open spec fn rows_upto<R>(
    m: (SnapshotBoards, Seq<ExperienceRow<R>>),
    rows: Seq<(i64, i32, i32)>,
    known: Seq<(i64, i32, i32)>,
    region: R,
    n: int,
) -> (SnapshotBoards, Seq<ExperienceRow<R>>)
    decreases n,
{
    if n <= 0 {
        m
    } else {
        row_step(rows_upto(m, rows, known, region, n - 1), rows, known, region, n - 1)
    }
}

proof fn lemma_totals_failed(b: SnapshotBoards, states: Seq<ExperienceState>, times: Seq<Option<i32>>, j: int, n: int)
    requires
        0 <= j <= n,
        totals_upto(b, states, times, j).failed,
    ensures
        totals_upto(b, states, times, n).failed,
    decreases n - j,
{
    if j < n {
        lemma_totals_failed(b, states, times, j, n - 1);
    }
}

proof fn lemma_rows_failed<R>(
    m: (SnapshotBoards, Seq<ExperienceRow<R>>),
    rows: Seq<(i64, i32, i32)>,
    known: Seq<(i64, i32, i32)>,
    region: R,
    j: int,
    n: int,
)
    requires
        0 <= j <= n,
        rows_upto(m, rows, known, region, j).0.failed,
    ensures
        rows_upto(m, rows, known, region, n).0.failed,
    decreases n - j,
{
    if j < n {
        lemma_rows_failed(m, rows, known, region, j, n - 1);
    }
}

proof fn lemma_rows_from_failed<R>(
    m: (SnapshotBoards, Seq<ExperienceRow<R>>),
    rows: Seq<(i64, i32, i32)>,
    known: Seq<(i64, i32, i32)>,
    region: R,
    n: int,
)
    requires
        m.0.failed,
        n >= 0,
    ensures
        rows_upto(m, rows, known, region, n).0.failed,
    decreases n,
{
    if n > 0 {
        lemma_rows_from_failed(m, rows, known, region, n - 1);
    }
}

fn seen_row(rows: &Vec<(i64, i32, i32)>, n: usize, entity_id: i64, skill_id: i32) -> (seen: bool)
    requires
        n <= rows@.len(),
    ensures
        seen == has_row(rows@, n as int, entity_id, skill_id),
{
    let mut j: usize = 0;
    while j < n
        invariant
            j <= n <= rows@.len(),
            forall|q: int| 0 <= q < j ==> !((#[trigger] rows@[q]).0 == entity_id && rows@[q].1 == skill_id),
        decreases n - j,
    {
        if rows[j].0 == entity_id && rows[j].1 == skill_id {
            return true;
        }
        j = j + 1;
    }
    false
}

fn known_lookup(known: &Vec<(i64, i32, i32)>, entity_id: i64, skill_id: i32) -> (found: Option<i32>)
    ensures
        found == known_experience(known@, entity_id, skill_id),
{
    let mut i: usize = known.len();
    assert(known@.take(i as int) =~= known@);
    while i > 0
        invariant
            i <= known.len(),
            known_experience(known@, entity_id, skill_id) == known_experience(known@.take(i as int), entity_id, skill_id),
        decreases i,
    {
        assert(known@.take(i as int).drop_last() =~= known@.take(i - 1));
        if known[i - 1].0 == entity_id && known[i - 1].1 == skill_id {
            return Some(known[i - 1].2);
        }
        i = i - 1;
    }
    None
}

/// The keys of the first `n` known rows, by player and skill.
pub open spec fn known_has(known: Seq<(i64, i32, i32)>, n: int, entity_id: i64, skill_id: i32) -> bool {
    exists|j: int| 0 <= j < n && (#[trigger] known[j]).0 == entity_id && known[j].1 == skill_id
}

/// Applies the initial snapshot of a region's experience: first the totals (see
/// `total_step`), then the rows (see `row_step`). Gives the rows to store, in order,
/// and the (player, skill) keys of known rows the snapshot does not hold, once each,
/// to delete. `Err` where a leaderboard runs out of room.
pub fn experience_snapshot<R: Copy>(
    ranking: &mut RankingSystem,
    states: &Vec<ExperienceState>,
    time_signed_in: &Vec<Option<i32>>,
    known: &Vec<(i64, i32, i32)>,
    region: R,
) -> (result: Result<(Vec<ExperienceRow<R>>, Vec<(i64, i32)>), LeaderboardFull>)
    requires
        old(ranking).wf(),
        states@.len() == time_signed_in@.len(),
        forall|j: int| 0 <= j < states@.len() ==> (#[trigger] states@[j]).experience_stacks@.len() <= MAX_STACKS,
    ensures
        final(ranking).wf(),
        final(ranking).level_leaderboard == old(ranking).level_leaderboard,
        final(ranking).time_played == old(ranking).time_played,
        final(ranking).time_signed_in == old(ranking).time_signed_in,
        ({
            let totals = totals_upto(snapshot_boards(*old(ranking), false), states@, time_signed_in@, states@.len() as int);
            let rows = snapshot_rows(states@);
            let outcome = rows_upto((totals, Seq::<ExperienceRow<R>>::empty()), rows, known@, region, rows.len() as int);
            match result {
                Ok((store, deletes)) => {
                    &&& !outcome.0.failed
                    &&& snapshot_boards(*final(ranking), false) == outcome.0
                    &&& store@ == outcome.1
                    &&& deletes@.no_duplicates()
                    &&& forall|k: (i64, i32)| #[trigger] deletes@.contains(k) <==> (known_has(known@, known@.len() as int, k.0, k.1)
                        && !has_row(rows, rows.len() as int, k.0, k.1))
                },
                Err(_) => outcome.0.failed,
            }
        }),
{
    let ghost init = snapshot_boards(*ranking, false);
    let ghost lvl = ranking.level_leaderboard;
    let ghost tp = ranking.time_played;
    let ghost tsi = ranking.time_signed_in;
    let ghost times = time_signed_in@;
    let mut j: usize = 0;
    while j < states.len()
        invariant
            j <= states@.len(),
            states@.len() == times.len(),
            times == time_signed_in@,
            forall|q: int| 0 <= q < states@.len() ==> (#[trigger] states@[q]).experience_stacks@.len() <= MAX_STACKS,
            ranking.wf(),
            ranking.level_leaderboard == lvl,
            ranking.time_played == tp,
            ranking.time_signed_in == tsi,
            lvl == old(ranking).level_leaderboard,
            tp == old(ranking).time_played,
            tsi == old(ranking).time_signed_in,
            init == snapshot_boards(*old(ranking), false),
            snapshot_boards(*ranking, false) == totals_upto(init, states@, times, j as int),
        decreases states.len() - j,
    {
        let s = &states[j];
        assert(s.experience_stacks@.len() <= MAX_STACKS);
        let (total, _) = experience_totals(&s.experience_stacks);
        let id = s.entity_id as i64;
        match ranking.global_leaderboard.get_value(&id) {
            Some(v) => {
                if v != total {
                    if !ranking.global_leaderboard.has_room() || !ranking.xp_per_hour.has_room() {
                        proof {
                            let rows = snapshot_rows(states@);
                            lemma_totals_failed(init, states@, times, j + 1, states@.len() as int);
                            lemma_rows_from_failed(
                                (totals_upto(init, states@, times, states@.len() as int), Seq::<ExperienceRow<R>>::empty()),
                                rows,
                                known@,
                                region,
                                rows.len() as int,
                            );
                        }
                        return Err(LeaderboardFull);
                    }
                    let per_hour = xp_per_hour(total, time_signed_in[j]);
                    update_if_room(&mut ranking.global_leaderboard, id, total);
                    update_if_room(&mut ranking.xp_per_hour, id, per_hour);
                }
            },
            None => {},
        }
        j = j + 1;
    }
    let ghost totals = totals_upto(init, states@, times, states@.len() as int);
    let rows = rows_of(states);
    let ghost rs = rows@;
    let mut store: Vec<ExperienceRow<R>> = Vec::new();
    let mut i: usize = 0;
    while i < rows.len()
        invariant
            i <= rows@.len(),
            rs == rows@,
            rs == snapshot_rows(states@),
            ranking.wf(),
            ranking.level_leaderboard == lvl,
            ranking.time_played == tp,
            ranking.time_signed_in == tsi,
            lvl == old(ranking).level_leaderboard,
            tp == old(ranking).time_played,
            tsi == old(ranking).time_signed_in,
            totals == totals_upto(snapshot_boards(*old(ranking), false), states@, time_signed_in@, states@.len() as int),
            !totals.failed,
            (snapshot_boards(*ranking, false), store@) == rows_upto(
                (totals, Seq::<ExperienceRow<R>>::empty()),
                rs,
                known@,
                region,
                i as int,
            ),
        decreases rows.len() - i,
    {
        let (e, sk, xp) = rows[i];
        let row = ExperienceRow { entity_id: e, skill_id: sk, experience: xp, region };
        let ghost here = rows_upto((totals, Seq::<ExperienceRow<R>>::empty()), rs, known@, region, i as int);
        let ghost views = ranking.skills_view();
        assert(rs[i as int] == (e, sk, xp));
        let seen = seen_row(&rows, i, e, sk);
        let prior = known_lookup(known, e, sk);
        match prior {
            Some(k) => {
                if seen {
                    store.push(row);
                } else if k != xp {
                    let ok = ranking.update_existing_skill(sk as i64, e, xp as i64);
                    if !ok {
                        proof {
                            assert(here.0.skills == views);
                            assert(prior == known_experience(known@, e, sk));
                            assert(!has_row(rs, i as int, e, sk));
                            assert(sk as i64 as i32 == sk);
                            assert(board_position(views, sk as i64) is Some);
                            let p = board_position(views, sk as i64)->0;
                            assert(!views[p].1.ranking.has_room());
                            assert(!here.0.failed);
                            assert(rows_upto((totals, Seq::<ExperienceRow<R>>::empty()), rs, known@, region, i + 1) == row_step(
                                here,
                                rs,
                                known@,
                                region,
                                i as int,
                            ));
                            assert(rows_upto((totals, Seq::<ExperienceRow<R>>::empty()), rs, known@, region, i + 1).0.failed);
                            lemma_rows_failed(
                                (totals, Seq::<ExperienceRow<R>>::empty()),
                                rs,
                                known@,
                                region,
                                i + 1,
                                rs.len() as int,
                            );
                        }
                        return Err(LeaderboardFull);
                    }
                    store.push(row);
                }
            },
            None => {
                store.push(row);
            },
        }
        i = i + 1;
    }
    let mut deletes: Vec<(i64, i32)> = Vec::new();
    let mut k: usize = 0;
    while k < known.len()
        invariant
            k <= known@.len(),
            rs == rows@,
            deletes@.no_duplicates(),
            forall|key: (i64, i32)| #[trigger] deletes@.contains(key) <==> (known_has(known@, k as int, key.0, key.1)
                && !has_row(rs, rs.len() as int, key.0, key.1)),
        decreases known.len() - k,
    {
        let (e, sk, _) = known[k];
        let in_rows = seen_row(&rows, rows.len(), e, sk);
        let mut listed = false;
        let mut q: usize = 0;
        while q < deletes.len()
            invariant
                q <= deletes@.len(),
                listed == exists|t: int| 0 <= t < q && deletes@[t] == (e, sk),
            decreases deletes.len() - q,
        {
            if deletes[q].0 == e && deletes[q].1 == sk {
                listed = true;
            }
            q = q + 1;
        }
        let ghost before = deletes@;
        if !in_rows && !listed {
            deletes.push((e, sk));
            proof {
                assert(!before.contains((e, sk)));
                assert forall|a: int, b: int| 0 <= a < b < deletes@.len() implies deletes@[a] != deletes@[b] by {
                    if b == before.len() {
                        assert(before.contains(deletes@[a]));
                    }
                }
            }
        }
        proof {
            assert forall|key: (i64, i32)| #[trigger] deletes@.contains(key) <==> (known_has(known@, k + 1, key.0, key.1)
                && !has_row(rs, rs.len() as int, key.0, key.1)) by {
                if known_has(known@, k + 1, key.0, key.1) && !known_has(known@, k as int, key.0, key.1) {
                    let t = choose|t: int| 0 <= t < k + 1 && (#[trigger] known@[t]).0 == key.0 && known@[t].1 == key.1;
                    assert(t == k);
                }
                if known_has(known@, k as int, key.0, key.1) {
                    let t = choose|t: int| 0 <= t < k && (#[trigger] known@[t]).0 == key.0 && known@[t].1 == key.1;
                    assert(known_has(known@, k + 1, key.0, key.1));
                }
                if deletes@.contains(key) && !before.contains(key) {
                    assert(deletes@[deletes@.len() - 1] == key);
                    assert(known@[k as int].0 == key.0 && known@[k as int].1 == key.1);
                }
                if before.contains(key) {
                    let t = choose|t: int| 0 <= t < before.len() && before[t] == key;
                    assert(deletes@[t] == key);
                }
                if key == (e, sk) && !in_rows && !listed {
                    assert(deletes@[deletes@.len() - 1] == key);
                }
                if key == (e, sk) && !in_rows && listed {
                    let t = choose|t: int| 0 <= t < deletes@.len() && deletes@[t] == (e, sk);
                    assert(before.contains(key));
                }
            }
        }
        k = k + 1;
    }
    Ok((store, deletes))
}

} // verus!
