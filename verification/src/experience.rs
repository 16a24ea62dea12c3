//! Experience changes of players: the rows staged for storage, the leaderboards they
//! move, and the live notifications they raise.
use crate::buckets::MAX_RANKED_XP;
use crate::leaderboard::Leaderboard;
use crate::ranking::{
    board_of, rank_after, skill_board, skill_boards_after, update_if_room, updated_board, BoardView,
    RankingSystem,
};
use crate::levels::{experience_to_level, level_for};
use crate::text::same_text;
use vstd::prelude::*;

verus! {

/// Experience of a player in one skill.
#[derive(Debug, Clone, Copy, PartialEq, Eq)]
pub struct ExperienceStack {
    pub skill_id: i32,
    pub quantity: i32,
}

/// The experience of a player in each of their skills.
#[derive(Debug, PartialEq, Eq)]
pub struct ExperienceState {
    pub entity_id: u64,
    pub experience_stacks: Vec<ExperienceStack>,
}

/// What the updates read of a skill description.
#[derive(Debug, PartialEq, Eq)]
pub struct SkillEntry {
    pub skill_id: i64,
    pub name: String,
    pub skill_category: i32,
}

/// A stored experience row: a player's experience in one skill, in one region.
#[derive(Debug, PartialEq, Eq)]
pub struct ExperienceRow<R> {
    pub entity_id: i64,
    pub skill_id: i32,
    pub experience: i32,
    pub region: R,
}

impl<R: Copy> Clone for ExperienceRow<R> {
    fn clone(&self) -> (copy: Self)
        ensures
            copy == *self,
    {
        *self
    }
}

impl<R: Copy> Copy for ExperienceRow<R> {

}

/// A notification sent to the live-update subscribers.
#[derive(Debug, PartialEq, Eq)]
pub enum LiveUpdate {
    Level { level: u64, skill_name: String, user_id: i64 },
    Experience { level: u64, experience: u64, rank: u64, skill_name: String, user_id: i64 },
    TotalExperience { experience: u64, user_id: i64, experience_per_hour: u64, rank: u64 },
}

/// The largest number of skills in one experience state that the sums below take.
pub const MAX_STACKS: usize = 19_000_000;

/// Sum of the experience of the first `n` stacks.
pub open spec fn experience_sum(stacks: Seq<ExperienceStack>, n: int) -> int
    decreases n,
{
    if n <= 0 {
        0
    } else {
        experience_sum(stacks, n - 1) + stacks[n - 1].quantity
    }
}

/// Sum of the levels of the first `n` stacks.
pub open spec fn level_sum(stacks: Seq<ExperienceStack>, n: int) -> int
    decreases n,
{
    if n <= 0 {
        0
    } else {
        level_sum(stacks, n - 1) + level_for(stacks[n - 1].quantity as int)
    }
}

proof fn lemma_level_bounds(xp: int)
    ensures
        1 <= level_for(xp) <= 110,
{
    assert forall|rows: int| 0 <= rows <= 110 implies 1 <= #[trigger] super::levels::last_reached_level(
        xp,
        rows,
    ) <= 110 by {
        lemma_last_reached_bounds(xp, rows);
    }
}

proof fn lemma_last_reached_bounds(xp: int, rows: int)
    requires
        0 <= rows <= 110,
    ensures
        1 <= super::levels::last_reached_level(xp, rows) <= 110,
    decreases rows,
{
    if rows > 0 {
        lemma_last_reached_bounds(xp, rows - 1);
        lemma_table_levels();
        assert(super::levels::EXPERIENCE_PER_LEVEL@[rows - 1].0 == rows);
    }
}

proof fn lemma_table_levels()
    ensures
        forall|k: int| 0 <= k < 110 ==> #[trigger] super::levels::EXPERIENCE_PER_LEVEL@[k].0 == k + 1,
{
    assert forall|k: int| 0 <= k < 110 implies #[trigger] super::levels::EXPERIENCE_PER_LEVEL@[k].0 == k + 1 by {
    }
}

/// The total experience and the total level of a list of skills.
pub fn experience_totals(stacks: &Vec<ExperienceStack>) -> (totals: (i64, i32))
    requires
        stacks.len() <= MAX_STACKS,
    ensures
        totals.0 == experience_sum(stacks@, stacks.len() as int),
        totals.1 == level_sum(stacks@, stacks.len() as int),
        -2_147_483_648 * MAX_STACKS <= totals.0 <= 2_147_483_647 * MAX_STACKS,
{
    let mut exp: i64 = 0;
    let mut levels: i32 = 0;
    let mut i: usize = 0;
    while i < stacks.len()
        invariant
            i <= stacks.len() <= MAX_STACKS,
            exp == experience_sum(stacks@, i as int),
            levels == level_sum(stacks@, i as int),
            -2_147_483_648 * i <= exp <= 2_147_483_647 * i,
            i <= levels <= 110 * i,
        decreases stacks.len() - i,
    {
        let q = stacks[i].quantity;
        let level = experience_to_level(q as i64);
        proof {
            lemma_level_bounds(q as int);
        }
        exp = exp + q as i64;
        levels = levels + level;
        i = i + 1;
    }
    (exp, levels)
}

/// The first stack of `stacks` for the skill `skill_id`.
pub open spec fn first_with_skill(stacks: Seq<ExperienceStack>, skill_id: i32) -> Option<ExperienceStack>
    decreases stacks.len(),
{
    if stacks.len() == 0 {
        None
    } else if stacks[0].skill_id == skill_id {
        Some(stacks[0])
    } else {
        first_with_skill(stacks.drop_first(), skill_id)
    }
}

/// The new stack of the skill at `index` in the old list: the new stack at the same
/// position when it is of the same skill, else the first new stack of that skill.
pub open spec fn matching_stack(new: Seq<ExperienceStack>, index: int, skill_id: i32) -> Option<ExperienceStack> {
    if 0 <= index < new.len() && new[index].skill_id == skill_id {
        Some(new[index])
    } else {
        first_with_skill(new, skill_id)
    }
}

fn find_stack(stacks: &Vec<ExperienceStack>, index: usize, skill_id: i32) -> (found: Option<ExperienceStack>)
    ensures
        found == matching_stack(stacks@, index as int, skill_id),
{
    if index < stacks.len() && stacks[index].skill_id == skill_id {
        return Some(stacks[index]);
    }
    let mut i: usize = 0;
    assert(stacks@.skip(0) =~= stacks@);
    while i < stacks.len()
        invariant
            i <= stacks.len(),
            first_with_skill(stacks@, skill_id) == first_with_skill(stacks@.skip(i as int), skill_id),
            matching_stack(stacks@, index as int, skill_id) == first_with_skill(stacks@, skill_id),
        decreases stacks.len() - i,
    {
        assert(stacks@.skip(i as int).drop_first() =~= stacks@.skip(i + 1));
        assert(stacks@.skip(i as int)[0] == stacks@[i as int]);
        if stacks[i].skill_id == skill_id {
            assert(first_with_skill(stacks@.skip(i as int), skill_id) == Some(stacks@[i as int]));
            return Some(stacks[i]);
        }
        i = i + 1;
    }
    None
}

/// Division rounding toward zero, as integer division does.
pub open spec fn div_toward_zero(a: int, b: int) -> int {
    if a >= 0 {
        a / b
    } else {
        -((-a) / b)
    }
}

/// Experience per hour signed in: the total divided by the whole hours signed in,
/// for players known to have signed in for at least an hour; 0 otherwise.
pub open spec fn experience_per_hour(total: i64, time_signed_in: Option<i32>) -> i64 {
    match time_signed_in {
        Some(t) => if t >= 3600 {
            div_toward_zero(total as int, t / 3600) as i64
        } else {
            0
        },
        None => 0,
    }
}

/// Experience per hour signed in (see `experience_per_hour`).
pub fn xp_per_hour(total: i64, time_signed_in: Option<i32>) -> (per_hour: i64)
    ensures
        per_hour == experience_per_hour(total, time_signed_in),
{
    match time_signed_in {
        Some(t) => if t >= 3600 {
            let hours = t as i64 / 3600;
            total / hours
        } else {
            0
        },
        None => 0,
    }
}

/// The description of the skill `skill_id`, if known.
pub open spec fn skill_info(skills: Seq<SkillEntry>, skill_id: i64) -> Option<SkillEntry>
    decreases skills.len(),
{
    if skills.len() == 0 {
        None
    } else if skills[0].skill_id == skill_id {
        Some(skills[0])
    } else {
        skill_info(skills.drop_first(), skill_id)
    }
}

fn find_skill(skills: &Vec<SkillEntry>, skill_id: i64) -> (found: Option<usize>)
    ensures
        match found {
            Some(i) => i < skills.len() && skill_info(skills@, skill_id) == Some(skills@[i as int]),
            None => skill_info(skills@, skill_id) is None,
        },
{
    let mut i: usize = 0;
    assert(skills@.skip(0) =~= skills@);
    while i < skills.len()
        invariant
            i <= skills.len(),
            skill_info(skills@, skill_id) == skill_info(skills@.skip(i as int), skill_id),
        decreases skills.len() - i,
    {
        assert(skills@.skip(i as int).drop_first() =~= skills@.skip(i + 1));
        assert(skills@.skip(i as int)[0] == skills@[i as int]);
        if skills[i].skill_id == skill_id {
            return Some(i);
        }
        i = i + 1;
    }
    None
}

/// `s` without its first value for which `hit` holds.
pub open spec fn without_first<T>(s: Seq<T>, hit: spec_fn(T) -> bool) -> Seq<T>
    decreases s.len(),
{
    if s.len() == 0 {
        s
    } else if hit(s[0]) {
        s.drop_first()
    } else {
        seq![s[0]] + without_first(s.drop_first(), hit)
    }
}

pub(crate) proof fn lemma_without_first_at<T>(s: Seq<T>, hit: spec_fn(T) -> bool, p: int)
    requires
        0 <= p < s.len(),
        hit(s[p]),
        forall|i: int| 0 <= i < p ==> !hit(#[trigger] s[i]),
    ensures
        without_first(s, hit) == s.remove(p),
    decreases p,
{
    if p > 0 {
        let rest = s.drop_first();
        assert forall|i: int| 0 <= i < p - 1 implies !hit(#[trigger] rest[i]) by {
            assert(rest[i] == s[i + 1]);
        }
        lemma_without_first_at(rest, hit, p - 1);
        assert(!hit(s[0]));
        assert(seq![s[0]] + rest.remove(p - 1) =~= s.remove(p));
    } else {
        assert(s.drop_first() =~= s.remove(0));
    }
}

pub(crate) proof fn lemma_without_first_none<T>(s: Seq<T>, hit: spec_fn(T) -> bool)
    requires
        forall|i: int| 0 <= i < s.len() ==> !hit(#[trigger] s[i]),
    ensures
        without_first(s, hit) == s,
    decreases s.len(),
{
    if s.len() > 0 {
        let rest = s.drop_first();
        assert forall|i: int| 0 <= i < rest.len() implies !hit(#[trigger] rest[i]) by {
            assert(rest[i] == s[i + 1]);
        }
        lemma_without_first_none(rest, hit);
        assert(!hit(s[0]));
        assert(seq![s[0]] + rest =~= s);
    }
}

/// Rows of the player `entity_id` in the skill `skill_id`.
pub open spec fn row_of<R>(entity_id: i64, skill_id: i32) -> spec_fn(ExperienceRow<R>) -> bool {
    |row: ExperienceRow<R>| row.entity_id == entity_id && row.skill_id == skill_id
}

/// The key `(entity_id, skill_id)`.
pub open spec fn key_of(entity_id: i64, skill_id: i32) -> spec_fn((i64, i32)) -> bool {
    |key: (i64, i32)| key.0 == entity_id && key.1 == skill_id
}

/// The position of the first key `(entity_id, skill_id)`, or the length when there is
/// none.
fn key_position(keys: &Vec<(i64, i32)>, entity_id: i64, skill_id: i32) -> (p: usize)
    ensures
        p <= keys.len(),
        p < keys.len() ==> key_of(entity_id, skill_id)(keys@[p as int]),
        forall|i: int| 0 <= i < p ==> !key_of(entity_id, skill_id)(#[trigger] keys@[i]),
{
    let mut p: usize = 0;
    while p < keys.len()
        invariant
            p <= keys.len(),
            forall|i: int| 0 <= i < p ==> !key_of(entity_id, skill_id)(#[trigger] keys@[i]),
        decreases keys.len() - p,
    {
        let (e, k) = keys[p];
        if e == entity_id && k == skill_id {
            return p;
        }
        p = p + 1;
    }
    p
}

/// The position of the first row of the player `entity_id` in the skill `skill_id`, or
/// the length when there is none.
fn row_position<R: Copy>(rows: &Vec<ExperienceRow<R>>, entity_id: i64, skill_id: i32) -> (p: usize)
    ensures
        p <= rows.len(),
        p < rows.len() ==> row_of::<R>(entity_id, skill_id)(rows@[p as int]),
        forall|i: int| 0 <= i < p ==> !row_of::<R>(entity_id, skill_id)(#[trigger] rows@[i]),
{
    let mut p: usize = 0;
    while p < rows.len()
        invariant
            p <= rows.len(),
            forall|i: int| 0 <= i < p ==> !row_of::<R>(entity_id, skill_id)(#[trigger] rows@[i]),
        decreases rows.len() - p,
    {
        if rows[p].entity_id == entity_id && rows[p].skill_id == skill_id {
            return p;
        }
        p = p + 1;
    }
    p
}

/// The experience import worker's batch: experience rows waiting to be stored, and
/// keys of rows waiting to be deleted.
pub struct ExperienceStateWorker<R> {
    pub messages: Vec<ExperienceRow<R>>,
    pub messages_delete: Vec<(i64, i32)>,
    pub batch_size: usize,
}

impl<R: Copy> ExperienceStateWorker<R> {
    /// An empty batch that is flushed once `batch_size` rows or keys wait.
    pub fn new(batch_size: usize) -> (batch: Self)
        ensures
            batch.messages@.len() == 0,
            batch.messages_delete@.len() == 0,
            batch.batch_size == batch_size,
    {
        ExperienceStateWorker { messages: Vec::new(), messages_delete: Vec::new(), batch_size }
    }

    /// Stages `row` for storage: a pending delete of its key is dropped, a pending row of
    /// its key gives way, and the row goes last.
    pub fn stage_upsert(&mut self, row: ExperienceRow<R>)
        ensures
            final(self).messages@ == without_first(
                old(self).messages@,
                row_of::<R>(row.entity_id, row.skill_id),
            ).push(row),
            final(self).messages_delete@ == without_first(
                old(self).messages_delete@,
                key_of(row.entity_id, row.skill_id),
            ),
            final(self).batch_size == old(self).batch_size,
    {
        let ghost deletes = self.messages_delete@;
        let d = key_position(&self.messages_delete, row.entity_id, row.skill_id);
        if d < self.messages_delete.len() {
            proof {
                lemma_without_first_at(deletes, key_of(row.entity_id, row.skill_id), d as int);
            }
            self.messages_delete.remove(d);
        } else {
            proof {
                lemma_without_first_none(deletes, key_of(row.entity_id, row.skill_id));
            }
        }
        self.drop_pending_row(row.entity_id, row.skill_id);
        self.messages.push(row);
    }

    /// Drops the first pending row of the player `entity_id` in the skill `skill_id`.
    pub fn drop_pending_row(&mut self, entity_id: i64, skill_id: i32)
        ensures
            final(self).messages@ == without_first(old(self).messages@, row_of::<R>(entity_id, skill_id)),
            final(self).messages_delete@ == old(self).messages_delete@,
            final(self).batch_size == old(self).batch_size,
    {
        let ghost rows = self.messages@;
        let m = row_position(&self.messages, entity_id, skill_id);
        if m < self.messages.len() {
            proof {
                lemma_without_first_at(rows, row_of::<R>(entity_id, skill_id), m as int);
            }
            self.messages.remove(m);
        } else {
            proof {
                lemma_without_first_none(rows, row_of::<R>(entity_id, skill_id));
            }
        }
    }

    /// Enough rows or keys wait to be flushed.
    pub fn should_flush(&self) -> (flush: bool)
        ensures
            flush == (self.messages@.len() >= self.batch_size || self.messages_delete@.len()
                >= self.batch_size),
    {
        self.messages.len() >= self.batch_size || self.messages_delete.len() >= self.batch_size
    }

    /// Nothing waits.
    pub fn is_idle(&self) -> (idle: bool)
        ensures
            idle == (self.messages@.len() == 0 && self.messages_delete@.len() == 0),
    {
        self.messages.len() == 0 && self.messages_delete.len() == 0
    }

    /// Hands out the waiting rows and keys, leaving the batch empty.
    pub fn flush(&mut self) -> (taken: (Vec<ExperienceRow<R>>, Vec<(i64, i32)>))
        ensures
            taken.0@ == old(self).messages@,
            taken.1@ == old(self).messages_delete@,
            final(self).messages@.len() == 0,
            final(self).messages_delete@.len() == 0,
            final(self).batch_size == old(self).batch_size,
    {
        let mut messages: Vec<ExperienceRow<R>> = Vec::new();
        let mut deletes: Vec<(i64, i32)> = Vec::new();
        std::mem::swap(&mut messages, &mut self.messages);
        std::mem::swap(&mut deletes, &mut self.messages_delete);
        (messages, deletes)
    }
}

/// The leaderboards and the batch an experience change acts on, with the
/// notifications raised so far and whether a leaderboard ran out of room.
pub struct ExperienceModel<R> {
    pub skills: Seq<(i64, BoardView)>,
    pub level: BoardView,
    pub global: BoardView,
    pub per_hour: BoardView,
    pub messages: Seq<ExperienceRow<R>>,
    pub deletes: Seq<(i64, i32)>,
    pub events: Seq<LiveUpdate>,
    pub failed: bool,
}

/// The model of a batch and the leaderboards, with the given notifications.
pub open spec fn model_of<R>(
    batch: ExperienceStateWorker<R>,
    ranking: RankingSystem,
    events: Seq<LiveUpdate>,
    failed: bool,
) -> ExperienceModel<R> {
    ExperienceModel {
        skills: ranking.skills_view(),
        level: board_of(ranking.level_leaderboard),
        global: board_of(ranking.global_leaderboard),
        per_hour: board_of(ranking.xp_per_hour),
        messages: batch.messages@,
        deletes: batch.messages_delete@,
        events,
        failed,
    }
}

/// The model after the row `row` is staged for storage.
pub open spec fn staged<R>(m: ExperienceModel<R>, row: ExperienceRow<R>) -> ExperienceModel<R> {
    ExperienceModel {
        messages: without_first(m.messages, row_of::<R>(row.entity_id, row.skill_id)).push(row),
        deletes: without_first(m.deletes, key_of(row.entity_id, row.skill_id)),
        ..m
    }
}

/// The effect of one old skill of a player on the model, given the matching new skill:
/// a level notification when the level changed and the skill is known; when the
/// experience grew, the old experience row is staged and, for a known skill of a
/// category other than 0, the skill leaderboard takes the new experience and an
/// experience notification tells the new rank.
pub open spec fn skill_step<R>(
    m: ExperienceModel<R>,
    skills: Seq<SkillEntry>,
    user_id: i64,
    region: R,
    old: ExperienceStack,
    new: Option<ExperienceStack>,
) -> ExperienceModel<R> {
    if m.failed || new is None {
        m
    } else {
        let ns = new.unwrap();
        let old_level = level_for(old.quantity as int);
        let new_level = level_for(ns.quantity as int);
        let info = skill_info(skills, old.skill_id as i64);
        let m1 = if info is Some && old_level != new_level {
            ExperienceModel {
                events: m.events.push(
                    LiveUpdate::Level {
                        level: new_level as u64,
                        skill_name: info.unwrap().name,
                        user_id,
                    },
                ),
                ..m
            }
        } else {
            m
        };
        if ns.quantity > old.quantity {
            let m2 = staged(
                m1,
                ExperienceRow { entity_id: user_id, skill_id: old.skill_id, experience: old.quantity, region },
            );
            if info is Some && info.unwrap().skill_category != 0 {
                let board = skill_board(m2.skills, old.skill_id as i64);
                if board.ranking.has_room() {
                    ExperienceModel {
                        skills: skill_boards_after(
                            m2.skills,
                            old.skill_id as i64,
                            user_id,
                            ns.quantity as i64,
                        ),
                        events: m2.events.push(
                            LiveUpdate::Experience {
                                level: new_level as u64,
                                experience: ns.quantity as u64,
                                rank: (rank_after(board, user_id, ns.quantity as i64) as usize) as u64,
                                skill_name: info.unwrap().name,
                                user_id,
                            },
                        ),
                        ..m2
                    }
                } else {
                    ExperienceModel { failed: true, ..m2 }
                }
            } else {
                m2
            }
        } else {
            m1
        }
    }
}

/// The model after the first `n` old skills.
pub open spec fn skill_steps<R>(
    m: ExperienceModel<R>,
    skills: Seq<SkillEntry>,
    user_id: i64,
    region: R,
    old: Seq<ExperienceStack>,
    new: Seq<ExperienceStack>,
    n: int,
) -> ExperienceModel<R>
    decreases n,
{
    if n <= 0 {
        m
    } else {
        skill_step(
            skill_steps(m, skills, user_id, region, old, new, n - 1),
            skills,
            user_id,
            region,
            old[n - 1],
            matching_stack(new, n - 1, old[n - 1].skill_id),
        )
    }
}

/// The effect of the totals: a changed total level goes to the level leaderboard; a
/// changed total experience goes to the experience leaderboard, the experience per hour
/// to its leaderboard, and a notification tells both with the new rank.
pub open spec fn totals_step<R>(
    m: ExperienceModel<R>,
    user_id: i64,
    old_exp: i64,
    old_level: i32,
    new_exp: i64,
    new_level: i32,
    time_signed_in: Option<i32>,
) -> ExperienceModel<R> {
    if m.failed {
        m
    } else {
        let m1 = if old_level != new_level {
            if m.level.ranking.has_room() {
                ExperienceModel { level: updated_board(m.level, user_id, new_level as i64), ..m }
            } else {
                ExperienceModel { failed: true, ..m }
            }
        } else {
            m
        };
        if m1.failed || old_exp == new_exp {
            m1
        } else if m1.global.ranking.has_room() && m1.per_hour.ranking.has_room() {
            let per_hour = experience_per_hour(new_exp, time_signed_in);
            ExperienceModel {
                global: updated_board(m1.global, user_id, new_exp),
                per_hour: updated_board(m1.per_hour, user_id, per_hour),
                events: m1.events.push(
                    LiveUpdate::TotalExperience {
                        experience: new_exp as u64,
                        user_id,
                        experience_per_hour: per_hour as u64,
                        rank: (rank_after(m1.global, user_id, new_exp) as usize) as u64,
                    },
                ),
                ..m1
            }
        } else {
            ExperienceModel { failed: true, ..m1 }
        }
    }
}

/// The model after a player's experience changed from `old` to `new`.
pub open spec fn experience_update<R>(
    m: ExperienceModel<R>,
    skills: Seq<SkillEntry>,
    time_signed_in: Option<i32>,
    entity_id: u64,
    new: Seq<ExperienceStack>,
    region: R,
    old: Seq<ExperienceStack>,
) -> ExperienceModel<R> {
    let user_id = entity_id as i64;
    totals_step(
        skill_steps(m, skills, user_id, region, old, new, old.len() as int),
        user_id,
        experience_sum(old, old.len() as int) as i64,
        level_sum(old, old.len() as int) as i32,
        experience_sum(new, new.len() as int) as i64,
        level_sum(new, new.len() as int) as i32,
        time_signed_in,
    )
}

/// A leaderboard had no room for a change (see `RankView::has_room`).
#[derive(Debug, Clone, Copy, PartialEq, Eq)]
pub struct LeaderboardFull;

proof fn lemma_failed_stays<R>(
    m: ExperienceModel<R>,
    skills: Seq<SkillEntry>,
    user_id: i64,
    region: R,
    old: Seq<ExperienceStack>,
    new: Seq<ExperienceStack>,
    k: int,
    n: int,
)
    requires
        0 <= k <= n,
        skill_steps(m, skills, user_id, region, old, new, k).failed,
    ensures
        skill_steps(m, skills, user_id, region, old, new, n).failed,
    decreases n - k,
{
    if k < n {
        lemma_failed_stays(m, skills, user_id, region, old, new, k, n - 1);
    }
}

impl<R: Copy> ExperienceStateWorker<R> {
    /// One old skill of a player, with the matching new skill (see `skill_step`);
    /// false when the skill leaderboard had no room.
    fn apply_skill_change(
        &mut self,
        ranking: &mut RankingSystem,
        skills: &Vec<SkillEntry>,
        user_id: i64,
        region: R,
        old_stack: ExperienceStack,
        new_stack: Option<ExperienceStack>,
        events: &mut Vec<LiveUpdate>,
    ) -> (ok: bool)
        requires
            old(ranking).wf(),
        ensures
            final(ranking).wf(),
            final(ranking).time_played == old(ranking).time_played,
            final(ranking).time_signed_in == old(ranking).time_signed_in,
            final(self).batch_size == old(self).batch_size,
            model_of(*final(self), *final(ranking), final(events)@, !ok) == skill_step(
                model_of(*old(self), *old(ranking), old(events)@, false),
                skills@,
                user_id,
                region,
                old_stack,
                new_stack,
            ),
    {
        let ns = match new_stack {
            Some(ns) => ns,
            None => {
                return true;
            },
        };
        let old_level = experience_to_level(old_stack.quantity as i64);
        let new_level = experience_to_level(ns.quantity as i64);
        let info = find_skill(skills, old_stack.skill_id as i64);
        if let Some(k) = info {
            if old_level != new_level {
                events.push(
                    LiveUpdate::Level {
                        level: new_level as u64,
                        skill_name: skills[k].name.clone(),
                        user_id,
                    },
                );
            }
        }
        if ns.quantity > old_stack.quantity {
            self.stage_upsert(
                ExperienceRow {
                    entity_id: user_id,
                    skill_id: old_stack.skill_id,
                    experience: old_stack.quantity,
                    region,
                },
            );
            if let Some(k) = info {
                if skills[k].skill_category != 0 {
                    match ranking.record_skill_score(old_stack.skill_id as i64, user_id, ns.quantity as i64) {
                        Some(rank) => {
                            events.push(
                                LiveUpdate::Experience {
                                    level: new_level as u64,
                                    experience: ns.quantity as u64,
                                    rank: rank as u64,
                                    skill_name: skills[k].name.clone(),
                                    user_id,
                                },
                            );
                        },
                        None => {
                            return false;
                        },
                    }
                }
            }
        }
        true
    }

    /// A player's experience changed from `old_state` to `new_state` in the region `region` (see
    /// `experience_update`): the leaderboards and the batch change, and the
    /// notifications to send come back; `Err` when a leaderboard had no room for a
    /// change.
    pub fn handle_update(
        &mut self,
        ranking: &mut RankingSystem,
        skills: &Vec<SkillEntry>,
        time_signed_in: Option<i32>,
        new_state: &ExperienceState,
        region: R,
        old_state: &ExperienceState,
    ) -> (result: Result<Vec<LiveUpdate>, LeaderboardFull>)
        requires
            old(ranking).wf(),
            new_state.experience_stacks.len() <= MAX_STACKS,
            old_state.experience_stacks.len() <= MAX_STACKS,
        ensures
            final(ranking).wf(),
            final(ranking).time_played == old(ranking).time_played,
            final(ranking).time_signed_in == old(ranking).time_signed_in,
            final(self).batch_size == old(self).batch_size,
            ({
                let outcome = experience_update(
                    model_of(*old(self), *old(ranking), Seq::empty(), false),
                    skills@,
                    time_signed_in,
                    new_state.entity_id,
                    new_state.experience_stacks@,
                    region,
                    old_state.experience_stacks@,
                );
                match result {
                    Ok(events) => !outcome.failed && model_of(*final(self), *final(ranking), events@, false)
                        == outcome,
                    Err(_) => outcome.failed,
                }
            }),
    {
        let ghost m0 = model_of(*self, *ranking, Seq::empty(), false);
        let user_id = new_state.entity_id as i64;
        let (new_exp, new_level) = experience_totals(&new_state.experience_stacks);
        let (old_exp, old_level) = experience_totals(&old_state.experience_stacks);
        let mut events: Vec<LiveUpdate> = Vec::new();
        let ghost old_stacks = old_state.experience_stacks@;
        let ghost new_stacks = new_state.experience_stacks@;
        let mut i: usize = 0;
        while i < old_state.experience_stacks.len()
            invariant
                i <= old_state.experience_stacks.len(),
                old_stacks == old_state.experience_stacks@,
                new_stacks == new_state.experience_stacks@,
                m0 == model_of(*old(self), *old(ranking), Seq::empty(), false),
                user_id == new_state.entity_id as i64,
                ranking.wf(),
                ranking.time_played == old(ranking).time_played,
                ranking.time_signed_in == old(ranking).time_signed_in,
                self.batch_size == old(self).batch_size,
                model_of(*self, *ranking, events@, false) == skill_steps(
                    m0,
                    skills@,
                    user_id,
                    region,
                    old_stacks,
                    new_stacks,
                    i as int,
                ),
            decreases old_state.experience_stacks.len() - i,
        {
            let es = old_state.experience_stacks[i];
            let ns = find_stack(&new_state.experience_stacks, i, es.skill_id);
            if !self.apply_skill_change(ranking, skills, user_id, region, es, ns, &mut events) {
                proof {
                    lemma_failed_stays(
                        m0,
                        skills@,
                        user_id,
                        region,
                        old_stacks,
                        new_stacks,
                        i + 1,
                        old_stacks.len() as int,
                    );
                }
                return Err(LeaderboardFull);
            }
            i = i + 1;
        }
        if old_level != new_level {
            if !ranking.level_leaderboard.has_room() {
                return Err(LeaderboardFull);
            }
            ranking.level_leaderboard.update(user_id, new_level as i64);
        }
        if old_exp != new_exp {
            if !ranking.global_leaderboard.has_room() || !ranking.xp_per_hour.has_room() {
                return Err(LeaderboardFull);
            }
            ranking.global_leaderboard.update(user_id, new_exp);
            let per_hour = xp_per_hour(new_exp, time_signed_in);
            ranking.xp_per_hour.update(user_id, per_hour);
            let rank = match ranking.global_leaderboard.get_rank(user_id) {
                Some(r) => r,
                None => 0,
            };
            events.push(
                LiveUpdate::TotalExperience {
                    experience: new_exp as u64,
                    user_id,
                    experience_per_hour: per_hour as u64,
                    rank: rank as u64,
                },
            );
        }
        Ok(events)
    }
}

/// The model after the experience rows of `stacks` (the first `n`) are staged, each
/// with its own experience.
pub open spec fn staged_all<R>(
    m: ExperienceModel<R>,
    user_id: i64,
    region: R,
    stacks: Seq<ExperienceStack>,
    n: int,
) -> ExperienceModel<R>
    decreases n,
{
    if n <= 0 {
        m
    } else {
        staged(
            staged_all(m, user_id, region, stacks, n - 1),
            ExperienceRow {
                entity_id: user_id,
                skill_id: stacks[n - 1].skill_id,
                experience: stacks[n - 1].quantity,
                region,
            },
        )
    }
}

/// The model after a player's experience appears: every row is staged, the
/// experience per hour goes to its leaderboard, and a total experience above the one
/// known (or the first one) goes to the experience leaderboard, with the experience
/// per hour once more.
pub open spec fn experience_insert<R>(
    m: ExperienceModel<R>,
    time_signed_in: Option<i32>,
    entity_id: u64,
    stacks: Seq<ExperienceStack>,
    region: R,
) -> ExperienceModel<R> {
    let user_id = entity_id as i64;
    let m1 = staged_all(m, user_id, region, stacks, stacks.len() as int);
    let total = experience_sum(stacks, stacks.len() as int) as i64;
    let per_hour = experience_per_hour(total, time_signed_in);
    if !m1.per_hour.ranking.has_room() {
        ExperienceModel { failed: true, ..m1 }
    } else {
        let m2 = ExperienceModel { per_hour: updated_board(m1.per_hour, user_id, per_hour), ..m1 };
        let raise = !m.global.scores.contains_key(user_id) || m.global.scores[user_id] < total;
        if !raise {
            m2
        } else if m2.global.ranking.has_room() && m2.per_hour.ranking.has_room() {
            ExperienceModel {
                global: updated_board(m2.global, user_id, total),
                per_hour: updated_board(m2.per_hour, user_id, per_hour),
                ..m2
            }
        } else {
            ExperienceModel { failed: true, ..m2 }
        }
    }
}

/// The pending rows after one pending row of the player in each skill of `stacks`
/// (the first `n`) is dropped.
pub open spec fn dropped_all<R>(
    messages: Seq<ExperienceRow<R>>,
    user_id: i64,
    stacks: Seq<ExperienceStack>,
    n: int,
) -> Seq<ExperienceRow<R>>
    decreases n,
{
    if n <= 0 {
        messages
    } else {
        without_first(dropped_all(messages, user_id, stacks, n - 1), row_of::<R>(user_id, stacks[n - 1].skill_id))
    }
}

/// The keys of the player's rows in each skill of `stacks`, in order.
pub open spec fn stack_keys(user_id: i64, stacks: Seq<ExperienceStack>) -> Seq<(i64, i32)> {
    stacks.map_values(|s: ExperienceStack| (user_id, s.skill_id))
}

impl<R: Copy> ExperienceStateWorker<R> {
    /// A player's experience appears in the region `region` (see `experience_insert`);
    /// `Err` when a leaderboard had no room for a change.
    pub fn handle_insert(
        &mut self,
        ranking: &mut RankingSystem,
        time_signed_in: Option<i32>,
        new_state: &ExperienceState,
        region: R,
    ) -> (result: Result<(), LeaderboardFull>)
        requires
            old(ranking).wf(),
            new_state.experience_stacks.len() <= MAX_STACKS,
        ensures
            final(ranking).wf(),
            final(ranking).time_played == old(ranking).time_played,
            final(ranking).time_signed_in == old(ranking).time_signed_in,
            final(ranking).skills_view() == old(ranking).skills_view(),
            final(ranking).level_leaderboard == old(ranking).level_leaderboard,
            final(self).batch_size == old(self).batch_size,
            ({
                let outcome = experience_insert(
                    model_of(*old(self), *old(ranking), Seq::empty(), false),
                    time_signed_in,
                    new_state.entity_id,
                    new_state.experience_stacks@,
                    region,
                );
                match result {
                    Ok(_) => !outcome.failed && model_of(*final(self), *final(ranking), Seq::empty(), false)
                        == outcome,
                    Err(_) => outcome.failed,
                }
            }),
    {
        let ghost m0 = model_of(*self, *ranking, Seq::empty(), false);
        let user_id = new_state.entity_id as i64;
        let ghost stacks = new_state.experience_stacks@;
        let (total, _) = experience_totals(&new_state.experience_stacks);
        let mut i: usize = 0;
        while i < new_state.experience_stacks.len()
            invariant
                i <= new_state.experience_stacks.len(),
                stacks == new_state.experience_stacks@,
                m0 == model_of(*old(self), *old(ranking), Seq::empty(), false),
                user_id == new_state.entity_id as i64,
                *ranking == *old(ranking),
                self.batch_size == old(self).batch_size,
                model_of(*self, *ranking, Seq::empty(), false) == staged_all(
                    m0,
                    user_id,
                    region,
                    stacks,
                    i as int,
                ),
            decreases new_state.experience_stacks.len() - i,
        {
            let es = new_state.experience_stacks[i];
            self.stage_upsert(
                ExperienceRow { entity_id: user_id, skill_id: es.skill_id, experience: es.quantity, region },
            );
            i = i + 1;
        }
        let current = ranking.global_leaderboard.get_value(&user_id);
        let per_hour = xp_per_hour(total, time_signed_in);
        if !update_if_room(&mut ranking.xp_per_hour, user_id, per_hour) {
            return Err(LeaderboardFull);
        }
        let raise = match current {
            Some(known) => known < total,
            None => true,
        };
        if raise {
            if !ranking.global_leaderboard.has_room() || !ranking.xp_per_hour.has_room() {
                return Err(LeaderboardFull);
            }
            ranking.global_leaderboard.update(user_id, total);
            ranking.xp_per_hour.update(user_id, per_hour);
        }
        Ok(())
    }

    /// A player's experience disappears: nothing changes when the game moved the
    /// player to another region (reducer `transfer_player_delayed`); otherwise one
    /// pending row of the player in each skill is dropped, and the key of each skill
    /// is queued for deletion.
    pub fn handle_remove(&mut self, delete: &ExperienceState, reducer_name: Option<&str>)
        ensures
            final(self).batch_size == old(self).batch_size,
            match reducer_name {
                Some(r) if r@ == "transfer_player_delayed"@ => *final(self) == *old(self),
                _ => {
                    &&& final(self).messages@ == dropped_all(
                        old(self).messages@,
                        delete.entity_id as i64,
                        delete.experience_stacks@,
                        delete.experience_stacks@.len() as int,
                    )
                    &&& final(self).messages_delete@ == old(self).messages_delete@ + stack_keys(
                        delete.entity_id as i64,
                        delete.experience_stacks@,
                    )
                },
            },
    {
        if let Some(r) = reducer_name {
            if same_text(r, "transfer_player_delayed") {
                return;
            }
        }
        let user_id = delete.entity_id as i64;
        let ghost stacks = delete.experience_stacks@;
        let ghost deletes = self.messages_delete@;
        let mut i: usize = 0;
        while i < delete.experience_stacks.len()
            invariant
                i <= delete.experience_stacks.len(),
                stacks == delete.experience_stacks@,
                user_id == delete.entity_id as i64,
                self.batch_size == old(self).batch_size,
                self.messages_delete@ == old(self).messages_delete@,
                self.messages@ == dropped_all(old(self).messages@, user_id, stacks, i as int),
            decreases delete.experience_stacks.len() - i,
        {
            let skill_id = delete.experience_stacks[i].skill_id;
            self.drop_pending_row(user_id, skill_id);
            i = i + 1;
        }
        let mut j: usize = 0;
        while j < delete.experience_stacks.len()
            invariant
                j <= delete.experience_stacks.len(),
                stacks == delete.experience_stacks@,
                user_id == delete.entity_id as i64,
                self.batch_size == old(self).batch_size,
                self.messages@ == dropped_all(old(self).messages@, user_id, stacks, stacks.len() as int),
                self.messages_delete@ == old(self).messages_delete@ + stack_keys(user_id, stacks.take(j as int)),
            decreases delete.experience_stacks.len() - j,
        {
            let key = (user_id, delete.experience_stacks[j].skill_id);
            self.messages_delete.push(key);
            assert(stack_keys(user_id, stacks.take(j + 1)) =~= stack_keys(user_id, stacks.take(j as int)).push(key));
            j = j + 1;
        }
        assert(stacks.take(stacks.len() as int) =~= stacks);
    }
}

} // verus!
