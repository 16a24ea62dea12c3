//! The ranked lists the hub shows: the top of each leaderboard, the ranks of claim
//! members, and the player names filled in afterwards.
use crate::experience::SkillEntry;
use crate::leaderboard::{is_page, Leaderboard, LeaderboardEntry};
use crate::leaderboard_laws::lemma_page_unique;
use crate::ranking::{board_position, skill_boards_view, skill_boards_after, updated_board, BoardView};
use crate::leaderboard::rank_formula;
use crate::buckets::MAX_RANKED_XP;
use crate::levels::{experience_to_level, level_for};
use crate::ranking::RankingSystem;
use crate::sorting::{has_key, key_le, stable_sort, stably_sorted, SortKey};
use vstd::prelude::*;
use vstd::string::StringExecFns;

verus! {

/// A row of a skill list.
#[derive(Debug, PartialEq, Eq)]
pub struct LeaderboardSkill {
    pub player_id: i64,
    pub player_name: Option<String>,
    pub experience: i32,
    pub level: i32,
    pub rank: u64,
}

/// A row of the total level list.
#[derive(Debug, PartialEq, Eq)]
pub struct LeaderboardLevel {
    pub player_id: i64,
    pub player_name: Option<String>,
    pub level: u32,
    pub rank: u64,
}

/// A row of the experience per hour list.
#[derive(Debug, PartialEq, Eq)]
pub struct LeaderboardExperiencePerHour {
    pub player_id: i64,
    pub player_name: Option<String>,
    pub experience: i32,
    pub rank: u64,
}

/// A row of the total experience list.
#[derive(Debug, PartialEq, Eq)]
pub struct LeaderboardExperience {
    pub player_id: i64,
    pub player_name: Option<String>,
    pub experience: i64,
    pub experience_per_hour: i32,
    pub rank: u64,
}

/// A row of a time list.
#[derive(Debug, PartialEq, Eq)]
pub struct LeaderboardTime {
    pub player_id: i64,
    pub player_name: Option<String>,
    pub time_played: u64,
    pub rank: u64,
}

/// A row of any list.
#[derive(Debug, PartialEq, Eq)]
pub enum RankType {
    Skill(LeaderboardSkill),
    Level(LeaderboardLevel),
    ExperiencePerHour(LeaderboardExperiencePerHour),
    Experience(LeaderboardExperience),
    Time(LeaderboardTime),
}

/// The player of a row.
pub open spec fn row_player(row: RankType) -> i64 {
    match row {
        RankType::Skill(r) => r.player_id,
        RankType::Level(r) => r.player_id,
        RankType::ExperiencePerHour(r) => r.player_id,
        RankType::Experience(r) => r.player_id,
        RankType::Time(r) => r.player_id,
    }
}

/// The kinds of list built from (player, value) pairs, the rank being the position
/// from 1.
#[derive(Debug, Clone, Copy, PartialEq, Eq)]
pub enum ListKind {
    Skill,
    Level,
    ExperiencePerHour,
    Experience,
    Time,
}

/// The row at position `i` (from 0) of a list of kind `kind`, for the player `player_id`
/// with the value `value`, before names are filled in.
pub open spec fn numbered_row(kind: ListKind, i: int, player_id: i64, value: i64) -> RankType {
    let rank = (i + 1) as u64;
    match kind {
        ListKind::Skill => RankType::Skill(
            LeaderboardSkill {
                player_id,
                player_name: None,
                experience: value as i32,
                level: level_for(value as int),
                rank,
            },
        ),
        ListKind::Level => RankType::Level(
            LeaderboardLevel { player_id, player_name: None, level: value as u32, rank },
        ),
        ListKind::ExperiencePerHour => RankType::ExperiencePerHour(
            LeaderboardExperiencePerHour { player_id, player_name: None, experience: value as i32, rank },
        ),
        ListKind::Experience => RankType::Experience(
            LeaderboardExperience {
                player_id,
                player_name: None,
                experience: value,
                experience_per_hour: 0,
                rank,
            },
        ),
        ListKind::Time => RankType::Time(
            LeaderboardTime { player_id, player_name: None, time_played: value as u64, rank },
        ),
    }
}

/// The rows of a list of kind `kind` built from a leaderboard page, numbered from 1.
pub fn page_rows(kind: ListKind, entries: &Vec<LeaderboardEntry>) -> (rows: Vec<RankType>)
    ensures
        rows@.len() == entries@.len(),
        forall|i: int|
            0 <= i < entries@.len() ==> #[trigger] rows@[i] == numbered_row(
                kind,
                i,
                entries@[i].user_id,
                entries@[i].xp,
            ),
{
    let mut rows: Vec<RankType> = Vec::new();
    let mut i: usize = 0;
    while i < entries.len()
        invariant
            i <= entries.len(),
            rows@.len() == i,
            forall|j: int|
                0 <= j < i ==> #[trigger] rows@[j] == numbered_row(kind, j, entries@[j].user_id, entries@[j].xp),
        decreases entries.len() - i,
    {
        let e = entries[i];
        let row = numbered(kind, i, e.user_id, e.xp);
        rows.push(row);
        i = i + 1;
    }
    rows
}

/// The rows of a list of kind `kind` built from (player, value) pairs in ranked order,
/// numbered from 1.
pub fn value_rows(kind: ListKind, entries: &Vec<(i64, i64)>) -> (rows: Vec<RankType>)
    ensures
        rows@.len() == entries@.len(),
        forall|i: int|
            0 <= i < entries@.len() ==> #[trigger] rows@[i] == numbered_row(
                kind,
                i,
                entries@[i].0,
                entries@[i].1,
            ),
{
    let mut rows: Vec<RankType> = Vec::new();
    let mut i: usize = 0;
    while i < entries.len()
        invariant
            i <= entries.len(),
            rows@.len() == i,
            forall|j: int| 0 <= j < i ==> #[trigger] rows@[j] == numbered_row(kind, j, entries@[j].0, entries@[j].1),
        decreases entries.len() - i,
    {
        let (player_id, value) = entries[i];
        rows.push(numbered(kind, i, player_id, value));
        i = i + 1;
    }
    rows
}

fn numbered(kind: ListKind, i: usize, player_id: i64, value: i64) -> (row: RankType)
    requires
        i < usize::MAX,
    ensures
        row == numbered_row(kind, i as int, player_id, value),
{
    let rank = (i + 1) as u64;
    match kind {
        ListKind::Skill => RankType::Skill(
            LeaderboardSkill {
                player_id,
                player_name: None,
                experience: value as i32,
                level: experience_to_level(value),
                rank,
            },
        ),
        ListKind::Level => RankType::Level(
            LeaderboardLevel { player_id, player_name: None, level: value as u32, rank },
        ),
        ListKind::ExperiencePerHour => RankType::ExperiencePerHour(
            LeaderboardExperiencePerHour { player_id, player_name: None, experience: value as i32, rank },
        ),
        ListKind::Experience => RankType::Experience(
            LeaderboardExperience {
                player_id,
                player_name: None,
                experience: value,
                experience_per_hour: 0,
                rank,
            },
        ),
        ListKind::Time => RankType::Time(
            LeaderboardTime { player_id, player_name: None, time_played: value as u64, rank },
        ),
    }
}

/// `rows` lists the top 100 of `board` as rows of kind `kind`.
pub open spec fn top_rows(board: Leaderboard, kind: ListKind, rows: Seq<RankType>) -> bool {
    exists|entries: Seq<LeaderboardEntry>|
        #[trigger] is_page(board.ranking().ranks, 0, 100, entries) && rows.len() == entries.len() && forall|i: int|
            0 <= i < entries.len() ==> #[trigger] rows[i] == numbered_row(kind, i, entries[i].user_id, entries[i].xp)
}

/// The row at position `i` of the total experience list, with the player's
/// experience per hour.
pub open spec fn experience_row(i: int, player_id: i64, experience: i64, per_hour: i64) -> RankType {
    RankType::Experience(
        LeaderboardExperience {
            player_id,
            player_name: None,
            experience,
            experience_per_hour: per_hour as i32,
            rank: (i + 1) as u64,
        },
    )
}

/// `rows` lists the top 100 of the total experience leaderboard, each with the
/// player's score on the experience per hour leaderboard.
pub open spec fn top_experience_rows(global: Leaderboard, per_hour: Leaderboard, rows: Seq<RankType>) -> bool {
    exists|entries: Seq<LeaderboardEntry>|
        #[trigger] is_page(global.ranking().ranks, 0, 100, entries) && rows.len() == entries.len() && forall|i: int|
            0 <= i < entries.len() ==> per_hour.scores_view().contains_key(entries[i].user_id) && #[trigger] rows[i]
                == experience_row(i, entries[i].user_id, entries[i].xp, per_hour.scores_view()[entries[i].user_id])
}

/// The top 100 of a leaderboard as rows of kind `kind`.
pub fn top_of(board: &Leaderboard, kind: ListKind) -> (rows: Vec<RankType>)
    requires
        board.wf(),
    ensures
        top_rows(*board, kind, rows@),
{
    let entries = board.get_range(0, 100);
    let rows = page_rows(kind, &entries);
    assert(is_page(board.ranking().ranks, 0, 100, entries@));
    rows
}

/// The top 100 of the total experience leaderboard, each with the player's experience
/// per hour; `None` when a listed player has no experience per hour.
pub fn top_experience(global: &Leaderboard, per_hour: &Leaderboard) -> (rows: Option<Vec<RankType>>)
    requires
        global.wf(),
    ensures
        match rows {
            Some(r) => top_experience_rows(*global, *per_hour, r@),
            None => forall|entries: Seq<LeaderboardEntry>|
                #[trigger] is_page(global.ranking().ranks, 0, 100, entries) ==> exists|i: int|
                    0 <= i < entries.len() && !per_hour.scores_view().contains_key(#[trigger] entries[i].user_id),
        },
{
    let entries = global.get_range(0, 100);
    proof {
        assert(is_page(global.ranking().ranks, 0, 100, entries@));
    }
    let mut rows: Vec<RankType> = Vec::new();
    let mut i: usize = 0;
    while i < entries.len()
        invariant
            i <= entries.len(),
            global.wf(),
            is_page(global.ranking().ranks, 0, 100, entries@),
            rows@.len() == i,
            forall|j: int|
                0 <= j < i ==> per_hour.scores_view().contains_key(entries@[j].user_id) && #[trigger] rows@[j]
                    == experience_row(j, entries@[j].user_id, entries@[j].xp, per_hour.scores_view()[entries@[j].user_id]),
        decreases entries.len() - i,
    {
        let e = entries[i];
        let score = match per_hour.get_value(&e.user_id) {
            Some(v) => v,
            None => {
                proof {
                    assert forall|other: Seq<LeaderboardEntry>|
                        #[trigger] is_page(global.ranking().ranks, 0, 100, other) implies exists|k: int|
                            0 <= k < other.len() && !per_hour.scores_view().contains_key(#[trigger] other[k].user_id) by {
                        lemma_page_unique(global.ranking().ranks, 0, 100, other, entries@);
                        assert(!per_hour.scores_view().contains_key(other[i as int].user_id));
                    }
                }
                return None;
            },
        };
        rows.push(
            RankType::Experience(
                LeaderboardExperience {
                    player_id: e.user_id,
                    player_name: None,
                    experience: e.xp,
                    experience_per_hour: score as i32,
                    rank: (i + 1) as u64,
                },
            ),
        );
        i = i + 1;
    }
    Some(rows)
}

/// A named list.
#[derive(Debug, PartialEq, Eq)]
pub struct NamedRows {
    pub name: String,
    pub rows: Vec<RankType>,
}

/// The skills listed: those of a category other than 0, in order.
pub open spec fn listed_skills(skills: Seq<SkillEntry>) -> Seq<SkillEntry> {
    skills.filter(|s: SkillEntry| s.skill_category != 0)
}

/// The leaderboard of a skill, when there is one.
pub open spec fn skill_leaderboard(ranking: RankingSystem, skill_id: i64) -> Option<Leaderboard> {
    match board_position(ranking.skills_view(), skill_id) {
        Some(p) => Some(ranking.skill_leaderboards@[p].board),
        None => None,
    }
}

/// The first five lists of the top page: time played, time online, experience per
/// hour, total level and total experience.
pub open spec fn fixed_lists(ranking: RankingSystem, lists: Seq<NamedRows>) -> bool {
    &&& lists.len() >= 5
    &&& lists[0].name@ == "Time Played"@ && top_rows(ranking.time_played, ListKind::Time, lists[0].rows@)
    &&& lists[1].name@ == "Time Online"@ && top_rows(ranking.time_signed_in, ListKind::Time, lists[1].rows@)
    &&& lists[2].name@ == "Experience Per Hour"@ && top_rows(
        ranking.xp_per_hour,
        ListKind::ExperiencePerHour,
        lists[2].rows@,
    )
    &&& lists[3].name@ == "Level"@ && top_rows(ranking.level_leaderboard, ListKind::Level, lists[3].rows@)
    &&& lists[4].name@ == "Experience"@ && top_experience_rows(
        ranking.global_leaderboard,
        ranking.xp_per_hour,
        lists[4].rows@,
    )
}

/// `lists` are the lists of the top page: time played, time online, experience per
/// hour, total level and total experience, then one per listed skill.
pub open spec fn top_100_lists(ranking: RankingSystem, skills: Seq<SkillEntry>, lists: Seq<NamedRows>) -> bool {
    let listed = listed_skills(skills);
    &&& lists.len() == 5 + listed.len()
    &&& fixed_lists(ranking, lists)
    &&& forall|k: int| 0 <= k < listed.len() ==> #[trigger] skill_list(ranking, listed[k], lists[5 + k])
}

/// `list` is the list of the skill `skill`: its name, and the top 100 of its
/// leaderboard, which exists.
pub open spec fn skill_list(ranking: RankingSystem, skill: SkillEntry, list: NamedRows) -> bool {
    &&& list.name@ == skill.name@
    &&& skill_leaderboard(ranking, skill.skill_id) matches Some(board) && top_rows(
        board,
        ListKind::Skill,
        list.rows@,
    )
}

/// The top page cannot be built: a player of the total experience top 100 has no
/// experience per hour, or a listed skill has no leaderboard.
pub open spec fn top_100_fails(ranking: RankingSystem, skills: Seq<SkillEntry>) -> bool {
    ||| (forall|entries: Seq<LeaderboardEntry>|
        #[trigger] is_page(ranking.global_leaderboard.ranking().ranks, 0, 100, entries) ==> exists|i: int|
            0 <= i < entries.len() && !ranking.xp_per_hour.scores_view().contains_key(
                #[trigger] entries[i].user_id,
            ))
    ||| exists|k: int|
        0 <= k < listed_skills(skills).len() && skill_leaderboard(ranking, (#[trigger] listed_skills(skills)[k]).skill_id)
            is None
}

fn named(name: &str, rows: Vec<RankType>) -> (list: NamedRows)
    ensures
        list.name@ == name@,
        list.rows == rows,
{
    NamedRows { name: String::from_str(name), rows }
}

/// The lists of the top page (see `top_100_lists`); `None` where the page cannot be
/// built (see `top_100_fails`).
pub fn get_top_100(ranking: &RankingSystem, skills: &Vec<SkillEntry>) -> (lists: Option<Vec<NamedRows>>)
    requires
        ranking.wf(),
    ensures
        match lists {
            Some(l) => top_100_lists(*ranking, skills@, l@),
            None => top_100_fails(*ranking, skills@),
        },
{
    let mut lists: Vec<NamedRows> = Vec::new();
    lists.push(named("Time Played", top_of(&ranking.time_played, ListKind::Time)));
    lists.push(named("Time Online", top_of(&ranking.time_signed_in, ListKind::Time)));
    lists.push(named("Experience Per Hour", top_of(&ranking.xp_per_hour, ListKind::ExperiencePerHour)));
    lists.push(named("Level", top_of(&ranking.level_leaderboard, ListKind::Level)));
    let experience = match top_experience(&ranking.global_leaderboard, &ranking.xp_per_hour) {
        Some(rows) => rows,
        None => {
            return None;
        },
    };
    lists.push(named("Experience", experience));
    let ghost listed = listed_skills(skills@);
    let ghost fixed = lists@;
    let mut k: usize = 0;
    let ghost mut shown: int = 0;
    while k < skills.len()
        invariant
            k <= skills.len(),
            ranking.wf(),
            listed == listed_skills(skills@),
            0 <= shown <= listed.len(),
            listed_skills(skills@.take(k as int)) == listed.take(shown),
            lists@.len() == 5 + shown,
            fixed_lists(*ranking, lists@),
            forall|j: int| 0 <= j < shown ==> #[trigger] skill_list(*ranking, listed[j], lists@[5 + j]),
        decreases skills.len() - k,
    {
        proof {
            assert(skills@.take(k + 1) =~= skills@.take(k as int).push(skills@[k as int]));
            skills@.take(k as int).lemma_filter_push(skills@[k as int], |s: SkillEntry| s.skill_category != 0);
            lemma_listed_prefix(skills@, k as int + 1);
        }
        let skill = &skills[k];
        if skill.skill_category != 0 {
            proof {
                let lk1 = listed_skills(skills@.take(k + 1));
                assert(lk1 == listed.take(shown).push(skills@[k as int]));
                assert(listed.take(shown + 1) == lk1);
                assert(listed.take(shown + 1)[shown] == listed[shown]);
                assert(listed[shown] == skills@[k as int]);
            }
            match ranking.skill_position(skill.skill_id) {
                Some(p) => {
                    let rows = top_of(&ranking.skill_leaderboards[p].board, ListKind::Skill);
                    let ghost before = lists@;
                    lists.push(NamedRows { name: skill.name.clone(), rows });
                    proof {
                        assert(lists@[5 + shown] == NamedRows { name: skill.name, rows });
                        assert(skill_leaderboard(*ranking, skill.skill_id) == Some(
                            ranking.skill_leaderboards@[p as int].board,
                        ));
                        assert forall|j: int| 0 <= j < 5 + shown implies lists@[j] == before[j] by {}
                        let old_shown = shown;
                        shown = shown + 1;
                        assert forall|j: int| 0 <= j < shown implies #[trigger] skill_list(*ranking, listed[j], lists@[5 + j]) by {
                            if j < old_shown {
                                assert(lists@[5 + j] == before[5 + j]);
                                assert(skill_list(*ranking, listed[j], before[5 + j]));
                            } else {
                                assert(j == old_shown);
                                assert(listed[j] == skills@[k as int]);
                            }
                        }
                    }
                },
                None => {
                    proof {
                        assert(skill_leaderboard(*ranking, listed[shown].skill_id) is None);
                    }
                    return None;
                },
            }
        }
        k = k + 1;
    }
    proof {
        assert(skills@.take(k as int) =~= skills@);
        assert(listed.take(shown) == listed);
        assert(shown == listed.len());
    }
    Some(lists)
}

proof fn lemma_listed_prefix(skills: Seq<SkillEntry>, n: int)
    requires
        0 <= n <= skills.len(),
    ensures
        listed_skills(skills.take(n)).len() <= listed_skills(skills).len(),
        listed_skills(skills).take(listed_skills(skills.take(n)).len() as int) == listed_skills(skills.take(n)),
{
    let f = |s: SkillEntry| s.skill_category != 0;
    assert(skills =~= skills.take(n) + skills.skip(n));
    Seq::filter_distributes_over_add(skills.take(n), skills.skip(n), f);
    assert(listed_skills(skills).take(listed_skills(skills.take(n)).len() as int) =~= listed_skills(skills.take(n)));
}

/// The players of the rows of all lists.
pub open spec fn listed_players(lists: Seq<NamedRows>) -> Set<i64> {
    Set::new(
        |p: i64|
            exists|l: int, r: int|
                0 <= l < lists.len() && 0 <= r < lists[l].rows@.len() && row_player(
                    #[trigger] lists[l].rows@[r],
                ) == p,
    )
}

fn player_of(row: &RankType) -> (player: i64)
    ensures
        player == row_player(*row),
{
    match row {
        RankType::Skill(r) => r.player_id,
        RankType::Level(r) => r.player_id,
        RankType::ExperiencePerHour(r) => r.player_id,
        RankType::Experience(r) => r.player_id,
        RankType::Time(r) => r.player_id,
    }
}

/// The players of all lists, in increasing order, each once.
pub fn player_ids(lists: &Vec<NamedRows>) -> (ids: Vec<i64>)
    ensures
        forall|a: int, b: int| 0 <= a < b < ids@.len() ==> ids@[a] < ids@[b],
        ids@.to_set() == listed_players(lists@),
{
    let mut all: Vec<i64> = Vec::new();
    let mut l: usize = 0;
    while l < lists.len()
        invariant
            l <= lists.len(),
            forall|p: i64|
                #[trigger] all@.contains(p) <==> exists|m: int, r: int|
                    0 <= m < l && 0 <= r < lists@[m].rows@.len() && row_player(#[trigger] lists@[m].rows@[r]) == p,
        decreases lists.len() - l,
    {
        let rows = &lists[l].rows;
        let ghost before = all@;
        let mut r: usize = 0;
        while r < rows.len()
            invariant
                r <= rows.len(),
                *rows == lists@[l as int].rows,
                forall|p: i64|
                    #[trigger] all@.contains(p) <==> (before.contains(p) || exists|q: int|
                        0 <= q < r && row_player(#[trigger] rows@[q]) == p),
            decreases rows.len() - r,
        {
            let p = player_of(&rows[r]);
            let ghost prev = all@;
            all.push(p);
            proof {
                assert forall|x: i64| #[trigger] all@.contains(x) <==> (prev.contains(x) || x == p) by {
                    if all@.contains(x) {
                        let m = choose|m: int| 0 <= m < all@.len() && all@[m] == x;
                        if m < prev.len() {
                            assert(prev[m] == x);
                        }
                    }
                    if prev.contains(x) {
                        let m = choose|m: int| 0 <= m < prev.len() && prev[m] == x;
                        assert(all@[m] == x);
                    }
                    if x == p {
                        assert(all@[all@.len() - 1] == x);
                    }
                }
            }
            r = r + 1;
        }
        proof {
            assert forall|p: i64| #[trigger] all@.contains(p) <==> exists|m: int, q: int|
                0 <= m < l + 1 && 0 <= q < lists@[m].rows@.len() && row_player(#[trigger] lists@[m].rows@[q]) == p by {
                if all@.contains(p) && !before.contains(p) {
                    let q = choose|q: int| 0 <= q < r && row_player(#[trigger] rows@[q]) == p;
                    assert(row_player(lists@[l as int].rows@[q]) == p);
                }
                if exists|m: int, q: int|
                    0 <= m < l + 1 && 0 <= q < lists@[m].rows@.len() && row_player(#[trigger] lists@[m].rows@[q]) == p {
                    let (m, q) = choose|m: int, q: int|
                        0 <= m < l + 1 && 0 <= q < lists@[m].rows@.len() && row_player(#[trigger] lists@[m].rows@[q]) == p;
                    if m == l {
                        assert(row_player(rows@[q]) == p);
                    }
                }
            }
        }
        l = l + 1;
    }
    let ids = sort_dedup(all);
    proof {
        assert(ids@.to_set() =~= listed_players(lists@)) by {
            assert forall|p: i64| ids@.to_set().contains(p) <==> listed_players(lists@).contains(p) by {
                assert(ids@.contains(p) <==> all@.contains(p));
            }
        }
    }
    ids
}

/// The values of `all` in increasing order, each once.
pub fn sort_dedup(all: Vec<i64>) -> (ids: Vec<i64>)
    ensures
        forall|a: int, b: int| 0 <= a < b < ids@.len() ==> ids@[a] < ids@[b],
        forall|x: i64| #[trigger] ids@.contains(x) <==> all@.contains(x),
{
    let ghost input = all@;
    let sorted = stable_sort(all);
    let mut ids: Vec<i64> = Vec::new();
    let mut i: usize = 0;
    proof {
        lemma_sorted_same_elements(all@, sorted@);
    }
    while i < sorted.len()
        invariant
            i <= sorted.len(),
            forall|a: int, b: int| 0 <= a < b < sorted@.len() ==> sorted@[a] <= sorted@[b],
            forall|a: int, b: int| 0 <= a < b < ids@.len() ==> ids@[a] < ids@[b],
            ids@.len() > 0 ==> i > 0 && ids@.last() == sorted@[i - 1],
            i > 0 ==> ids@.len() > 0,
            forall|x: i64| #[trigger] ids@.contains(x) <==> sorted@.take(i as int).contains(x),
        decreases sorted.len() - i,
    {
        let x = sorted[i];
        let ghost prev = ids@;
        proof {
            assert(sorted@.take(i + 1) =~= sorted@.take(i as int).push(x));
        }
        if ids.len() == 0 || ids[ids.len() - 1] < x {
            ids.push(x);
        }
        proof {
            assert forall|y: i64| #[trigger] ids@.contains(y) <==> sorted@.take(i + 1).contains(y) by {
                if sorted@.take(i + 1).contains(y) {
                    let m = choose|m: int| 0 <= m < i + 1 && #[trigger] sorted@.take(i + 1)[m] == y;
                    if m < i {
                        assert(sorted@.take(i as int)[m] == y);
                        assert(prev.contains(y));
                        let n = choose|n: int| 0 <= n < prev.len() && prev[n] == y;
                        assert(ids@[n] == y);
                    } else if ids@.len() > prev.len() {
                        assert(ids@[ids@.len() - 1] == y);
                    } else {
                        assert(prev.last() == sorted@[i - 1]);
                        assert(sorted@[i - 1] <= x);
                        assert(prev[prev.len() - 1] == y);
                    }
                }
                if ids@.contains(y) {
                    let n = choose|n: int| 0 <= n < ids@.len() && ids@[n] == y;
                    if n < prev.len() {
                        assert(prev.contains(y));
                        let m = choose|m: int| 0 <= m < i && #[trigger] sorted@.take(i as int)[m] == y;
                        assert(sorted@.take(i + 1)[m] == y);
                    } else {
                        assert(sorted@.take(i + 1)[i as int] == y);
                    }
                }
            }
        }
        i = i + 1;
    }
    proof {
        assert(sorted@.take(i as int) =~= sorted@);
        assert forall|x: i64| #[trigger] ids@.contains(x) <==> input.contains(x) by {
            assert(ids@.contains(x) <==> sorted@.contains(x));
        }
    }
    ids
}

proof fn lemma_sorted_same_elements(input: Seq<i64>, output: Seq<i64>)
    requires
        stably_sorted(input, output),
    ensures
        forall|x: i64| #[trigger] output.contains(x) <==> input.contains(x),
        forall|a: int, b: int| 0 <= a < b < output.len() ==> output[a] <= output[b],
{
    assert forall|x: i64| #[trigger] output.contains(x) <==> input.contains(x) by {
        let k = (x as int, 0int, 0int);
        assert(output.filter(has_key::<i64>(k)) == input.filter(has_key::<i64>(k)));
        if output.contains(x) {
            let m = choose|m: int| 0 <= m < output.len() && output[m] == x;
            output.lemma_filter_contains(has_key::<i64>(k), m);
            input.lemma_filter_contains_rev(has_key::<i64>(k), x);
        }
        if input.contains(x) {
            let m = choose|m: int| 0 <= m < input.len() && input[m] == x;
            input.lemma_filter_contains(has_key::<i64>(k), m);
            output.lemma_filter_contains_rev(has_key::<i64>(k), x);
        }
    }
    assert forall|a: int, b: int| 0 <= a < b < output.len() implies output[a] <= output[b] by {
        assert(key_le(output[a].sort_key(), output[b].sort_key()));
    }
}

/// The name of `player`: that of the last entry of `names` for the player.
pub open spec fn name_of(names: Seq<(i64, String)>, player: i64) -> Option<String>
    decreases names.len(),
{
    if names.len() == 0 {
        None
    } else if names.last().0 == player {
        Some(names.last().1)
    } else {
        name_of(names.drop_last(), player)
    }
}

/// `row` with the player name `name`.
pub open spec fn with_name(row: RankType, name: Option<String>) -> RankType {
    match row {
        RankType::Skill(r) => RankType::Skill(LeaderboardSkill { player_name: name, ..r }),
        RankType::Level(r) => RankType::Level(LeaderboardLevel { player_name: name, ..r }),
        RankType::ExperiencePerHour(r) => RankType::ExperiencePerHour(
            LeaderboardExperiencePerHour { player_name: name, ..r },
        ),
        RankType::Experience(r) => RankType::Experience(LeaderboardExperience { player_name: name, ..r }),
        RankType::Time(r) => RankType::Time(LeaderboardTime { player_name: name, ..r }),
    }
}

pub(crate) fn find_name(names: &Vec<(i64, String)>, player: i64) -> (name: Option<String>)
    ensures
        name == name_of(names@, player),
{
    let mut i: usize = names.len();
    assert(names@.take(i as int) =~= names@);
    while i > 0
        invariant
            i <= names.len(),
            name_of(names@, player) == name_of(names@.take(i as int), player),
        decreases i,
    {
        assert(names@.take(i as int).drop_last() =~= names@.take(i - 1));
        if names[i - 1].0 == player {
            return Some(names[i - 1].1.clone());
        }
        i = i - 1;
    }
    None
}

fn set_name(row: RankType, name: Option<String>) -> (named: RankType)
    ensures
        named == with_name(row, name),
{
    match row {
        RankType::Skill(r) => RankType::Skill(LeaderboardSkill { player_name: name, ..r }),
        RankType::Level(r) => RankType::Level(LeaderboardLevel { player_name: name, ..r }),
        RankType::ExperiencePerHour(r) => RankType::ExperiencePerHour(
            LeaderboardExperiencePerHour { player_name: name, ..r },
        ),
        RankType::Experience(r) => RankType::Experience(LeaderboardExperience { player_name: name, ..r }),
        RankType::Time(r) => RankType::Time(LeaderboardTime { player_name: name, ..r }),
    }
}

/// Each row of `rows` with the name of its player.
pub fn rows_with_names(rows: Vec<RankType>, names: &Vec<(i64, String)>) -> (named: Vec<RankType>)
    ensures
        named@.len() == rows@.len(),
        forall|i: int|
            0 <= i < rows@.len() ==> #[trigger] named@[i] == with_name(
                rows@[i],
                name_of(names@, row_player(rows@[i])),
            ),
{
    let ghost all = rows@;
    let mut rest = rows;
    let mut named: Vec<RankType> = Vec::new();
    let ghost mut i: int = 0;
    assert(all.skip(0) =~= all);
    while rest.len() > 0
        invariant
            0 <= i <= all.len(),
            rest@ == all.skip(i),
            named@.len() == i,
            forall|j: int|
                0 <= j < i ==> #[trigger] named@[j] == with_name(all[j], name_of(names@, row_player(all[j]))),
        decreases rest.len(),
    {
        let row = rest.remove(0);
        proof {
            assert(row == all[i]);
            assert(rest@ =~= all.skip(i + 1));
        }
        let player = player_of(&row);
        let name = find_name(names, player);
        named.push(set_name(row, name));
        proof {
            i = i + 1;
        }
    }
    named
}

/// Each row of each list with the name of its player.
pub fn with_player_names(lists: Vec<NamedRows>, names: &Vec<(i64, String)>) -> (named: Vec<NamedRows>)
    ensures
        named@.len() == lists@.len(),
        forall|l: int|
            0 <= l < lists@.len() ==> {
                &&& (#[trigger] named@[l]).name == lists@[l].name
                &&& named@[l].rows@.len() == lists@[l].rows@.len()
                &&& forall|r: int|
                    0 <= r < lists@[l].rows@.len() ==> #[trigger] named@[l].rows@[r] == with_name(
                        lists@[l].rows@[r],
                        name_of(names@, row_player(lists@[l].rows@[r])),
                    )
            },
{
    let ghost all = lists@;
    let mut rest = lists;
    let mut named: Vec<NamedRows> = Vec::new();
    let ghost mut i: int = 0;
    assert(all.skip(0) =~= all);
    while rest.len() > 0
        invariant
            0 <= i <= all.len(),
            rest@ == all.skip(i),
            named@.len() == i,
            forall|l: int|
                0 <= l < i ==> {
                    &&& (#[trigger] named@[l]).name == all[l].name
                    &&& named@[l].rows@.len() == all[l].rows@.len()
                    &&& forall|r: int|
                        0 <= r < all[l].rows@.len() ==> #[trigger] named@[l].rows@[r] == with_name(
                            all[l].rows@[r],
                            name_of(names@, row_player(all[l].rows@[r])),
                        )
                },
        decreases rest.len(),
    {
        let list = rest.remove(0);
        proof {
            assert(list == all[i]);
            assert(rest@ =~= all.skip(i + 1));
        }
        let NamedRows { name, rows } = list;
        let rows = rows_with_names(rows, names);
        named.push(NamedRows { name, rows });
        proof {
            i = i + 1;
        }
    }
    named
}

/// The experience read from storage for `skill_id`: that of the first entry for the
/// skill, or none.
pub open spec fn looked_up_experience(looked_up: Seq<(i64, Option<i32>)>, skill_id: i64) -> Option<i32>
    decreases looked_up.len(),
{
    if looked_up.len() == 0 {
        None
    } else if looked_up[0].0 == skill_id {
        looked_up[0].1
    } else {
        looked_up_experience(looked_up.drop_first(), skill_id)
    }
}

/// The skill row of `player_id` with the experience `experience` and the rank `rank`.
pub open spec fn player_skill_row(player_id: i64, experience: i64, rank: nat) -> RankType {
    RankType::Skill(
        LeaderboardSkill {
            player_id,
            player_name: None,
            experience: experience as i32,
            level: level_for(experience as int),
            rank: (rank as usize) as u64,
        },
    )
}

/// The skill leaderboards and the row after one listed skill of the player's
/// summary: the player's score and rank where the leaderboard has a score for them;
/// else the experience read from storage, which the leaderboard takes, with the rank
/// it then gives; else experience 0 at rank 0. `None` when the skill has no
/// leaderboard, the score is too large to rank, or the leaderboard has no room.
pub open spec fn player_skill_step(
    boards: Seq<(i64, BoardView)>,
    skill: SkillEntry,
    player_id: i64,
    looked_up: Seq<(i64, Option<i32>)>,
) -> Option<(Seq<(i64, BoardView)>, RankType)> {
    match board_position(boards, skill.skill_id) {
        None => None,
        Some(p) => {
            let b = boards[p].1;
            if b.scores.contains_key(player_id) {
                let xp = b.scores[player_id];
                if xp > MAX_RANKED_XP {
                    None
                } else {
                    Some((boards, player_skill_row(player_id, xp, rank_formula(b.ranking, xp, player_id))))
                }
            } else {
                match looked_up_experience(looked_up, skill.skill_id) {
                    Some(exp) => if b.ranking.has_room() {
                        let after = skill_boards_after(boards, skill.skill_id, player_id, exp as i64);
                        Some(
                            (
                                after,
                                player_skill_row(
                                    player_id,
                                    exp as i64,
                                    rank_formula(
                                        updated_board(b, player_id, exp as i64).ranking,
                                        exp as i64,
                                        player_id,
                                    ),
                                ),
                            ),
                        )
                    } else {
                        None
                    },
                    None => Some((boards, player_skill_row(player_id, 0, 0))),
                }
            }
        },
    }
}

/// The skill leaderboards and the rows after the first `n` listed skills.
pub open spec fn player_skill_steps(
    boards: Seq<(i64, BoardView)>,
    listed: Seq<SkillEntry>,
    player_id: i64,
    looked_up: Seq<(i64, Option<i32>)>,
    n: int,
) -> Option<(Seq<(i64, BoardView)>, Seq<RankType>)>
    decreases n,
{
    if n <= 0 {
        Some((boards, Seq::empty()))
    } else {
        match player_skill_steps(boards, listed, player_id, looked_up, n - 1) {
            None => None,
            Some((bs, rows)) => match player_skill_step(bs, listed[n - 1], player_id, looked_up) {
                None => None,
                Some((bs2, row)) => Some((bs2, rows.push(row))),
            },
        }
    }
}

fn find_looked_up(looked_up: &Vec<(i64, Option<i32>)>, skill_id: i64) -> (found: Option<i32>)
    ensures
        found == looked_up_experience(looked_up@, skill_id),
{
    let mut i: usize = 0;
    assert(looked_up@.skip(0) =~= looked_up@);
    while i < looked_up.len()
        invariant
            i <= looked_up.len(),
            looked_up_experience(looked_up@, skill_id) == looked_up_experience(looked_up@.skip(i as int), skill_id),
        decreases looked_up.len() - i,
    {
        assert(looked_up@.skip(i as int).drop_first() =~= looked_up@.skip(i + 1));
        assert(looked_up@.skip(i as int)[0] == looked_up@[i as int]);
        if looked_up[i].0 == skill_id {
            return looked_up[i].1;
        }
        i = i + 1;
    }
    None
}

fn skill_row(player_id: i64, experience: i64, rank: usize) -> (row: RankType)
    ensures
        row == player_skill_row(player_id, experience, rank as nat),
{
    RankType::Skill(
        LeaderboardSkill {
            player_id,
            player_name: None,
            experience: experience as i32,
            level: experience_to_level(experience),
            rank: rank as u64,
        },
    )
}

/// The total experience row of a player's summary: the player's total experience
/// and rank, each 0 when the player has none.
pub open spec fn player_experience_row(global: BoardView, player_id: i64) -> RankType {
    let known = global.scores.contains_key(player_id);
    let experience = if known { global.scores[player_id] } else { 0 };
    let rank: nat = if known { rank_formula(global.ranking, experience, player_id) } else { 0 };
    RankType::Experience(
        LeaderboardExperience {
            player_id,
            player_name: None,
            experience,
            experience_per_hour: 0,
            rank: (rank as usize) as u64,
        },
    )
}

/// The total level row of a player's summary.
pub open spec fn player_level_row(level: BoardView, player_id: i64) -> RankType {
    let l = level.scores[player_id];
    RankType::Level(
        LeaderboardLevel {
            player_id,
            player_name: None,
            level: l as u32,
            rank: (rank_formula(level.ranking, l, player_id) as usize) as u64,
        },
    )
}

/// A named row.
#[derive(Debug, PartialEq, Eq)]
pub struct NamedRow {
    pub name: String,
    pub row: RankType,
}

/// Why a player's summary has no rows: the player is not known, or the leaderboards
/// cannot rank them (a listed skill has no leaderboard, a leaderboard has no room, a
/// score is too large to rank, or the player has no total level).
#[derive(Debug, Clone, Copy, PartialEq, Eq, Structural)]
pub enum PlayerSummaryError {
    NotFound,
    Unranked,
}

/// The summary of one player: `Err(NotFound)` exactly when the player is not
/// `known`; otherwise a row per listed skill (see `player_skill_step`), then the total
/// experience row and the total level row, or `Err(Unranked)` where the leaderboards
/// cannot rank the player (see `PlayerSummaryError`).
pub fn player_leaderboard(
    ranking: &mut RankingSystem,
    skills: &Vec<SkillEntry>,
    player_id: i64,
    known: bool,
    looked_up: &Vec<(i64, Option<i32>)>,
) -> (rows: Result<Vec<NamedRow>, PlayerSummaryError>)
    requires
        old(ranking).wf(),
    ensures
        final(ranking).wf(),
        rows == Err::<Vec<NamedRow>, PlayerSummaryError>(PlayerSummaryError::NotFound) <==> !known,
        !known ==> *final(ranking) == *old(ranking),
        final(ranking).global_leaderboard == old(ranking).global_leaderboard,
        final(ranking).level_leaderboard == old(ranking).level_leaderboard,
        final(ranking).xp_per_hour == old(ranking).xp_per_hour,
        final(ranking).time_played == old(ranking).time_played,
        final(ranking).time_signed_in == old(ranking).time_signed_in,
        ({
            let listed = listed_skills(skills@);
            let steps = player_skill_steps(old(ranking).skills_view(), listed, player_id, looked_up@, listed.len() as int);
            let global = crate::ranking::board_of(old(ranking).global_leaderboard);
            let level = crate::ranking::board_of(old(ranking).level_leaderboard);
            let ok = steps is Some && (global.scores.contains_key(player_id) ==> global.scores[player_id] <= MAX_RANKED_XP)
                && level.scores.contains_key(player_id) && level.scores[player_id] <= MAX_RANKED_XP;
            known ==> match rows {
                Err(e) => !ok && e == PlayerSummaryError::Unranked,
                Ok(r) => {
                    &&& ok
                    &&& final(ranking).skills_view() == steps.unwrap().0
                    &&& r@.len() == listed.len() + 2
                    &&& forall|k: int|
                        0 <= k < listed.len() ==> (#[trigger] r@[k]).name@ == listed[k].name@ && r@[k].row
                            == steps.unwrap().1[k]
                    &&& r@[listed.len() as int].name@ == "Experience"@
                    &&& r@[listed.len() as int].row == player_experience_row(global, player_id)
                    &&& r@[listed.len() as int + 1].name@ == "Level"@
                    &&& r@[listed.len() as int + 1].row == player_level_row(level, player_id)
                },
            }
        }),
{
    if !known {
        return Err(PlayerSummaryError::NotFound);
    }
    let ghost listed = listed_skills(skills@);
    let ghost boards0 = ranking.skills_view();
    let mut rows: Vec<NamedRow> = Vec::new();
    let mut k: usize = 0;
    let ghost mut shown: int = 0;
    while k < skills.len()
        invariant
            k <= skills.len(),
            ranking.wf(),
            ranking.global_leaderboard == old(ranking).global_leaderboard,
            ranking.level_leaderboard == old(ranking).level_leaderboard,
            ranking.xp_per_hour == old(ranking).xp_per_hour,
            ranking.time_played == old(ranking).time_played,
            ranking.time_signed_in == old(ranking).time_signed_in,
            known,
            boards0 == old(ranking).skills_view(),
            listed == listed_skills(skills@),
            0 <= shown <= listed.len(),
            listed_skills(skills@.take(k as int)) == listed.take(shown),
            rows@.len() == shown,
            player_skill_steps(boards0, listed, player_id, looked_up@, shown) matches Some((bs, srows)) && bs
                == ranking.skills_view() && forall|j: int|
                0 <= j < shown ==> (#[trigger] rows@[j]).name@ == listed[j].name@ && rows@[j].row == srows[j],
        decreases skills.len() - k,
    {
        proof {
            assert(skills@.take(k + 1) =~= skills@.take(k as int).push(skills@[k as int]));
            skills@.take(k as int).lemma_filter_push(skills@[k as int], |s: SkillEntry| s.skill_category != 0);
            lemma_listed_prefix(skills@, k as int + 1);
        }
        let skill = &skills[k];
        if skill.skill_category != 0 {
            let ghost before_rows = rows@;
            let ghost bs = ranking.skills_view();
            let ghost srows = player_skill_steps(boards0, listed, player_id, looked_up@, shown).unwrap().1;
            proof {
                lemma_steps_len(boards0, listed, player_id, looked_up@, shown);
                let lk1 = listed_skills(skills@.take(k + 1));
                assert(lk1 == listed.take(shown).push(skills@[k as int]));
                assert(listed.take(shown + 1) == lk1);
                assert(listed.take(shown + 1)[shown] == listed[shown]);
                assert(listed[shown] == skills@[k as int]);
            }
            let p = match ranking.skill_position(skill.skill_id) {
                Some(p) => p,
                None => {
                    proof {
                        lemma_steps_fail_stay(boards0, listed, player_id, looked_up@, shown + 1, listed.len() as int);
                    }
                    return Err(PlayerSummaryError::Unranked);
                },
            };
            proof {
                assert(bs[p as int] == (skill.skill_id, crate::ranking::board_of(ranking.skill_leaderboards@[p as int].board)));
                assert(ranking.skill_leaderboards@[p as int].board.wf());
            }
            let row = match ranking.skill_leaderboards[p].board.get_value(&player_id) {
                Some(xp) => {
                    if xp > MAX_RANKED_XP {
                        proof {
                            assert(player_skill_step(bs, listed[shown], player_id, looked_up@) is None);
                            lemma_steps_fail_stay(boards0, listed, player_id, looked_up@, shown + 1, listed.len() as int);
                        }
                        return Err(PlayerSummaryError::Unranked);
                    }
                    let rank = match ranking.skill_leaderboards[p].board.get_rank(player_id) {
                        Some(r) => r,
                        None => 0,
                    };
                    proof {
                        crate::leaderboard::lemma_rank_formula_within_size(
                            ranking.skill_leaderboards@[p as int].board.ranking(),
                            xp,
                            player_id,
                        );
                    }
                    let row = skill_row(player_id, xp, rank);
                    proof {
                        assert(player_skill_step(bs, listed[shown], player_id, looked_up@) == Some((bs, row)));
                    }
                    row
                },
                None => match find_looked_up(looked_up, skill.skill_id) {
                    Some(exp) => match ranking.record_skill_score(skill.skill_id, player_id, exp as i64) {
                        Some(rank) => {
                            let row = skill_row(player_id, exp as i64, rank);
                            proof {
                                let b = bs[p as int].1;
                                let b2 = updated_board(b, player_id, exp as i64);
                                assert(board_position(bs, skill.skill_id) == Some(p as int));
                                assert(crate::ranking::skill_board(bs, skill.skill_id) == b);
                                assert(ranking.skills_view() == bs.update(p as int, (skill.skill_id, b2)));
                                assert(ranking.skills_view().len() == ranking.skill_leaderboards@.len());
                                assert(ranking.skills_view()[p as int] == (
                                    ranking.skill_leaderboards@[p as int].skill_id,
                                    crate::ranking::board_of(ranking.skill_leaderboards@[p as int].board),
                                ));
                                assert(ranking.skill_leaderboards@[p as int].board.wf());
                                assert(b2.ranking.wf());
                                crate::leaderboard::lemma_rank_formula_within_size(b2.ranking, exp as i64, player_id);
                                assert(player_skill_step(bs, listed[shown], player_id, looked_up@) == Some((ranking.skills_view(), row)));
                            }
                            row
                        },
                        None => {
                            proof {
                                assert(player_skill_step(bs, listed[shown], player_id, looked_up@) is None);
                                lemma_steps_fail_stay(boards0, listed, player_id, looked_up@, shown + 1, listed.len() as int);
                            }
                            return Err(PlayerSummaryError::Unranked);
                        },
                    },
                    None => {
                        let row = skill_row(player_id, 0, 0);
                        proof {
                            assert(player_skill_step(bs, listed[shown], player_id, looked_up@) == Some((bs, row)));
                        }
                        row
                    },
                },
            };
            let ghost the_row = row;
            proof {
                assert(player_skill_step(bs, listed[shown], player_id, looked_up@) == Some((ranking.skills_view(), the_row)));
                assert(player_skill_steps(boards0, listed, player_id, looked_up@, shown + 1) == Some((ranking.skills_view(), srows.push(the_row))));
            }
            rows.push(NamedRow { name: skill.name.clone(), row });
            proof {
                let old_shown = shown;
                shown = shown + 1;
                assert forall|j: int| 0 <= j < shown implies (#[trigger] rows@[j]).name@ == listed[j].name@ && rows@[j].row
                    == player_skill_steps(boards0, listed, player_id, looked_up@, shown).unwrap().1[j] by {
                    assert(player_skill_steps(boards0, listed, player_id, looked_up@, shown).unwrap().1 == srows.push(the_row));
                    if j < old_shown {
                        assert(rows@[j] == before_rows[j]);
                        assert(before_rows[j].row == srows[j]);
                        assert(srows.push(the_row)[j] == srows[j]);
                    } else {
                        assert(rows@[j].row == the_row);
                        assert(srows.push(the_row)[j] == the_row);
                        assert(listed[j] == skills@[k as int]);
                    }
                }
            }
        }
        k = k + 1;
    }
    proof {
        assert(skills@.take(k as int) =~= skills@);
        assert(listed.take(shown) == listed);
    }
    let global_rank: usize;
    let total: i64;
    match ranking.global_leaderboard.get_value(&player_id) {
        Some(xp) => {
            if xp > MAX_RANKED_XP {
                return Err(PlayerSummaryError::Unranked);
            }
            total = xp;
            global_rank = match ranking.global_leaderboard.get_rank(player_id) {
                Some(r) => r,
                None => 0,
            };
        },
        None => {
            total = 0;
            global_rank = 0;
        },
    }
    rows.push(
        NamedRow {
            name: String::from_str("Experience"),
            row: RankType::Experience(
                LeaderboardExperience {
                    player_id,
                    player_name: None,
                    experience: total,
                    experience_per_hour: 0,
                    rank: global_rank as u64,
                },
            ),
        },
    );
    let level = match ranking.level_leaderboard.get_value(&player_id) {
        Some(l) => l,
        None => {
            return Err(PlayerSummaryError::Unranked);
        },
    };
    if level > MAX_RANKED_XP {
        return Err(PlayerSummaryError::Unranked);
    }
    let level_rank = match ranking.level_leaderboard.get_rank(player_id) {
        Some(r) => r,
        None => 0,
    };
    rows.push(
        NamedRow {
            name: String::from_str("Level"),
            row: RankType::Level(
                LeaderboardLevel { player_id, player_name: None, level: level as u32, rank: level_rank as u64 },
            ),
        },
    );
    Ok(rows)
}

proof fn lemma_steps_len(
    boards: Seq<(i64, BoardView)>,
    listed: Seq<SkillEntry>,
    player_id: i64,
    looked_up: Seq<(i64, Option<i32>)>,
    n: int,
)
    requires
        0 <= n,
        player_skill_steps(boards, listed, player_id, looked_up, n) is Some,
    ensures
        player_skill_steps(boards, listed, player_id, looked_up, n).unwrap().1.len() == n,
    decreases n,
{
    if n > 0 {
        lemma_steps_len(boards, listed, player_id, looked_up, n - 1);
    }
}

proof fn lemma_steps_fail_stay(
    boards: Seq<(i64, BoardView)>,
    listed: Seq<SkillEntry>,
    player_id: i64,
    looked_up: Seq<(i64, Option<i32>)>,
    k: int,
    n: int,
)
    requires
        0 <= k <= n,
        player_skill_steps(boards, listed, player_id, looked_up, k) is None,
    ensures
        player_skill_steps(boards, listed, player_id, looked_up, n) is None,
    decreases n - k,
{
    if k < n {
        lemma_steps_fail_stay(boards, listed, player_id, looked_up, k, n - 1);
    }
}

/// The skill is listed and its leaderboard has no score for the player, whose
/// experience is then read from storage.
pub open spec fn needs_lookup(ranking: RankingSystem, skill: SkillEntry, player_id: i64) -> bool {
    skill.skill_category != 0 && match skill_leaderboard(ranking, skill.skill_id) {
        Some(board) => !board.scores_view().contains_key(player_id),
        None => false,
    }
}

/// The ids of the skills whose experience is read from storage (see `needs_lookup`).
pub fn player_lookups(ranking: &RankingSystem, skills: &Vec<SkillEntry>, player_id: i64) -> (needed: Vec<i64>)
    requires
        ranking.wf(),
    ensures
        forall|id: i64|
            #[trigger] needed@.contains(id) <==> exists|k: int|
                0 <= k < skills@.len() && (#[trigger] skills@[k]).skill_id == id && needs_lookup(
                    *ranking,
                    skills@[k],
                    player_id,
                ),
{
    let mut needed: Vec<i64> = Vec::new();
    let mut k: usize = 0;
    while k < skills.len()
        invariant
            k <= skills.len(),
            ranking.wf(),
            forall|id: i64|
                #[trigger] needed@.contains(id) <==> exists|j: int|
                    0 <= j < k && (#[trigger] skills@[j]).skill_id == id && needs_lookup(*ranking, skills@[j], player_id),
        decreases skills.len() - k,
    {
        let skill = &skills[k];
        let mut add = false;
        if skill.skill_category != 0 {
            if let Some(p) = ranking.skill_position(skill.skill_id) {
                if !ranking.skill_leaderboards[p].board.has(&player_id) {
                    add = true;
                }
            }
        }
        assert(add == needs_lookup(*ranking, skills@[k as int], player_id));
        let ghost before = needed@;
        if add {
            needed.push(skill.skill_id);
        }
        proof {
            assert forall|id: i64| #[trigger] needed@.contains(id) <==> exists|j: int|
                0 <= j < k + 1 && (#[trigger] skills@[j]).skill_id == id && needs_lookup(*ranking, skills@[j], player_id) by {
                if needed@.contains(id) {
                    let m = choose|m: int| 0 <= m < needed@.len() && needed@[m] == id;
                    if m < before.len() {
                        assert(before.contains(id));
                    } else {
                        assert(skills@[k as int].skill_id == id);
                    }
                }
                if exists|j: int| 0 <= j < k + 1 && (#[trigger] skills@[j]).skill_id == id && needs_lookup(*ranking, skills@[j], player_id) {
                    let j = choose|j: int| 0 <= j < k + 1 && (#[trigger] skills@[j]).skill_id == id && needs_lookup(*ranking, skills@[j], player_id);
                    if j < k {
                        assert(before.contains(id));
                        let m = choose|m: int| 0 <= m < before.len() && before[m] == id;
                        assert(needed@[m] == id);
                    } else {
                        assert(needed@[needed@.len() - 1] == id);
                    }
                }
            }
        }
        k = k + 1;
    }
    needed
}

/// The position of the first row of `player_id`, if any.
pub fn first_row_of(rows: &Vec<RankType>, player_id: i64) -> (found: Option<usize>)
    ensures
        match found {
            Some(i) => i < rows@.len() && row_player(rows@[i as int]) == player_id && forall|j: int|
                0 <= j < i ==> row_player(#[trigger] rows@[j]) != player_id,
            None => forall|j: int| 0 <= j < rows@.len() ==> row_player(#[trigger] rows@[j]) != player_id,
        },
{
    let mut i: usize = 0;
    while i < rows.len()
        invariant
            i <= rows.len(),
            forall|j: int| 0 <= j < i ==> row_player(#[trigger] rows@[j]) != player_id,
        decreases rows.len() - i,
    {
        if player_of(&rows[i]) == player_id {
            return Some(i);
        }
        i = i + 1;
    }
    None
}

} // verus!
