//! The leaderboards of the hub: one per skill, and those of total experience,
//! experience per hour, total level, time played and time signed in.
use crate::buckets::MAX_RANKED_XP;
use crate::leaderboard::{rank_formula, updated_ranking, Leaderboard, RankView};
use vstd::prelude::*;

verus! {

/// What a leaderboard holds: the score of each player and its ordered part.
pub struct BoardView {
    pub scores: Map<i64, i64>,
    pub ranking: RankView,
}

/// The view of a leaderboard.
pub open spec fn board_of(board: Leaderboard) -> BoardView {
    BoardView { scores: board.scores_view(), ranking: board.ranking() }
}

/// A leaderboard with no scores.
pub open spec fn empty_board() -> BoardView {
    BoardView {
        scores: Map::empty(),
        ranking: RankView { ranks: Set::empty(), buckets: Map::empty(), xps: Map::empty() },
    }
}

/// A leaderboard after `user_id` is given the score `xp`.
pub open spec fn updated_board(board: BoardView, user_id: i64, xp: i64) -> BoardView {
    BoardView {
        scores: board.scores.insert(user_id, xp),
        ranking: updated_ranking(board.scores, board.ranking, user_id, xp),
    }
}

/// The rank a leaderboard reports for `user_id` after giving them the score `xp`.
pub open spec fn rank_after(board: BoardView, user_id: i64, xp: i64) -> nat {
    rank_formula(updated_board(board, user_id, xp).ranking, xp, user_id)
}

/// The leaderboard of one skill.
pub struct SkillBoard {
    pub skill_id: i64,
    pub board: Leaderboard,
}

/// The skill leaderboards as (skill, leaderboard) views, in order.
pub open spec fn skill_boards_view(boards: Seq<SkillBoard>) -> Seq<(i64, BoardView)> {
    boards.map_values(|b: SkillBoard| (b.skill_id, board_of(b.board)))
}

/// The position of the leaderboard of `skill_id` among `boards`.
pub open spec fn board_position(boards: Seq<(i64, BoardView)>, skill_id: i64) -> Option<int> {
    if exists|i: int| 0 <= i < boards.len() && (#[trigger] boards[i]).0 == skill_id {
        Some(choose|i: int| 0 <= i < boards.len() && (#[trigger] boards[i]).0 == skill_id)
    } else {
        None
    }
}

/// No skill has two leaderboards.
pub open spec fn distinct_skills(boards: Seq<(i64, BoardView)>) -> bool {
    forall|i: int, j: int|
        0 <= i < boards.len() && 0 <= j < boards.len() && i != j ==> (#[trigger] boards[i]).0
            != (#[trigger] boards[j]).0
}

/// The skill leaderboards after `user_id` is given the score `xp` on the leaderboard of
/// `skill_id`, which is added, empty, when there is none.
pub open spec fn skill_boards_after(boards: Seq<(i64, BoardView)>, skill_id: i64, user_id: i64, xp: i64) -> Seq<
    (i64, BoardView),
> {
    match board_position(boards, skill_id) {
        Some(p) => boards.update(p, (skill_id, updated_board(boards[p].1, user_id, xp))),
        None => boards.push((skill_id, updated_board(empty_board(), user_id, xp))),
    }
}

/// The leaderboard of `skill_id`, or an empty one where there is none.
pub open spec fn skill_board(boards: Seq<(i64, BoardView)>, skill_id: i64) -> BoardView {
    match board_position(boards, skill_id) {
        Some(p) => boards[p].1,
        None => empty_board(),
    }
}

/// All leaderboards of the hub.
pub struct RankingSystem {
    pub skill_leaderboards: Vec<SkillBoard>,
    pub global_leaderboard: Leaderboard,
    pub xp_per_hour: Leaderboard,
    pub level_leaderboard: Leaderboard,
    pub time_played: Leaderboard,
    pub time_signed_in: Leaderboard,
}

impl RankingSystem {
    /// Every leaderboard is well formed, and no skill has two.
    pub open spec fn wf(&self) -> bool {
        &&& forall|i: int|
            0 <= i < self.skill_leaderboards@.len() ==> (#[trigger] self.skill_leaderboards@[i]).board.wf()
        &&& distinct_skills(skill_boards_view(self.skill_leaderboards@))
        &&& self.global_leaderboard.wf()
        &&& self.xp_per_hour.wf()
        &&& self.level_leaderboard.wf()
        &&& self.time_played.wf()
        &&& self.time_signed_in.wf()
    }

    /// The skill leaderboards, by their views.
    pub open spec fn skills_view(&self) -> Seq<(i64, BoardView)> {
        skill_boards_view(self.skill_leaderboards@)
    }

    /// The position of the leaderboard of `skill_id`, if there is one.
    pub fn skill_position(&self, skill_id: i64) -> (position: Option<usize>)
        requires
            self.wf(),
        ensures
            match position {
                Some(p) => board_position(self.skills_view(), skill_id) == Some(p as int),
                None => board_position(self.skills_view(), skill_id) is None,
            },
    {
        let ghost view = self.skills_view();
        let mut i: usize = 0;
        while i < self.skill_leaderboards.len()
            invariant
                i <= self.skill_leaderboards.len(),
                view == self.skills_view(),
                self.wf(),
                view.len() == self.skill_leaderboards.len(),
                forall|j: int| 0 <= j < i ==> (#[trigger] view[j]).0 != skill_id,
            decreases self.skill_leaderboards.len() - i,
        {
            if self.skill_leaderboards[i].skill_id == skill_id {
                proof {
                    assert(view[i as int].0 == skill_id);
                    let p = choose|p: int| 0 <= p < view.len() && (#[trigger] view[p]).0 == skill_id;
                    assert(distinct_skills(view));
                    if p != i {
                        assert(view[p].0 != view[i as int].0);
                    }
                }
                return Some(i);
            }
            i = i + 1;
        }
        None
    }

    /// Gives `user_id` the score `xp` on the leaderboard of `skill_id`, which is added
    /// first when there is none, and reads the player's rank there; `None` when that
    /// leaderboard has no room for the change (see `RankView::has_room`), and then
    /// nothing changes.
    pub fn record_skill_score(&mut self, skill_id: i64, user_id: i64, xp: i64) -> (rank: Option<usize>)
        requires
            old(self).wf(),
            xp <= MAX_RANKED_XP,
        ensures
            final(self).wf(),
            final(self).global_leaderboard == old(self).global_leaderboard,
            final(self).xp_per_hour == old(self).xp_per_hour,
            final(self).level_leaderboard == old(self).level_leaderboard,
            final(self).time_played == old(self).time_played,
            final(self).time_signed_in == old(self).time_signed_in,
            ({
                let board = skill_board(old(self).skills_view(), skill_id);
                if board.ranking.has_room() {
                    &&& final(self).skills_view() == skill_boards_after(
                        old(self).skills_view(),
                        skill_id,
                        user_id,
                        xp,
                    )
                    &&& rank == Some(rank_after(board, user_id, xp) as usize)
                } else {
                    &&& final(self).skills_view() == old(self).skills_view()
                    &&& rank is None
                }
            }),
    {
        let ghost before = self.skills_view();
        match self.skill_position(skill_id) {
            Some(p) => {
                let mut entry = self.skill_leaderboards.remove(p);
                proof {
                    assert(before[p as int] == (entry.skill_id, board_of(entry.board)));
                    assert(entry.board.wf());
                }
                if !entry.board.has_room() {
                    self.skill_leaderboards.insert(p, entry);
                    proof {
                        assert(self.skills_view() =~= before);
                    }
                    return None;
                }
                entry.board.update(user_id, xp);
                let rank = entry.board.get_rank(user_id);
                self.skill_leaderboards.insert(p, entry);
                proof {
                    assert(self.skills_view() =~= before.update(
                        p as int,
                        (skill_id, updated_board(before[p as int].1, user_id, xp)),
                    ));
                    assert forall|i: int|
                        0 <= i < self.skill_leaderboards@.len() implies (
                        #[trigger] self.skill_leaderboards@[i]).board.wf() by {
                        if i != p {
                            assert(self.skills_view()[i] == before[i]);
                        }
                    }
                    assert(distinct_skills(self.skills_view())) by {
                        assert forall|i: int, j: int|
                            0 <= i < self.skills_view().len() && 0 <= j < self.skills_view().len()
                                && i != j implies (#[trigger] self.skills_view()[i]).0
                            != (#[trigger] self.skills_view()[j]).0 by {
                            assert(self.skills_view()[i].0 == before[i].0);
                            assert(self.skills_view()[j].0 == before[j].0);
                        }
                    }
                }
                rank
            },
            None => {
                let mut board = Leaderboard::new();
                proof {
                    assert(board_of(board).ranking =~= empty_board().ranking);
                    assert(board_of(board) == empty_board());
                    crate::tally::lemma_tally_empty(board.ranking().buckets);
                }
                board.update(user_id, xp);
                let rank = board.get_rank(user_id);
                self.skill_leaderboards.push(SkillBoard { skill_id, board });
                proof {
                    assert(self.skills_view() =~= before.push(
                        (skill_id, updated_board(empty_board(), user_id, xp)),
                    ));
                    assert forall|i: int|
                        0 <= i < self.skill_leaderboards@.len() implies (
                        #[trigger] self.skill_leaderboards@[i]).board.wf() by {
                        if i < before.len() {
                            assert(self.skills_view()[i] == before[i]);
                        }
                    }
                    assert(distinct_skills(self.skills_view())) by {
                        assert forall|i: int, j: int|
                            0 <= i < self.skills_view().len() && 0 <= j < self.skills_view().len()
                                && i != j implies (#[trigger] self.skills_view()[i]).0
                            != (#[trigger] self.skills_view()[j]).0 by {
                            if i < before.len() {
                                assert(self.skills_view()[i].0 == before[i].0);
                            }
                            if j < before.len() {
                                assert(self.skills_view()[j].0 == before[j].0);
                            }
                        }
                    }
                }
                rank
            },
        }
    }
}

impl RankingSystem {
    /// Gives `user_id` the score `xp` on the leaderboard of `skill_id` when there is
    /// one; tells whether that leaderboard had room (true when there is none, and then
    /// nothing changes).
    pub fn update_existing_skill(&mut self, skill_id: i64, user_id: i64, xp: i64) -> (ok: bool)
        requires
            old(self).wf(),
        ensures
            final(self).wf(),
            final(self).global_leaderboard == old(self).global_leaderboard,
            final(self).xp_per_hour == old(self).xp_per_hour,
            final(self).level_leaderboard == old(self).level_leaderboard,
            final(self).time_played == old(self).time_played,
            final(self).time_signed_in == old(self).time_signed_in,
            match board_position(old(self).skills_view(), skill_id) {
                Some(p) => if old(self).skills_view()[p].1.ranking.has_room() {
                    ok && final(self).skills_view() == skill_boards_after(old(self).skills_view(), skill_id, user_id, xp)
                } else {
                    !ok && final(self).skills_view() == old(self).skills_view()
                },
                None => ok && final(self).skills_view() == old(self).skills_view(),
            },
    {
        let ghost before = self.skills_view();
        match self.skill_position(skill_id) {
            Some(p) => {
                let mut entry = self.skill_leaderboards.remove(p);
                proof {
                    assert(before[p as int] == (entry.skill_id, board_of(entry.board)));
                    assert(entry.board.wf());
                }
                if !entry.board.has_room() {
                    self.skill_leaderboards.insert(p, entry);
                    proof {
                        assert(self.skills_view() =~= before);
                    }
                    return false;
                }
                entry.board.update(user_id, xp);
                self.skill_leaderboards.insert(p, entry);
                proof {
                    assert(self.skills_view() =~= before.update(
                        p as int,
                        (skill_id, updated_board(before[p as int].1, user_id, xp)),
                    ));
                    assert forall|i: int|
                        0 <= i < self.skill_leaderboards@.len() implies (
                        #[trigger] self.skill_leaderboards@[i]).board.wf() by {
                        if i != p {
                            assert(self.skills_view()[i] == before[i]);
                        }
                    }
                    assert(distinct_skills(self.skills_view())) by {
                        assert forall|i: int, j: int|
                            0 <= i < self.skills_view().len() && 0 <= j < self.skills_view().len()
                                && i != j implies (#[trigger] self.skills_view()[i]).0
                            != (#[trigger] self.skills_view()[j]).0 by {
                            assert(self.skills_view()[i].0 == before[i].0);
                            assert(self.skills_view()[j].0 == before[j].0);
                        }
                    }
                }
                true
            },
            None => true,
        }
    }
}

impl Default for RankingSystem {
    fn default() -> (system: Self)
        ensures
            system.wf(),
            system.skills_view().len() == 0,
            board_of(system.global_leaderboard) == empty_board(),
            board_of(system.xp_per_hour) == empty_board(),
            board_of(system.level_leaderboard) == empty_board(),
            board_of(system.time_played) == empty_board(),
            board_of(system.time_signed_in) == empty_board(),
    {
        let system = RankingSystem {
            skill_leaderboards: Vec::new(),
            global_leaderboard: Leaderboard::new(),
            xp_per_hour: Leaderboard::new(),
            level_leaderboard: Leaderboard::new(),
            time_played: Leaderboard::new(),
            time_signed_in: Leaderboard::new(),
        };
        assert(system.skills_view() =~= Seq::<(i64, BoardView)>::empty());
        system
    }
}

/// Gives `user_id` the score `xp` when the leaderboard has room for the change, and
/// tells whether it had.
pub fn update_if_room(board: &mut Leaderboard, user_id: i64, xp: i64) -> (done: bool)
    requires
        old(board).wf(),
    ensures
        final(board).wf(),
        done == board_of(*old(board)).ranking.has_room(),
        done ==> board_of(*final(board)) == updated_board(board_of(*old(board)), user_id, xp),
        !done ==> *final(board) == *old(board),
{
    if !board.has_room() {
        return false;
    }
    board.update(user_id, xp);
    true
}

} // verus!
