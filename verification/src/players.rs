//! The player-state import worker's batch: player records waiting to be stored, with
//! the sign-in time carried over from earlier records, the time leaderboards they
//! move, and the notifications they raise.
use crate::buckets::MAX_RANKED_XP;
use crate::experience::{lemma_without_first_at, lemma_without_first_none, without_first, LeaderboardFull};
use crate::leaderboard::{rank_formula, Leaderboard};
use crate::ranking::{board_of, update_if_room, updated_board, BoardView};
use crate::text::same_text;
use vstd::prelude::*;

verus! {

/// What the worker reads of a player state, with the rest of the record in `data`.
pub struct PlayerRecord<P> {
    pub entity_id: i64,
    pub time_played: i32,
    pub time_signed_in: i32,
    pub sign_in_timestamp: i32,
    pub signed_in: bool,
    pub data: P,
}

/// A notification of the time leaderboards. (The time signed in is reported with the
/// time played, and ranked as the player whose id is that time.)
#[derive(Debug, Clone, Copy, PartialEq, Eq)]
pub enum TimeUpdate {
    TimePlayed { user_id: i64, time: u64, rank: u64 },
    TimeSignedIn { user_id: i64, time: u64, rank: u64 },
}

/// Records to store, the ids seen since the last reset, and ids to delete.
pub struct PlayerStateBatch<P> {
    pub messages: Vec<PlayerRecord<P>>,
    pub ids: Vec<i64>,
    pub messages_delete: Vec<i64>,
    pub batch_size: usize,
}

/// Records of the player `id`.
pub open spec fn record_of<P>(id: i64) -> spec_fn(PlayerRecord<P>) -> bool {
    |r: PlayerRecord<P>| r.entity_id == id
}

/// The id `id`.
pub open spec fn same_id(id: i64) -> spec_fn(i64) -> bool {
    |x: i64| x == id
}

/// The sign-in time of the first waiting record of the player, if any.
pub open spec fn pending_sign_in<P>(messages: Seq<PlayerRecord<P>>, id: i64) -> Option<i32>
    decreases messages.len(),
{
    if messages.len() == 0 {
        None
    } else if messages[0].entity_id == id {
        Some(messages[0].sign_in_timestamp)
    } else {
        pending_sign_in(messages.drop_first(), id)
    }
}

/// A sign-in time of 0 means none was given: it is taken from `earlier` when there.
pub open spec fn carried(ts: i32, earlier: Option<i32>) -> i32 {
    if ts == 0 {
        match earlier {
            Some(e) => e,
            None => ts,
        }
    } else {
        ts
    }
}

/// `rec` with the sign-in time `ts`.
pub open spec fn with_sign_in<P>(rec: PlayerRecord<P>, ts: i32) -> PlayerRecord<P> {
    PlayerRecord { sign_in_timestamp: ts, ..rec }
}

/// The waiting records and the sign-in time of a new record of the player `id`: when
/// the player was seen since the last reset, the first waiting record of the player
/// gives way, lending its sign-in time where the new record has none.
pub open spec fn replaced<P>(
    messages: Seq<PlayerRecord<P>>,
    ids: Seq<i64>,
    id: i64,
    ts: i32,
) -> (Seq<PlayerRecord<P>>, i32) {
    if ids.contains(id) {
        (without_first(messages, record_of::<P>(id)), carried(ts, pending_sign_in(messages, id)))
    } else {
        (messages, ts)
    }
}

/// The rank a leaderboard reads for `user_id`: none when it has no score for them or
/// the score is too large to rank.
pub open spec fn rank_reading(board: BoardView, user_id: i64) -> Option<nat> {
    if board.scores.contains_key(user_id) && board.scores[user_id] <= MAX_RANKED_XP {
        Some(rank_formula(board.ranking, board.scores[user_id], user_id))
    } else {
        None
    }
}

fn record_position<P>(messages: &Vec<PlayerRecord<P>>, id: i64) -> (p: usize)
    ensures
        p <= messages.len(),
        p < messages.len() ==> messages@[p as int].entity_id == id,
        forall|i: int| 0 <= i < p ==> (#[trigger] messages@[i]).entity_id != id,
{
    let mut p: usize = 0;
    while p < messages.len()
        invariant
            p <= messages.len(),
            forall|i: int| 0 <= i < p ==> (#[trigger] messages@[i]).entity_id != id,
        decreases messages.len() - p,
    {
        if messages[p].entity_id == id {
            return p;
        }
        p = p + 1;
    }
    p
}

fn id_position(ids: &Vec<i64>, id: i64) -> (p: usize)
    ensures
        p <= ids.len(),
        p < ids.len() ==> ids@[p as int] == id,
        forall|i: int| 0 <= i < p ==> ids@[i] != id,
{
    let mut p: usize = 0;
    while p < ids.len()
        invariant
            p <= ids.len(),
            forall|i: int| 0 <= i < p ==> ids@[i] != id,
        decreases ids.len() - p,
    {
        if ids[p] == id {
            return p;
        }
        p = p + 1;
    }
    p
}

proof fn lemma_pending_at<P>(messages: Seq<PlayerRecord<P>>, id: i64, p: int)
    requires
        0 <= p < messages.len(),
        messages[p].entity_id == id,
        forall|i: int| 0 <= i < p ==> (#[trigger] messages[i]).entity_id != id,
    ensures
        pending_sign_in(messages, id) == Some(messages[p].sign_in_timestamp),
    decreases p,
{
    if p > 0 {
        let rest = messages.drop_first();
        assert forall|i: int| 0 <= i < p - 1 implies (#[trigger] rest[i]).entity_id != id by {
            assert(rest[i] == messages[i + 1]);
        }
        lemma_pending_at(rest, id, p - 1);
    }
}

proof fn lemma_pending_none<P>(messages: Seq<PlayerRecord<P>>, id: i64)
    requires
        forall|i: int| 0 <= i < messages.len() ==> (#[trigger] messages[i]).entity_id != id,
    ensures
        pending_sign_in(messages, id) is None,
    decreases messages.len(),
{
    if messages.len() > 0 {
        let rest = messages.drop_first();
        assert forall|i: int| 0 <= i < rest.len() implies (#[trigger] rest[i]).entity_id != id by {
            assert(rest[i] == messages[i + 1]);
        }
        lemma_pending_none(rest, id);
    }
}

/// Reads the rank of `user_id` (see `rank_reading`).
pub fn read_rank(board: &Leaderboard, user_id: i64) -> (rank: Option<usize>)
    requires
        board.wf(),
    ensures
        match rank_reading(board_of(*board), user_id) {
            Some(r) => rank == Some(r as usize),
            None => rank is None,
        },
{
    match board.get_value(&user_id) {
        Some(v) => if v <= MAX_RANKED_XP {
            board.get_rank(user_id)
        } else {
            None
        },
        None => None,
    }
}

impl<P> PlayerStateBatch<P> {
    /// An empty batch that is flushed once `batch_size` records or ids wait.
    pub fn new(batch_size: usize) -> (batch: Self)
        ensures
            batch.messages@.len() == 0,
            batch.ids@.len() == 0,
            batch.messages_delete@.len() == 0,
            batch.batch_size == batch_size,
    {
        PlayerStateBatch { messages: Vec::new(), ids: Vec::new(), messages_delete: Vec::new(), batch_size }
    }

    /// Drops the first waiting record of the player `id` when the player was seen since
    /// the last reset, and gives the sign-in time a new record of theirs keeps.
    fn take_pending(&mut self, id: i64, ts: i32) -> (kept: i32)
        ensures
            (final(self).messages@, kept) == replaced(old(self).messages@, old(self).ids@, id, ts),
            final(self).ids@ == old(self).ids@,
            final(self).messages_delete@ == old(self).messages_delete@,
            final(self).batch_size == old(self).batch_size,
    {
        let seen = id_position(&self.ids, id);
        if seen == self.ids.len() {
            assert(!self.ids@.contains(id));
            return ts;
        }
        assert(self.ids@.contains(id));
        let ghost before = self.messages@;
        let p = record_position(&self.messages, id);
        if p == self.messages.len() {
            proof {
                lemma_pending_none(before, id);
                lemma_without_first_none(before, record_of::<P>(id));
            }
            return ts;
        }
        proof {
            lemma_pending_at(before, id, p as int);
            lemma_without_first_at(before, record_of::<P>(id), p as int);
        }
        let earlier = self.messages[p].sign_in_timestamp;
        self.messages.remove(p);
        if ts == 0 {
            earlier
        } else {
            ts
        }
    }

    /// Drops the first waiting delete of `id`.
    fn cancel_delete(&mut self, id: i64)
        ensures
            final(self).messages_delete@ == without_first(old(self).messages_delete@, same_id(id)),
            final(self).messages@ == old(self).messages@,
            final(self).ids@ == old(self).ids@,
            final(self).batch_size == old(self).batch_size,
    {
        let ghost before = self.messages_delete@;
        let d = id_position(&self.messages_delete, id);
        if d < self.messages_delete.len() {
            proof {
                lemma_without_first_at(before, same_id(id), d as int);
            }
            self.messages_delete.remove(d);
        } else {
            proof {
                lemma_without_first_none(before, same_id(id));
            }
        }
    }

    /// A player state appeared: the time leaderboards take its times, a waiting delete
    /// of the player is dropped, a waiting record of a player seen since the last reset
    /// gives way (lending its sign-in time where the new one has none), and the record
    /// waits to be stored. `Err` when a time leaderboard has no room, and then nothing
    /// else changes.
    pub fn handle_insert(
        &mut self,
        time_played: &mut Leaderboard,
        time_signed_in: &mut Leaderboard,
        record: PlayerRecord<P>,
    ) -> (result: Result<(), LeaderboardFull>)
        requires
            old(time_played).wf(),
            old(time_signed_in).wf(),
        ensures
            final(time_played).wf(),
            final(time_signed_in).wf(),
            final(self).batch_size == old(self).batch_size,
            match result {
                Ok(_) => {
                    let id = record.entity_id;
                    let (rest, ts) = replaced(old(self).messages@, old(self).ids@, id, record.sign_in_timestamp);
                    &&& board_of(*final(time_played)) == updated_board(
                        board_of(*old(time_played)),
                        id,
                        record.time_played as i64,
                    )
                    &&& board_of(*final(time_signed_in)) == updated_board(
                        board_of(*old(time_signed_in)),
                        id,
                        record.time_signed_in as i64,
                    )
                    &&& final(self).messages_delete@ == without_first(old(self).messages_delete@, same_id(id))
                    &&& final(self).messages@ == rest.push(with_sign_in(record, ts))
                    &&& final(self).ids@ == old(self).ids@.push(id)
                },
                Err(_) => {
                    &&& !(board_of(*old(time_played)).ranking.has_room() && board_of(
                        *old(time_signed_in),
                    ).ranking.has_room())
                    &&& *final(time_played) == *old(time_played)
                    &&& *final(time_signed_in) == *old(time_signed_in)
                    &&& final(self).messages@ == old(self).messages@
                    &&& final(self).ids@ == old(self).ids@
                    &&& final(self).messages_delete@ == old(self).messages_delete@
                },
            },
    {
        if !time_played.has_room() || !time_signed_in.has_room() {
            return Err(LeaderboardFull);
        }
        let id = record.entity_id;
        update_if_room(time_played, id, record.time_played as i64);
        update_if_room(time_signed_in, id, record.time_signed_in as i64);
        self.cancel_delete(id);
        let ts = self.take_pending(id, record.sign_in_timestamp);
        self.ids.push(id);
        self.messages.push(PlayerRecord { sign_in_timestamp: ts, ..record });
        Ok(())
    }

    /// A player state changed: the time leaderboards take its times and notify the
    /// ranks they read at the id equal to the time played; a waiting record of a player
    /// seen since the last reset gives way (lending its sign-in time where the new one
    /// has none), a waiting delete is dropped, a sign-in time still missing is taken from
    /// the old state, and the record waits to be stored. `Err` when a time leaderboard
    /// has no room, and then nothing else changes.
    pub fn handle_update(
        &mut self,
        time_played: &mut Leaderboard,
        time_signed_in: &mut Leaderboard,
        record: PlayerRecord<P>,
        old_sign_in_timestamp: i32,
    ) -> (result: Result<Vec<TimeUpdate>, LeaderboardFull>)
        requires
            old(time_played).wf(),
            old(time_signed_in).wf(),
        ensures
            final(time_played).wf(),
            final(time_signed_in).wf(),
            final(self).batch_size == old(self).batch_size,
            match result {
                Ok(events) => {
                    let id = record.entity_id;
                    let tp = record.time_played;
                    let played = updated_board(board_of(*old(time_played)), id, tp as i64);
                    let signed = updated_board(board_of(*old(time_signed_in)), id, record.time_signed_in as i64);
                    let (rest, ts) = replaced(old(self).messages@, old(self).ids@, id, record.sign_in_timestamp);
                    &&& board_of(*final(time_played)) == played
                    &&& board_of(*final(time_signed_in)) == signed
                    &&& events@ == time_events(id, tp, rank_reading(played, tp as i64), rank_reading(signed, tp as i64))
                    &&& final(self).messages_delete@ == without_first(old(self).messages_delete@, same_id(id))
                    &&& final(self).messages@ == rest.push(
                        with_sign_in(record, if ts == 0 { old_sign_in_timestamp } else { ts }),
                    )
                    &&& final(self).ids@ == old(self).ids@.push(id)
                },
                Err(_) => {
                    &&& !(board_of(*old(time_played)).ranking.has_room() && board_of(
                        *old(time_signed_in),
                    ).ranking.has_room())
                    &&& *final(time_played) == *old(time_played)
                    &&& *final(time_signed_in) == *old(time_signed_in)
                    &&& final(self).messages@ == old(self).messages@
                    &&& final(self).ids@ == old(self).ids@
                    &&& final(self).messages_delete@ == old(self).messages_delete@
                },
            },
    {
        if !time_played.has_room() || !time_signed_in.has_room() {
            return Err(LeaderboardFull);
        }
        let id = record.entity_id;
        let tp = record.time_played;
        let mut events: Vec<TimeUpdate> = Vec::new();
        update_if_room(time_played, id, tp as i64);
        let played_rank = read_rank(time_played, tp as i64);
        if let Some(rank) = played_rank {
            events.push(TimeUpdate::TimePlayed { user_id: id, time: tp as u64, rank: rank as u64 });
        }
        update_if_room(time_signed_in, id, record.time_signed_in as i64);
        let signed_rank = read_rank(time_signed_in, tp as i64);
        if let Some(rank) = signed_rank {
            events.push(TimeUpdate::TimeSignedIn { user_id: id, time: tp as u64, rank: rank as u64 });
        }
        let ts = self.take_pending(id, record.sign_in_timestamp);
        self.cancel_delete(id);
        let ts = if ts == 0 {
            old_sign_in_timestamp
        } else {
            ts
        };
        self.ids.push(id);
        self.messages.push(PlayerRecord { sign_in_timestamp: ts, ..record });
        Ok(events)
    }

    /// A player state disappeared: unless the player is only being moved to another
    /// region, a waiting record of a player seen since the last reset is dropped and the
    /// id waits to be deleted.
    pub fn handle_remove(&mut self, entity_id: i64, reducer_name: Option<&str>)
        ensures
            final(self).batch_size == old(self).batch_size,
            final(self).ids@ == old(self).ids@,
            match reducer_name {
                Some(r) if r@ == "transfer_player_delayed"@ => {
                    &&& final(self).messages@ == old(self).messages@
                    &&& final(self).messages_delete@ == old(self).messages_delete@
                },
                _ => {
                    &&& final(self).messages@ == replaced(old(self).messages@, old(self).ids@, entity_id, 0).0
                    &&& final(self).messages_delete@ == old(self).messages_delete@.push(entity_id)
                },
            },
    {
        if let Some(r) = reducer_name {
            proof {
                reveal_strlit("transfer_player_delayed");
            }
            if same_text(r, "transfer_player_delayed") {
                return;
            }
        }
        let _ = self.take_pending(entity_id, 0);
        self.messages_delete.push(entity_id);
    }

    /// Enough records or ids wait to be flushed.
    pub fn should_flush(&self) -> (flush: bool)
        ensures
            flush == (self.messages@.len() >= self.batch_size || self.messages_delete@.len() >= self.batch_size),
    {
        self.messages.len() >= self.batch_size || self.messages_delete.len() >= self.batch_size
    }

    /// Nothing waits.
    pub fn is_idle(&self) -> (idle: bool)
        ensures
            idle == (self.messages@.len() == 0 && self.messages_delete@.len() == 0),
    {
        self.messages.len() == 0 && self.messages_delete.len() == 0
    }

    /// Forgets the ids seen.
    pub fn reset_batch(&mut self)
        ensures
            final(self).ids@.len() == 0,
            final(self).messages@ == old(self).messages@,
            final(self).messages_delete@ == old(self).messages_delete@,
            final(self).batch_size == old(self).batch_size,
    {
        self.ids.clear();
    }

    /// Hands out the waiting records and ids, leaving both empty.
    pub fn flush(&mut self) -> (taken: (Vec<PlayerRecord<P>>, Vec<i64>))
        ensures
            taken.0@ == old(self).messages@,
            taken.1@ == old(self).messages_delete@,
            final(self).messages@.len() == 0,
            final(self).messages_delete@.len() == 0,
            final(self).ids@ == old(self).ids@,
            final(self).batch_size == old(self).batch_size,
    {
        let mut messages: Vec<PlayerRecord<P>> = Vec::new();
        let mut deletes: Vec<i64> = Vec::new();
        std::mem::swap(&mut messages, &mut self.messages);
        std::mem::swap(&mut deletes, &mut self.messages_delete);
        (messages, deletes)
    }
}

/// The notifications of a player update with time played `tp`: the time played with
/// its rank, then the time signed in (reported as the time played) with its rank, each
/// only where a rank was read.
pub open spec fn time_events(id: i64, tp: i32, played: Option<nat>, signed: Option<nat>) -> Seq<TimeUpdate> {
    let first = match played {
        Some(r) => seq![TimeUpdate::TimePlayed { user_id: id, time: tp as u64, rank: (r as usize) as u64 }],
        None => Seq::empty(),
    };
    match signed {
        Some(r) => first.push(TimeUpdate::TimeSignedIn { user_id: id, time: tp as u64, rank: (r as usize) as u64 }),
        None => first,
    }
}

} // verus!
