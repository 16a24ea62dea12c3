//! Verified core of the BitCraft hub API: leaderboards, skill levels, catalogue
//! listings, market statistics, claim summaries, live-update subscriptions and the
//! batching state of the game-state import workers.
use vstd::prelude::*;

pub mod levels;
pub mod tally;
pub mod buckets;
pub mod score_map;
pub mod ordered_ranges;
pub mod leaderboard;
pub mod leaderboard_laws;
pub mod sorting;
pub mod text;
pub mod items_and_cargo;
pub mod config;
pub mod market;
pub mod ranking;
pub mod experience;
pub mod experience_snapshot;
pub mod clients;
pub mod claims;
pub mod top_lists;
pub mod named_lists;
pub mod batch;
pub mod params;
pub mod download;
pub mod inventory;
pub mod players;
pub mod membership;
pub mod houses;
pub mod buildings;

verus! {
} // verus!
