//! Query parameters of the paged listings, with the defaults each listing applies.
use vstd::prelude::*;

verus! {

/// Query parameters of the deployable description listing.
#[derive(Debug, PartialEq, Eq)]
pub struct ListDeployableDescParams {
    pub page: Option<u64>,
    pub per_page: Option<u64>,
    pub search: Option<String>,
}

/// Query parameters of the player listing.
#[derive(Debug, PartialEq, Eq)]
pub struct ListPlayersParams {
    pub page: Option<u64>,
    pub per_page: Option<u64>,
    pub search: Option<String>,
    pub online: Option<bool>,
}

/// Query parameters of the claim listing.
#[derive(Debug, PartialEq, Eq)]
pub struct ListClaimsParams {
    pub page: Option<u64>,
    pub per_page: Option<u64>,
    pub search: Option<String>,
    pub research: Option<i32>,
    pub running_upgrade: Option<bool>,
}

/// `value`, or `fallback` when absent.
pub open spec fn or_else(value: Option<u64>, fallback: u64) -> u64 {
    match value {
        Some(v) => v,
        None => fallback,
    }
}

fn unwrap_or(value: Option<u64>, fallback: u64) -> (v: u64)
    ensures
        v == or_else(value, fallback),
{
    match value {
        Some(v) => v,
        None => fallback,
    }
}

impl ListDeployableDescParams {
    /// The page asked for, 1 when none is given.
    pub fn page(&self) -> (page: u64)
        ensures
            page == or_else(self.page, 1),
    {
        unwrap_or(self.page, 1)
    }

    /// The page size asked for, 5 when none is given.
    pub fn per_page(&self) -> (per_page: u64)
        ensures
            per_page == or_else(self.per_page, 5),
    {
        unwrap_or(self.per_page, 5)
    }
}

impl ListPlayersParams {
    /// The page asked for, 1 when none is given.
    pub fn page(&self) -> (page: u64)
        ensures
            page == or_else(self.page, 1),
    {
        unwrap_or(self.page, 1)
    }

    /// The page size asked for, 5 when none is given.
    pub fn per_page(&self) -> (per_page: u64)
        ensures
            per_page == or_else(self.per_page, 5),
    {
        unwrap_or(self.per_page, 5)
    }
}

impl ListClaimsParams {
    /// The page asked for, 1 when none is given.
    pub fn page(&self) -> (page: u64)
        ensures
            page == or_else(self.page, 1),
    {
        unwrap_or(self.page, 1)
    }

    /// The page size asked for, 25 when none is given.
    pub fn per_page(&self) -> (per_page: u64)
        ensures
            per_page == or_else(self.per_page, 25),
    {
        unwrap_or(self.per_page, 25)
    }
}

fn first_position(ids: &Vec<i64>, id: i64) -> (p: usize)
    ensures
        p <= ids@.len(),
        p < ids@.len() ==> ids@[p as int] == id,
        forall|j: int| 0 <= j < p ==> ids@[j] != id,
{
    let mut p: usize = 0;
    while p < ids.len()
        invariant
            p <= ids.len(),
            forall|j: int| 0 <= j < p ==> ids@[j] != id,
        decreases ids.len() - p,
    {
        if ids[p] == id {
            return p;
        }
        p = p + 1;
    }
    p
}

/// For each player of a listing, the position of the first username entry with the
/// player's id; `None` when a player has no username entry.
pub fn player_username_positions(player_ids: &Vec<i64>, username_ids: &Vec<i64>) -> (positions: Option<Vec<usize>>)
    ensures
        match positions {
            Some(p) => p@.len() == player_ids@.len() && forall|k: int|
                0 <= k < player_ids@.len() ==> {
                    let i = #[trigger] p@[k] as int;
                    &&& 0 <= i < username_ids@.len()
                    &&& username_ids@[i] == player_ids@[k]
                    &&& forall|j: int| 0 <= j < i ==> username_ids@[j] != player_ids@[k]
                },
            None => exists|k: int|
                0 <= k < player_ids@.len() && !username_ids@.contains(#[trigger] player_ids@[k]),
        },
{
    let mut positions: Vec<usize> = Vec::new();
    let mut k: usize = 0;
    while k < player_ids.len()
        invariant
            k <= player_ids.len(),
            positions@.len() == k,
            forall|m: int|
                0 <= m < k ==> {
                    let i = #[trigger] positions@[m] as int;
                    &&& 0 <= i < username_ids@.len()
                    &&& username_ids@[i] == player_ids@[m]
                    &&& forall|j: int| 0 <= j < i ==> username_ids@[j] != player_ids@[m]
                },
        decreases player_ids.len() - k,
    {
        let id = player_ids[k];
        let i = first_position(username_ids, id);
        if i == username_ids.len() {
            proof {
                assert(!username_ids@.contains(player_ids@[k as int]));
            }
            return None;
        }
        positions.push(i);
        k = k + 1;
    }
    Some(positions)
}

} // verus!
