//! Player houses: the paging of the house listing, the owner filter, and the names
//! shown for a house's owner and permissions.
use crate::text::{parse_i64, parsed_i64};
use crate::top_lists::{find_name, name_of, sort_dedup};
use vstd::prelude::*;

verus! {

/// The page of the house listing asked for: the page (1 when none is given), the page
/// size (20 when none is given, at most 100), and the index of the page from 0.
#[derive(Debug, Clone, Copy, PartialEq, Eq)]
pub struct HousesPage {
    pub page: u64,
    pub per_page: u64,
    pub page_index: u64,
}

/// The page of the house listing (see `HousesPage`); `None` for page 0, which has no
/// index.
pub fn houses_page(page: Option<u64>, per_page: Option<u64>) -> (asked: Option<HousesPage>)
    ensures
        ({
            let p = match page {
                Some(p) => p,
                None => 1,
            };
            let size = match per_page {
                Some(s) => s,
                None => 20,
            };
            match asked {
                Some(a) => p >= 1 && a.page == p && a.per_page == (if size < 100 { size } else { 100 }) && a.page_index
                    == p - 1,
                None => p == 0,
            }
        }),
{
    let p = match page {
        Some(p) => p,
        None => 1,
    };
    let size = match per_page {
        Some(s) => s,
        None => 20,
    };
    let size = if size < 100 {
        size
    } else {
        100
    };
    if p == 0 {
        return None;
    }
    Some(HousesPage { page: p, per_page: size, page_index: p - 1 })
}

/// How the house listing is filtered by owner.
#[derive(Debug, PartialEq, Eq)]
pub enum OwnerFilter {
    Everyone,
    Id(i64),
    Username(String),
}

/// The owner filter of a request: none for an empty or missing parameter, the player
/// id when the parameter is a number, else the username.
pub fn owner_filter(owner: Option<&str>) -> (filter: OwnerFilter)
    ensures
        match owner {
            None => filter == OwnerFilter::Everyone,
            Some(o) => if o@.len() == 0 {
                filter == OwnerFilter::Everyone
            } else {
                match parsed_i64(o@) {
                    Some(id) => filter == OwnerFilter::Id(id),
                    None => filter matches OwnerFilter::Username(u) && u@ == o@,
                }
            },
        },
{
    match owner {
        None => OwnerFilter::Everyone,
        Some(o) => {
            if o.unicode_len() == 0 {
                OwnerFilter::Everyone
            } else {
                match parse_i64(o) {
                    Some(id) => OwnerFilter::Id(id),
                    None => OwnerFilter::Username(String::from_str(o)),
                }
            }
        },
    }
}

/// The players whose names a house shows: those granted a permission and the owner
/// (0 is no owner), in increasing order, each once.
pub fn house_user_ids(allowed: &Vec<i64>, owner_id: i64) -> (ids: Vec<i64>)
    ensures
        forall|a: int, b: int| 0 <= a < b < ids@.len() ==> ids@[a] < ids@[b],
        forall|x: i64| #[trigger] ids@.contains(x) <==> (allowed@.contains(x) || (owner_id != 0 && x == owner_id)),
{
    let mut all: Vec<i64> = Vec::new();
    let mut i: usize = 0;
    while i < allowed.len()
        invariant
            i <= allowed.len(),
            all@ == allowed@.take(i as int),
        decreases allowed.len() - i,
    {
        all.push(allowed[i]);
        assert(all@ =~= allowed@.take(i + 1));
        i = i + 1;
    }
    assert(all@ =~= allowed@);
    if owner_id != 0 {
        all.push(owner_id);
    }
    let ghost collected = all@;
    proof {
        assert forall|x: i64| #[trigger] collected.contains(x) <==> (allowed@.contains(x) || (owner_id != 0 && x
            == owner_id)) by {
            if owner_id != 0 {
                assert(collected =~= allowed@.push(owner_id));
                if collected.contains(x) {
                    let m = choose|m: int| 0 <= m < collected.len() && collected[m] == x;
                    if m < allowed@.len() {
                        assert(allowed@[m] == x);
                    }
                }
                if allowed@.contains(x) {
                    let m = choose|m: int| 0 <= m < allowed@.len() && allowed@[m] == x;
                    assert(collected[m] == x);
                }
                if x == owner_id {
                    assert(collected[allowed@.len() as int] == x);
                }
            }
        }
    }
    sort_dedup(all)
}

/// The names a house shows: for each permission the name of the player it grants, and
/// the owner's name (none when the house has no owner), each the name of the last
/// entry given for the player.
pub fn house_names(allowed: &Vec<i64>, owner_id: i64, usernames: &Vec<(i64, String)>) -> (names: (
    Vec<Option<String>>,
    Option<String>,
))
    ensures
        names.0@.len() == allowed@.len(),
        forall|k: int| 0 <= k < allowed@.len() ==> #[trigger] names.0@[k] == name_of(usernames@, allowed@[k]),
        names.1 == (if owner_id != 0 {
            name_of(usernames@, owner_id)
        } else {
            None
        }),
{
    let mut permission_names: Vec<Option<String>> = Vec::new();
    let mut k: usize = 0;
    while k < allowed.len()
        invariant
            k <= allowed.len(),
            permission_names@.len() == k,
            forall|m: int| 0 <= m < k ==> #[trigger] permission_names@[m] == name_of(usernames@, allowed@[m]),
        decreases allowed.len() - k,
    {
        permission_names.push(find_name(usernames, allowed[k]));
        k = k + 1;
    }
    let owner = if owner_id != 0 {
        find_name(usernames, owner_id)
    } else {
        None
    };
    (permission_names, owner)
}

} // verus!
