//! Buildings: how many buildings of each description stand, and the name a building
//! is shown with.
use vstd::prelude::*;

verus! {

/// Number of the first `n` building states whose description is `desc_id`.
pub open spec fn desc_count(state_desc_ids: Seq<i32>, desc_id: i64, n: int) -> int
    decreases n,
{
    if n <= 0 {
        0
    } else {
        desc_count(state_desc_ids, desc_id, n - 1) + if state_desc_ids[n - 1] as i64 == desc_id {
            1int
        } else {
            0int
        }
    }
}

/// How many of the building states (given by their description ids) are of the
/// description `desc_id`, as an `i32` (wrapping as a cast does).
pub fn building_count(state_desc_ids: &Vec<i32>, desc_id: i64) -> (count: i32)
    ensures
        count == desc_count(state_desc_ids@, desc_id, state_desc_ids@.len() as int) as i32,
{
    let mut c: usize = 0;
    let mut i: usize = 0;
    while i < state_desc_ids.len()
        invariant
            i <= state_desc_ids.len(),
            c == desc_count(state_desc_ids@, desc_id, i as int),
            c <= i,
        decreases state_desc_ids.len() - i,
    {
        if state_desc_ids[i] as i64 == desc_id {
            c = c + 1;
        }
        i = i + 1;
    }
    #[verifier::truncate]
    (c as i32)
}

/// The name a building is listed with: its nickname, else the name of its
/// description, else nothing.
pub fn building_name(nickname: Option<String>, desc_name: Option<String>) -> (name: String)
    ensures
        name@ == (match nickname {
            Some(n) => n@,
            None => match desc_name {
                Some(d) => d@,
                None => Seq::<char>::empty(),
            },
        }),
{
    match nickname {
        Some(n) => n,
        None => match desc_name {
            Some(d) => d,
            None => String::new(),
        },
    }
}

/// The page and page size of the building listings, 1 and 30 when none are given.
pub fn building_page(page: Option<u64>, per_page: Option<u64>) -> (asked: (u64, u64))
    ensures
        asked.0 == (match page {
            Some(p) => p,
            None => 1,
        }),
        asked.1 == (match per_page {
            Some(p) => p,
            None => 30,
        }),
{
    let p = match page {
        Some(p) => p,
        None => 1,
    };
    let s = match per_page {
        Some(s) => s,
        None => 30,
    };
    (p, s)
}

} // verus!
