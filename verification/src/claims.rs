//! Claim summaries: the tier and upgrades from learned research, the online state and
//! play time of members, the skill ranks shown per member, and the merged inventories.
use crate::levels::{experience_to_level, level_for};
use crate::sorting::{stable_sort, stably_sorted, SortKey};
use crate::text::same_text;
use vstd::prelude::*;

verus! {

/// What a claim summary reads of a claim research description.
#[derive(Debug, PartialEq, Eq)]
pub struct TechDesc {
    pub id: i32,
    pub description: String,
    pub tier: i32,
}

/// What a claim summary reads of a claim's research state.
#[derive(Debug, PartialEq, Eq)]
pub struct TechState {
    pub researching: i32,
    pub learned: Vec<i32>,
}

/// A claim member as stored, before online state, ranks and inventory are added.
#[derive(Debug, PartialEq, Eq)]
pub struct ClaimDescriptionStateMemberTmp {
    pub entity_id: i64,
    pub user_name: String,
    pub inventory_permission: bool,
    pub build_permission: bool,
    pub officer_permission: bool,
    pub co_owner_permission: bool,
}

/// Whether a member is signed in.
#[derive(Debug, Clone, Copy, PartialEq, Eq)]
pub enum OnlineState {
    Online,
    Offline,
}

/// The research a claim shows: the tier upgrade being researched, the learned
/// upgrades and the tier, each upgrade given by its position among the descriptions.
#[derive(Debug, PartialEq, Eq)]
pub struct ClaimTechSummary {
    pub running_upgrade: Option<usize>,
    pub upgrades: Vec<usize>,
    pub tier: Option<i32>,
}

/// The description is that of a tier upgrade: it starts with "Tier ".
pub open spec fn is_tier_upgrade(desc: TechDesc) -> bool {
    desc.description@.len() >= 5 && desc.description@.take(5) == "Tier "@
}

/// The position of the first description of `descs` with the id `id` that `wanted`
/// admits.
pub open spec fn first_position(descs: Seq<TechDesc>, id: i32, tier_only: bool) -> Option<int> {
    if exists|i: int|
        0 <= i < descs.len() && (#[trigger] descs[i]).id == id && (!tier_only || is_tier_upgrade(descs[i])) {
        Some(
            choose|i: int|
                0 <= i < descs.len() && (#[trigger] descs[i]).id == id && (!tier_only || is_tier_upgrade(
                    descs[i],
                )) && forall|j: int|
                    0 <= j < i ==> !((#[trigger] descs[j]).id == id && (!tier_only || is_tier_upgrade(
                        descs[j],
                    ))),
        )
    } else {
        None
    }
}

/// `p` is the first position of a description with the id `id` (a tier upgrade when
/// `tier_only`).
pub open spec fn is_first_position(descs: Seq<TechDesc>, id: i32, tier_only: bool, p: int) -> bool {
    &&& 0 <= p < descs.len()
    &&& descs[p].id == id
    &&& (!tier_only || is_tier_upgrade(descs[p]))
    &&& forall|j: int|
        0 <= j < p ==> !((#[trigger] descs[j]).id == id && (!tier_only || is_tier_upgrade(descs[j])))
}

/// Some description with the id `id` (a tier upgrade when `tier_only`).
pub open spec fn has_desc(descs: Seq<TechDesc>, id: i32, tier_only: bool) -> bool {
    exists|i: int|
        0 <= i < descs.len() && (#[trigger] descs[i]).id == id && (!tier_only || is_tier_upgrade(descs[i]))
}

/// The last learned id that is the id of a tier upgrade, among the first `n`.
pub open spec fn last_tier_learned(descs: Seq<TechDesc>, learned: Seq<i32>, n: int) -> Option<i32>
    decreases n,
{
    if n <= 0 {
        None
    } else if has_desc(descs, learned[n - 1], true) {
        Some(learned[n - 1])
    } else {
        last_tier_learned(descs, learned, n - 1)
    }
}

fn starts_with_tier(s: &String) -> (tier: bool)
    ensures
        tier == (s@.len() >= 5 && s@.take(5) == "Tier "@),
{
    let prefix = "Tier ";
    proof {
        reveal_strlit("Tier ");
    }
    let text = s.as_str();
    let n = text.unicode_len();
    if n < 5 {
        return false;
    }
    let mut i: usize = 0;
    while i < 5
        invariant
            i <= 5,
            n == s@.len(),
            n >= 5,
            prefix@ == "Tier "@,
            prefix@.len() == 5,
            text@ == s@,
            forall|j: int| 0 <= j < i ==> s@[j] == prefix@[j],
        decreases 5 - i,
    {
        if text.get_char(i) != prefix.get_char(i) {
            assert(s@.take(5)[i as int] != prefix@[i as int]);
            return false;
        }
        i = i + 1;
    }
    assert(s@.take(5) =~= prefix@);
    true
}

fn find_desc(descs: &Vec<TechDesc>, id: i32, tier_only: bool) -> (found: Option<usize>)
    ensures
        match found {
            Some(p) => is_first_position(descs@, id, tier_only, p as int),
            None => !has_desc(descs@, id, tier_only),
        },
{
    let mut i: usize = 0;
    while i < descs.len()
        invariant
            i <= descs.len(),
            forall|j: int|
                0 <= j < i ==> !((#[trigger] descs@[j]).id == id && (!tier_only || is_tier_upgrade(
                    descs@[j],
                ))),
        decreases descs.len() - i,
    {
        if descs[i].id == id && (!tier_only || starts_with_tier(&descs[i].description)) {
            return Some(i);
        }
        i = i + 1;
    }
    None
}

/// Among the first `n` learned ids, the one at `k` is the last that is a tier upgrade.
pub open spec fn is_last_tier_learned(descs: Seq<TechDesc>, learned: Seq<i32>, n: int, k: int) -> bool {
    &&& 0 <= k < n
    &&& has_desc(descs, learned[k], true)
    &&& forall|j: int| k < j < n ==> !has_desc(descs, #[trigger] learned[j], true)
}

/// The tier a claim's learned research gives comes from the learned tier upgrade at
/// the greatest position: when some learned id among the first `n` is a tier upgrade,
/// the chosen id is the one at the last such position; otherwise none is chosen.
pub proof fn lemma_last_tier_learned(descs: Seq<TechDesc>, learned: Seq<i32>, n: int)
    requires
        0 <= n <= learned.len(),
    ensures
        match last_tier_learned(descs, learned, n) {
            Some(id) => exists|k: int| is_last_tier_learned(descs, learned, n, k) && #[trigger] learned[k] == id,
            None => forall|k: int| 0 <= k < n ==> !has_desc(descs, #[trigger] learned[k], true),
        },
    decreases n,
{
    if n > 0 {
        lemma_last_tier_learned(descs, learned, n - 1);
        if has_desc(descs, learned[n - 1], true) {
            assert(is_last_tier_learned(descs, learned, n, n - 1));
        } else {
            match last_tier_learned(descs, learned, n - 1) {
                Some(id) => {
                    let k = choose|k: int| is_last_tier_learned(descs, learned, n - 1, k) && #[trigger] learned[k] == id;
                    assert(is_last_tier_learned(descs, learned, n, k));
                },
                None => {},
            }
        }
    }
}

/// The research a claim shows (see `ClaimTechSummary`): with no research state, no
/// running upgrade, no upgrades and tier 1; otherwise the tier upgrade being
/// researched, each learned upgrade, and the tier of the last learned tier upgrade
/// (tier 1 when none is learned).
pub fn claim_tech_summary(descs: &Vec<TechDesc>, tech_state: &Option<TechState>) -> (summary:
    ClaimTechSummary)
    requires
        tech_state matches Some(t) ==> forall|k: int|
            0 <= k < t.learned@.len() ==> has_desc(descs@, #[trigger] t.learned@[k], false),
    ensures
        match tech_state {
            None => summary.running_upgrade is None && summary.upgrades@.len() == 0 && summary.tier
                == Some(1i32),
            Some(t) => {
                &&& match summary.running_upgrade {
                    Some(p) => is_first_position(descs@, t.researching, true, p as int),
                    None => !has_desc(descs@, t.researching, true),
                }
                &&& summary.upgrades@.len() == t.learned@.len()
                &&& forall|k: int|
                    0 <= k < t.learned@.len() ==> is_first_position(
                        descs@,
                        t.learned@[k],
                        false,
                        #[trigger] summary.upgrades@[k] as int,
                    )
                &&& summary.tier == match last_tier_learned(descs@, t.learned@, t.learned@.len() as int) {
                    Some(id) => Some(descs@[first_position(descs@, id, true).unwrap()].tier),
                    None => Some(1i32),
                }
                &&& (forall|k: int| 0 <= k < t.learned@.len() ==> !has_desc(descs@, #[trigger] t.learned@[k], true))
                    ==> summary.tier == Some(1i32)
                &&& forall|k: int| #[trigger] is_last_tier_learned(descs@, t.learned@, t.learned@.len() as int, k)
                    ==> exists|p: int| is_first_position(descs@, t.learned@[k], true, p) && summary.tier == Some(
                        #[trigger] descs@[p].tier,
                    )
            },
        },
{
    match tech_state {
        None => ClaimTechSummary { running_upgrade: None, upgrades: Vec::new(), tier: Some(1) },
        Some(t) => {
            let running_upgrade = find_desc(descs, t.researching, true);
            let mut upgrades: Vec<usize> = Vec::new();
            let mut last_tier: Option<usize> = None;
            let mut k: usize = 0;
            while k < t.learned.len()
                invariant
                    k <= t.learned@.len(),
                    forall|m: int| 0 <= m < t.learned@.len() ==> has_desc(descs@, #[trigger] t.learned@[m], false),
                    upgrades@.len() == k,
                    forall|m: int|
                        0 <= m < k ==> is_first_position(
                            descs@,
                            t.learned@[m],
                            false,
                            #[trigger] upgrades@[m] as int,
                        ),
                    match last_tier_learned(descs@, t.learned@, k as int) {
                        Some(id) => last_tier matches Some(p) && is_first_position(descs@, id, true, p as int),
                        None => last_tier is None,
                    },
                decreases t.learned.len() - k,
            {
                let id = t.learned[k];
                let found = find_desc(descs, id, false);
                assert(has_desc(descs@, t.learned@[k as int], false));
                upgrades.push(found.unwrap());
                match find_desc(descs, id, true) {
                    Some(p) => {
                        last_tier = Some(p);
                    },
                    None => {},
                }
                k = k + 1;
            }
            proof {
                lemma_last_tier_learned(descs@, t.learned@, t.learned@.len() as int);
            }
            let tier = match last_tier {
                Some(p) => {
                    proof {
                        let n = t.learned@.len() as int;
                        let id = last_tier_learned(descs@, t.learned@, n).unwrap();
                        let q = first_position(descs@, id, true).unwrap();
                        assert(has_desc(descs@, id, true));
                        lemma_first_position_unique(descs@, id, true, p as int, q);
                        let k0 = choose|k: int| is_last_tier_learned(descs@, t.learned@, n, k) && #[trigger] t.learned@[k] == id;
                        assert forall|k: int| #[trigger] is_last_tier_learned(descs@, t.learned@, n, k) implies exists|r: int|
                            is_first_position(descs@, t.learned@[k], true, r) && Some(descs@[p as int].tier) == Some(
                                #[trigger] descs@[r].tier,
                            ) by {
                            if k < k0 {
                                assert(!has_desc(descs@, t.learned@[k0], true));
                            }
                            if k0 < k {
                                assert(!has_desc(descs@, t.learned@[k], true));
                            }
                            assert(k == k0);
                            assert(is_first_position(descs@, t.learned@[k], true, p as int));
                            let r = p as int;
                            assert(is_first_position(descs@, t.learned@[k], true, r) && Some(descs@[p as int].tier)
                                == Some(descs@[r].tier));
                        }
                    }
                    Some(descs[p].tier)
                },
                None => {
                    proof {
                        let n = t.learned@.len() as int;
                        assert forall|k: int| #[trigger] is_last_tier_learned(descs@, t.learned@, n, k) implies false by {
                            assert(!has_desc(descs@, t.learned@[k], true));
                        }
                    }
                    Some(1)
                },
            };
            ClaimTechSummary { running_upgrade, upgrades, tier }
        },
    }
}

proof fn lemma_first_position_unique(descs: Seq<TechDesc>, id: i32, tier_only: bool, p: int, q: int)
    requires
        is_first_position(descs, id, tier_only, p),
        has_desc(descs, id, tier_only),
        q == first_position(descs, id, tier_only).unwrap(),
    ensures
        p == q,
{
    assert(is_first_position(descs, id, tier_only, p));
    let w = choose|i: int|
        0 <= i < descs.len() && (#[trigger] descs[i]).id == id && (!tier_only || is_tier_upgrade(descs[i]))
            && forall|j: int|
            0 <= j < i ==> !((#[trigger] descs[j]).id == id && (!tier_only || is_tier_upgrade(descs[j])));
    assert(w == q);
    if p < q {
        assert(!((descs[p]).id == id && (!tier_only || is_tier_upgrade(descs[p]))));
    }
    if q < p {
        assert(!((descs[q]).id == id && (!tier_only || is_tier_upgrade(descs[q]))));
    }
}

/// What a claim summary reads of a member's player state.
#[derive(Debug, Clone, Copy, PartialEq, Eq)]
pub struct MemberPlayer {
    pub entity_id: i64,
    pub signed_in: bool,
    pub time_signed_in: i32,
}

/// Sum of the time signed in of the first `n` players, each read as a `u64`.
pub open spec fn time_signed_in_sum(players: Seq<MemberPlayer>, n: int) -> int
    decreases n,
{
    if n <= 0 {
        0
    } else {
        time_signed_in_sum(players, n - 1) + players[n - 1].time_signed_in as u64
    }
}

proof fn lemma_time_sum_monotone(players: Seq<MemberPlayer>, a: int, b: int)
    requires
        0 <= a <= b <= players.len(),
    ensures
        time_signed_in_sum(players, a) <= time_signed_in_sum(players, b),
    decreases b - a,
{
    if a < b {
        lemma_time_sum_monotone(players, a, b - 1);
    }
}

/// The time the players have been signed in, together.
pub fn total_time_signed_in(players: &Vec<MemberPlayer>) -> (total: u64)
    requires
        time_signed_in_sum(players@, players@.len() as int) <= u64::MAX,
    ensures
        total == time_signed_in_sum(players@, players@.len() as int),
{
    let mut total: u64 = 0;
    let mut i: usize = 0;
    while i < players.len()
        invariant
            i <= players.len(),
            total == time_signed_in_sum(players@, i as int),
            time_signed_in_sum(players@, players@.len() as int) <= u64::MAX,
        decreases players.len() - i,
    {
        proof {
            lemma_time_sum_monotone(players@, i + 1, players@.len() as int);
        }
        total = total + players[i].time_signed_in as u64;
        i = i + 1;
    }
    total
}

/// Some signed-in player state is that of `member`.
pub open spec fn signed_in_player(players: Seq<MemberPlayer>, member: i64) -> bool {
    exists|i: int| 0 <= i < players.len() && (#[trigger] players[i]).entity_id == member && players[i].signed_in
}

/// The member at `k` is shown online when some signed-in player state is theirs and no
/// earlier member has their id (each signed-in player marks the first member of theirs).
pub open spec fn online_state_of(players: Seq<MemberPlayer>, members: Seq<i64>, k: int) -> OnlineState {
    if signed_in_player(players, members[k]) && forall|j: int| 0 <= j < k ==> members[j] != members[k] {
        OnlineState::Online
    } else {
        OnlineState::Offline
    }
}

/// The online state of each member (see `online_state_of`).
pub fn member_online_states(members: &Vec<i64>, players: &Vec<MemberPlayer>) -> (states: Vec<OnlineState>)
    ensures
        states@.len() == members@.len(),
        forall|k: int| 0 <= k < members@.len() ==> #[trigger] states@[k] == online_state_of(players@, members@, k),
{
    let mut states: Vec<OnlineState> = Vec::new();
    let mut k: usize = 0;
    while k < members.len()
        invariant
            k <= members.len(),
            states@.len() == k,
            forall|m: int| 0 <= m < k ==> #[trigger] states@[m] == online_state_of(players@, members@, m),
        decreases members.len() - k,
    {
        let member = members[k];
        let mut online = false;
        let mut i: usize = 0;
        while i < players.len()
            invariant
                i <= players.len(),
                online == exists|j: int| 0 <= j < i && (#[trigger] players@[j]).entity_id == member && players@[j].signed_in,
            decreases players.len() - i,
        {
            if players[i].entity_id == member && players[i].signed_in {
                online = true;
            }
            i = i + 1;
        }
        let mut first = true;
        let mut j: usize = 0;
        while j < k
            invariant
                j <= k < members@.len(),
                member == members@[k as int],
                first == forall|q: int| 0 <= q < j ==> members@[q] != member,
            decreases k - j,
        {
            if members[j] == member {
                first = false;
            }
            j = j + 1;
        }
        states.push(if online && first { OnlineState::Online } else { OnlineState::Offline });
        k = k + 1;
    }
    states
}

/// The player ids of the signed-in players (`online`) or of the others, in order.
pub open spec fn player_ids_by_state(players: Seq<MemberPlayer>, online: bool) -> Seq<i64> {
    players.filter(|p: MemberPlayer| p.signed_in == online).map_values(|p: MemberPlayer| p.entity_id)
}

/// The ids of the signed-in players and of the others, each in order.
pub fn split_online(players: &Vec<MemberPlayer>) -> (ids: (Vec<i64>, Vec<i64>))
    ensures
        ids.0@ == player_ids_by_state(players@, true),
        ids.1@ == player_ids_by_state(players@, false),
{
    let mut online: Vec<i64> = Vec::new();
    let mut offline: Vec<i64> = Vec::new();
    let mut i: usize = 0;
    while i < players.len()
        invariant
            i <= players.len(),
            online@ == player_ids_by_state(players@.take(i as int), true),
            offline@ == player_ids_by_state(players@.take(i as int), false),
        decreases players.len() - i,
    {
        let p = players[i];
        proof {
            assert(players@.take(i + 1) =~= players@.take(i as int).push(p));
            players@.take(i as int).lemma_filter_push(p, |q: MemberPlayer| q.signed_in == true);
            players@.take(i as int).lemma_filter_push(p, |q: MemberPlayer| q.signed_in == false);
        }
        if p.signed_in {
            online.push(p.entity_id);
        } else {
            offline.push(p.entity_id);
        }
        proof {
            assert(online@ =~= player_ids_by_state(players@.take(i + 1), true));
            assert(offline@ =~= player_ids_by_state(players@.take(i + 1), false));
        }
        i = i + 1;
    }
    assert(players@.take(i as int) =~= players@);
    (online, offline)
}

/// Whether a stack holds an item or a cargo.
#[derive(Debug, Clone, Copy, PartialEq, Eq, Structural)]
pub enum ItemKind {
    Item,
    Cargo,
}

/// What merging reads of the contents of an inventory pocket.
#[derive(Debug, Clone, Copy, PartialEq, Eq)]
pub struct InventoryStack {
    pub item_id: i32,
    pub item_type: ItemKind,
    pub quantity: i32,
    pub tier: i32,
}

/// One merged stack: the first stack of its item (by position), with the quantity of
/// all stacks of that item.
#[derive(Debug, Clone, Copy, PartialEq, Eq)]
pub struct MergedStack {
    pub first: usize,
    pub item_id: i32,
    pub item_type: ItemKind,
    pub quantity: i32,
    pub tier: i32,
}

/// The stack holds the item `item_id` of kind `item_type`.
pub open spec fn same_item(stack: InventoryStack, item_id: i32, item_type: ItemKind) -> bool {
    stack.item_id == item_id && stack.item_type == item_type
}

/// Quantity of the item among the first `n` stacks.
pub open spec fn item_quantity(stacks: Seq<InventoryStack>, item_id: i32, item_type: ItemKind, n: int) -> int
    decreases n,
{
    if n <= 0 {
        0
    } else {
        item_quantity(stacks, item_id, item_type, n - 1) + if same_item(stacks[n - 1], item_id, item_type) {
            stacks[n - 1].quantity as int
        } else {
            0int
        }
    }
}

/// Every running sum of quantities of one item fits an `i32`.
pub open spec fn quantities_fit(stacks: Seq<InventoryStack>) -> bool {
    forall|item_id: i32, item_type: ItemKind, n: int|
        0 <= n <= stacks.len() ==> i32::MIN <= #[trigger] item_quantity(stacks, item_id, item_type, n) <= i32::MAX
}

/// No two entries of `merged` hold the same item, and their first stacks come in order.
pub open spec fn distinct_in_order(merged: Seq<MergedStack>) -> bool {
    &&& forall|a: int, b: int|
        0 <= a < b < merged.len() ==> !same_item_entries(#[trigger] merged[a], #[trigger] merged[b])
    &&& forall|a: int, b: int| 0 <= a < b < merged.len() ==> (#[trigger] merged[a]).first < (#[trigger] merged[b]).first
}

/// Two entries hold the same item.
pub open spec fn same_item_entries(a: MergedStack, b: MergedStack) -> bool {
    a.item_id == b.item_id && a.item_type == b.item_type
}

/// The entry `m` stands for its item among the first `n` stacks: it sits at the item's
/// first stack, with that stack's tier, and holds the item's quantity.
pub open spec fn entry_of(stacks: Seq<InventoryStack>, n: int, m: MergedStack) -> bool {
    &&& 0 <= m.first < n
    &&& same_item(stacks[m.first as int], m.item_id, m.item_type)
    &&& (forall|j: int| 0 <= j < m.first ==> !same_item(#[trigger] stacks[j], m.item_id, m.item_type))
    &&& m.tier == stacks[m.first as int].tier
    &&& m.quantity == item_quantity(stacks, m.item_id, m.item_type, n)
}

/// Each of the first `n` stacks has the entry of its item in `merged`.
pub open spec fn covers(stacks: Seq<InventoryStack>, n: int, merged: Seq<MergedStack>) -> bool {
    forall|j: int|
        0 <= j < n ==> exists|g: int|
            0 <= g < merged.len() && same_item(#[trigger] stacks[j], merged[g].item_id, merged[g].item_type)
}

/// `merged` merges the first `n` stacks: one entry per item in the order of first
/// appearance, each at its first stack, with the item's quantity.
pub open spec fn merges(stacks: Seq<InventoryStack>, n: int, merged: Seq<MergedStack>) -> bool {
    &&& distinct_in_order(merged)
    &&& forall|g: int| 0 <= g < merged.len() ==> entry_of(stacks, n, #[trigger] merged[g])
    &&& covers(stacks, n, merged)
}

proof fn lemma_quantity_zero(stacks: Seq<InventoryStack>, item_id: i32, item_type: ItemKind, n: int)
    requires
        0 <= n <= stacks.len(),
        forall|j: int| 0 <= j < n ==> !same_item(#[trigger] stacks[j], item_id, item_type),
    ensures
        item_quantity(stacks, item_id, item_type, n) == 0,
    decreases n,
{
    if n > 0 {
        lemma_quantity_zero(stacks, item_id, item_type, n - 1);
    }
}

/// The stack at `i` adds to the entry `f` of its item.
#[verifier::rlimit(30)]
proof fn lemma_merge_into(stacks: Seq<InventoryStack>, i: int, before: Seq<MergedStack>, f: int)
    requires
        0 <= i < stacks.len(),
        merges(stacks, i, before),
        0 <= f < before.len(),
        same_item(stacks[i], before[f].item_id, before[f].item_type),
        i32::MIN <= before[f].quantity + stacks[i].quantity <= i32::MAX,
    ensures
        merges(
            stacks,
            i + 1,
            before.update(
                f,
                MergedStack { quantity: (before[f].quantity + stacks[i].quantity) as i32, ..before[f] },
            ),
        ),
{
    let s = stacks[i];
    let after = before.update(
        f,
        MergedStack { quantity: (before[f].quantity + stacks[i].quantity) as i32, ..before[f] },
    );
    assert forall|g: int| 0 <= g < after.len() implies entry_of(stacks, i + 1, #[trigger] after[g]) by {
        let m = before[g];
        assert(entry_of(stacks, i, m));
        if g != f {
            if g < f {
                assert(!same_item_entries(before[g], before[f]));
            } else {
                assert(!same_item_entries(before[f], before[g]));
            }
            assert(!same_item(s, m.item_id, m.item_type));
        }
    }
    assert forall|a: int, b: int| 0 <= a < b < after.len() implies !same_item_entries(
        #[trigger] after[a],
        #[trigger] after[b],
    ) by {
        assert(!same_item_entries(before[a], before[b]));
    }
    assert forall|a: int, b: int| 0 <= a < b < after.len() implies (#[trigger] after[a]).first
        < (#[trigger] after[b]).first by {
        assert(before[a].first < before[b].first);
    }
    assert forall|j: int| 0 <= j < i + 1 implies exists|h: int|
        0 <= h < after.len() && same_item(#[trigger] stacks[j], after[h].item_id, after[h].item_type) by {
        if j == i {
            assert(same_item(stacks[j], after[f].item_id, after[f].item_type));
        } else {
            let h = choose|h: int|
                0 <= h < before.len() && same_item(#[trigger] stacks[j], before[h].item_id, before[h].item_type);
            assert(same_item(stacks[j], after[h].item_id, after[h].item_type));
        }
    }
}

/// The stack at `i` starts the entry of an item no entry holds yet.
#[verifier::rlimit(30)]
proof fn lemma_merge_new(stacks: Seq<InventoryStack>, i: int, before: Seq<MergedStack>)
    requires
        0 <= i < stacks.len(),
        i <= usize::MAX,
        merges(stacks, i, before),
        forall|h: int|
            0 <= h < before.len() ==> !same_item(stacks[i], #[trigger] before[h].item_id, before[h].item_type),
    ensures
        merges(
            stacks,
            i + 1,
            before.push(
                MergedStack {
                    first: i as usize,
                    item_id: stacks[i].item_id,
                    item_type: stacks[i].item_type,
                    quantity: stacks[i].quantity,
                    tier: stacks[i].tier,
                },
            ),
        ),
{
    let s = stacks[i];
    let entry = MergedStack {
        first: i as usize,
        item_id: s.item_id,
        item_type: s.item_type,
        quantity: s.quantity,
        tier: s.tier,
    };
    let after = before.push(entry);
    assert forall|j: int| 0 <= j < i implies !same_item(#[trigger] stacks[j], s.item_id, s.item_type) by {
        let h = choose|h: int|
            0 <= h < before.len() && same_item(#[trigger] stacks[j], before[h].item_id, before[h].item_type);
        assert(!same_item(s, before[h].item_id, before[h].item_type));
    }
    lemma_quantity_zero(stacks, s.item_id, s.item_type, i);
    assert forall|g: int| 0 <= g < after.len() implies entry_of(stacks, i + 1, #[trigger] after[g]) by {
        if g < before.len() {
            let m = before[g];
            assert(entry_of(stacks, i, m));
            assert(!same_item(s, m.item_id, m.item_type));
        }
    }
    assert forall|a: int, b: int| 0 <= a < b < after.len() implies !same_item_entries(
        #[trigger] after[a],
        #[trigger] after[b],
    ) by {
        if b == before.len() {
            assert(!same_item(s, before[a].item_id, before[a].item_type));
        } else {
            assert(!same_item_entries(before[a], before[b]));
        }
    }
    assert forall|a: int, b: int| 0 <= a < b < after.len() implies (#[trigger] after[a]).first
        < (#[trigger] after[b]).first by {
        if b == before.len() {
            assert(entry_of(stacks, i, before[a]));
        } else {
            assert(before[a].first < before[b].first);
        }
    }
    assert forall|j: int| 0 <= j < i + 1 implies exists|h: int|
        0 <= h < after.len() && same_item(#[trigger] stacks[j], after[h].item_id, after[h].item_type) by {
        if j == i {
            assert(same_item(stacks[j], after[before.len() as int].item_id, after[before.len() as int].item_type));
        } else {
            let h = choose|h: int|
                0 <= h < before.len() && same_item(#[trigger] stacks[j], before[h].item_id, before[h].item_type);
            assert(same_item(stacks[j], after[h].item_id, after[h].item_type));
        }
    }
}

/// Merges stacks of the same item, summing their quantities.
pub fn get_merged_inventories(stacks: &Vec<InventoryStack>) -> (merged: Vec<MergedStack>)
    requires
        quantities_fit(stacks@),
    ensures
        merges(stacks@, stacks@.len() as int, merged@),
{
    let mut merged: Vec<MergedStack> = Vec::new();
    let mut i: usize = 0;
    while i < stacks.len()
        invariant
            i <= stacks.len(),
            quantities_fit(stacks@),
            merges(stacks@, i as int, merged@),
        decreases stacks.len() - i,
    {
        let s = stacks[i];
        let mut g: usize = 0;
        let mut found: Option<usize> = None;
        while g < merged.len()
            invariant
                g <= merged.len(),
                found matches Some(f) ==> f < merged.len() && merged@[f as int].item_id == s.item_id
                    && merged@[f as int].item_type == s.item_type,
                found is None ==> forall|h: int|
                    0 <= h < g ==> !same_item(s, #[trigger] merged@[h].item_id, merged@[h].item_type),
            decreases merged.len() - g,
        {
            if found.is_none() && merged[g].item_id == s.item_id && merged[g].item_type == s.item_type {
                found = Some(g);
            }
            g = g + 1;
        }
        let ghost before = merged@;
        match found {
            Some(f) => {
                let m = merged[f];
                proof {
                    assert(entry_of(stacks@, i as int, before[f as int]));
                    assert(m.quantity == item_quantity(stacks@, s.item_id, s.item_type, i as int));
                    assert(item_quantity(stacks@, s.item_id, s.item_type, i + 1) == m.quantity + s.quantity);
                    assert(i32::MIN <= item_quantity(stacks@, s.item_id, s.item_type, i + 1) <= i32::MAX);
                    lemma_merge_into(stacks@, i as int, before, f as int);
                }
                merged.set(f, MergedStack { quantity: m.quantity + s.quantity, ..m });
            },
            None => {
                proof {
                    lemma_merge_new(stacks@, i as int, before);
                }
                merged.push(
                    MergedStack {
                        first: i,
                        item_id: s.item_id,
                        item_type: s.item_type,
                        quantity: s.quantity,
                        tier: s.tier,
                    },
                );
            },
        }
        i = i + 1;
    }
    merged
}

/// Inventory order: higher tiers first, and within a tier larger quantities first.
impl SortKey for MergedStack {
    open spec fn sort_key(&self) -> (int, int, int) {
        (-(self.tier as int), -(self.quantity as int), 0)
    }

    fn key_at_most(&self, other: &Self) -> (at_most: bool) {
        self.tier > other.tier || (self.tier == other.tier && self.quantity >= other.quantity)
    }
}

/// Merges stacks of the same item (see `merges`) and orders the result: higher tiers
/// first, larger quantities first within a tier, merged entries of equal tier and
/// quantity in order of first appearance.
pub fn sorted_merged_inventories(stacks: &Vec<InventoryStack>) -> (sorted: Vec<MergedStack>)
    requires
        quantities_fit(stacks@),
    ensures
        exists|merged: Seq<MergedStack>| merges(stacks@, stacks@.len() as int, merged) && stably_sorted(merged, sorted@),
{
    let merged = get_merged_inventories(stacks);
    let ghost m = merged@;
    let sorted = stable_sort(merged);
    assert(merges(stacks@, stacks@.len() as int, m) && stably_sorted(m, sorted@));
    sorted
}

/// Skills the claim page leaves out.
pub open spec fn hidden_claim_skill(name: Seq<char>) -> bool {
    name == "ANY"@ || name == "Lore Keeper"@ || name == "Trading"@ || name == "Taming"@ || name == "Exploration"@
}

/// Whether the claim page lists the skill named `name`.
pub fn claim_skill_shown(name: &String) -> (shown: bool)
    ensures
        shown == !hidden_claim_skill(name@),
{
    let text = name.as_str();
    !(same_text(text, "ANY") || same_text(text, "Lore Keeper") || same_text(text, "Trading") || same_text(
        text,
        "Taming",
    ) || same_text(text, "Exploration"))
}

} // verus!
