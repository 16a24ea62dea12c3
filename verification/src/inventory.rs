//! Inventories: the changelog an inventory update writes, the names shown for a
//! player's inventories, and the totals of every item held anywhere.
use crate::claims::ItemKind;
use crate::sorting::{stable_sort, stably_sorted, SortKey};
use crate::text::same_text;
use vstd::prelude::*;

verus! {

/// What the changelog reads of the contents of a pocket.
#[derive(Debug, Clone, Copy, PartialEq, Eq, Structural)]
pub struct PocketContents {
    pub item_id: i32,
    pub item_type: ItemKind,
    pub quantity: i32,
}

/// How a pocket changed.
#[derive(Debug, Clone, Copy, PartialEq, Eq, Structural)]
pub enum TypeOfChange {
    Add,
    Remove,
    Update,
    AddAndRemove,
}

/// One changed pocket: its position, its contents before and after, and how it
/// changed.
#[derive(Debug, Clone, Copy, PartialEq, Eq)]
pub struct PocketChange {
    pub pocket_number: usize,
    pub old: Option<PocketContents>,
    pub new: Option<PocketContents>,
    pub type_of_change: TypeOfChange,
}

/// How a pocket changed from `old` to `new`; `None` when it did not.
pub open spec fn change_of(old: Option<PocketContents>, new: Option<PocketContents>) -> Option<TypeOfChange> {
    if old == new {
        None
    } else {
        match (old, new) {
            (Some(o), Some(n)) => if o.item_id != n.item_id {
                Some(TypeOfChange::AddAndRemove)
            } else {
                Some(TypeOfChange::Update)
            },
            (Some(_), None) => Some(TypeOfChange::Remove),
            _ => Some(TypeOfChange::Add),
        }
    }
}

/// The changes among the first `n` pockets, in pocket order.
pub open spec fn changes_upto(
    old: Seq<Option<PocketContents>>,
    new: Seq<Option<PocketContents>>,
    n: int,
) -> Seq<PocketChange>
    decreases n,
{
    if n <= 0 {
        Seq::empty()
    } else {
        let before = changes_upto(old, new, n - 1);
        match change_of(old[n - 1], new[n - 1]) {
            Some(kind) => before.push(
                PocketChange {
                    pocket_number: (n - 1) as usize,
                    old: old[n - 1],
                    new: new[n - 1],
                    type_of_change: kind,
                },
            ),
            None => before,
        }
    }
}

/// The number of pockets compared: those present both before and after.
pub open spec fn compared_pockets(old: Seq<Option<PocketContents>>, new: Seq<Option<PocketContents>>) -> int {
    if new.len() < old.len() {
        new.len() as int
    } else {
        old.len() as int
    }
}

/// A reducer's changes go to the changelog unless it only sorts the inventory; an
/// update that no reducer made writes none.
pub open spec fn logs_changes(reducer_name: Option<Seq<char>>) -> bool {
    match reducer_name {
        Some(r) => r != "inventory_sort"@,
        None => false,
    }
}

/// The view of an optional reducer name.
pub open spec fn name_view(reducer_name: Option<&str>) -> Option<Seq<char>> {
    match reducer_name {
        Some(r) => Some(r@),
        None => None,
    }
}

fn contents_equal(a: Option<PocketContents>, b: Option<PocketContents>) -> (same: bool)
    ensures
        same == (a == b),
{
    match (a, b) {
        (Some(x), Some(y)) => x.item_id == y.item_id && x.item_type == y.item_type && x.quantity
            == y.quantity,
        (None, None) => true,
        _ => false,
    }
}

/// The changelog entries of an inventory update: for each pocket present before and
/// after whose contents changed, in pocket order, the change; none when the update
/// came from no reducer or from sorting the inventory.
pub fn pocket_changes(
    reducer_name: Option<&str>,
    old: &Vec<Option<PocketContents>>,
    new: &Vec<Option<PocketContents>>,
) -> (changes: Vec<PocketChange>)
    ensures
        changes@ == (if logs_changes(name_view(reducer_name)) {
            changes_upto(old@, new@, compared_pockets(old@, new@))
        } else {
            Seq::empty()
        }),
{
    let mut changes: Vec<PocketChange> = Vec::new();
    let logs = match reducer_name {
        Some(r) => {
            proof {
                reveal_strlit("inventory_sort");
            }
            !same_text(r, "inventory_sort")
        },
        None => false,
    };
    if !logs {
        return changes;
    }
    let n: usize = if new.len() < old.len() {
        new.len()
    } else {
        old.len()
    };
    let mut i: usize = 0;
    while i < n
        invariant
            i <= n,
            n == compared_pockets(old@, new@),
            n <= old@.len(),
            n <= new@.len(),
            changes@ == changes_upto(old@, new@, i as int),
        decreases n - i,
    {
        let o = old[i];
        let w = new[i];
        if !contents_equal(o, w) {
            let kind = match (o, w) {
                (Some(a), Some(b)) => if a.item_id != b.item_id {
                    TypeOfChange::AddAndRemove
                } else {
                    TypeOfChange::Update
                },
                (Some(_), None) => TypeOfChange::Remove,
                _ => TypeOfChange::Add,
            };
            changes.push(PocketChange { pocket_number: i, old: o, new: w, type_of_change: kind });
        }
        i = i + 1;
    }
    changes
}

/// The names a player's own inventories are shown with: 0 is the inventory, 1 the
/// tool belt and 2 the wallet.
pub open spec fn player_inventory_name(inventory_index: i32) -> Option<Seq<char>> {
    if inventory_index == 0 {
        Some("Inventory"@)
    } else if inventory_index == 2 {
        Some("Wallet"@)
    } else if inventory_index == 1 {
        Some("Tool belt"@)
    } else {
        None
    }
}

/// The nickname of the last entry of `nicknames` for `owner`.
pub open spec fn nickname_of(nicknames: Seq<(i64, String)>, owner: i64) -> Option<String>
    decreases nicknames.len(),
{
    if nicknames.len() == 0 {
        None
    } else if nicknames.last().0 == owner {
        Some(nicknames.last().1)
    } else {
        nickname_of(nicknames.drop_last(), owner)
    }
}

/// The view of an optional text.
pub open spec fn opt_view(s: Option<String>) -> Option<Seq<char>> {
    match s {
        Some(t) => Some(t@),
        None => None,
    }
}

/// The name an inventory is listed with: the nickname of the deployable that owns it
/// (the last one given for it), else for an inventory of the player the name of its
/// index, else none.
pub fn inventory_nickname(
    owner_entity_id: i64,
    inventory_index: i32,
    nicknames: &Vec<(i64, String)>,
    player_entity_id: Option<i64>,
) -> (nickname: Option<String>)
    ensures
        match nickname_of(nicknames@, owner_entity_id) {
            Some(n) => nickname == Some(n),
            None => opt_view(nickname) == (if player_entity_id == Some(owner_entity_id) {
                player_inventory_name(inventory_index)
            } else {
                None
            }),
        },
{
    let mut i: usize = nicknames.len();
    assert(nicknames@.take(i as int) =~= nicknames@);
    while i > 0
        invariant
            i <= nicknames.len(),
            nickname_of(nicknames@, owner_entity_id) == nickname_of(nicknames@.take(i as int), owner_entity_id),
        decreases i,
    {
        assert(nicknames@.take(i as int).drop_last() =~= nicknames@.take(i - 1));
        if nicknames[i - 1].0 == owner_entity_id {
            return Some(nicknames[i - 1].1.clone());
        }
        i = i - 1;
    }
    assert(nicknames@.take(0) =~= Seq::<(i64, String)>::empty());
    proof {
        reveal_strlit("Inventory");
        reveal_strlit("Wallet");
        reveal_strlit("Tool belt");
    }
    match player_entity_id {
        Some(p) => {
            if owner_entity_id != p {
                return None;
            }
            if inventory_index == 0 {
                Some(String::from_str("Inventory"))
            } else if inventory_index == 2 {
                Some(String::from_str("Wallet"))
            } else if inventory_index == 1 {
                Some(String::from_str("Tool belt"))
            } else {
                None
            }
        },
        None => None,
    }
}

/// The pocket holds the item `item_id` of kind `kind`.
pub open spec fn holds(c: PocketContents, kind: ItemKind, item_id: i32) -> bool {
    c.item_type == kind && c.item_id == item_id
}

/// Quantity of the item among the first `n` pocket contents.
pub open spec fn kind_total(contents: Seq<PocketContents>, kind: ItemKind, item_id: i32, n: int) -> int
    decreases n,
{
    if n <= 0 {
        0
    } else {
        kind_total(contents, kind, item_id, n - 1) + if holds(contents[n - 1], kind, item_id) {
            contents[n - 1].quantity as int
        } else {
            0int
        }
    }
}

/// The total held of one item: the position of its first pocket, the item, and the
/// quantity in all its pockets.
#[derive(Debug, Clone, Copy, PartialEq, Eq)]
pub struct ItemTotal {
    pub first: usize,
    pub item_id: i32,
    pub quantity: i64,
}

/// `e` is the total of its item among the first `n` contents: it sits at the item's
/// first pocket and holds the item's whole quantity.
pub open spec fn total_entry(contents: Seq<PocketContents>, kind: ItemKind, n: int, e: ItemTotal) -> bool {
    &&& 0 <= e.first < n
    &&& holds(contents[e.first as int], kind, e.item_id)
    &&& forall|j: int| 0 <= j < e.first ==> !holds(#[trigger] contents[j], kind, e.item_id)
    &&& e.quantity == kind_total(contents, kind, e.item_id, n)
}

/// `t` totals the items of kind `kind` among the first `n` contents: one entry per item,
/// in the order of first appearance.
pub open spec fn totals(contents: Seq<PocketContents>, kind: ItemKind, n: int, t: Seq<ItemTotal>) -> bool {
    &&& forall|a: int, b: int| 0 <= a < b < t.len() ==> (#[trigger] t[a]).first < (#[trigger] t[b]).first
    &&& forall|g: int| 0 <= g < t.len() ==> total_entry(contents, kind, n, #[trigger] t[g])
    &&& forall|j: int|
        0 <= j < n && (#[trigger] contents[j]).item_type == kind ==> exists|g: int|
            0 <= g < t.len() && t[g].item_id == contents[j].item_id
}

/// The largest number of pocket contents whose totals always fit an `i64`.
pub const MAX_CONTENTS: usize = 4_294_967_295;

proof fn lemma_total_bounds(contents: Seq<PocketContents>, kind: ItemKind, item_id: i32, n: int)
    requires
        0 <= n <= contents.len(),
    ensures
        -2_147_483_648 * n <= kind_total(contents, kind, item_id, n) <= 2_147_483_647 * n,
    decreases n,
{
    if n > 0 {
        lemma_total_bounds(contents, kind, item_id, n - 1);
    }
}

proof fn lemma_total_zero(contents: Seq<PocketContents>, kind: ItemKind, item_id: i32, n: int)
    requires
        0 <= n <= contents.len(),
        forall|j: int| 0 <= j < n ==> !holds(#[trigger] contents[j], kind, item_id),
    ensures
        kind_total(contents, kind, item_id, n) == 0,
    decreases n,
{
    if n > 0 {
        lemma_total_zero(contents, kind, item_id, n - 1);
    }
}

/// The content at `i` adds to the entry `f` of its item.
#[verifier::spinoff_prover]
#[verifier::rlimit(60)]
proof fn lemma_total_into(contents: Seq<PocketContents>, kind: ItemKind, i: int, before: Seq<ItemTotal>, f: int)
    requires
        0 <= i < contents.len(),
        totals(contents, kind, i, before),
        0 <= f < before.len(),
        holds(contents[i], kind, before[f].item_id),
        i64::MIN <= before[f].quantity + contents[i].quantity <= i64::MAX,
    ensures
        totals(
            contents,
            kind,
            i + 1,
            before.update(f, ItemTotal { quantity: (before[f].quantity + contents[i].quantity) as i64, ..before[f] }),
        ),
{
    let c = contents[i];
    let after = before.update(f, ItemTotal { quantity: (before[f].quantity + c.quantity) as i64, ..before[f] });
    assert forall|g: int| 0 <= g < after.len() implies total_entry(contents, kind, i + 1, #[trigger] after[g]) by {
        assert(total_entry(contents, kind, i, before[g]));
        if g != f {
            if before[g].item_id == before[f].item_id {
                if g < f {
                    assert(before[g].first < before[f].first);
                    assert(!holds(contents[before[g].first as int], kind, before[f].item_id));
                } else {
                    assert(before[f].first < before[g].first);
                    assert(!holds(contents[before[f].first as int], kind, before[g].item_id));
                }
            }
            assert(!holds(c, kind, before[g].item_id));
        }
    }
    assert forall|a: int, b: int| 0 <= a < b < after.len() implies (#[trigger] after[a]).first
        < (#[trigger] after[b]).first by {
        assert(before[a].first < before[b].first);
    }
    assert forall|j: int| 0 <= j < i + 1 && (#[trigger] contents[j]).item_type == kind implies exists|g: int|
        0 <= g < after.len() && after[g].item_id == contents[j].item_id by {
        if j == i {
            assert(after[f].item_id == contents[j].item_id);
        } else {
            let g = choose|g: int| 0 <= g < before.len() && before[g].item_id == contents[j].item_id;
            assert(after[g].item_id == contents[j].item_id);
        }
    }
}

/// The content at `i` starts the entry of an item no entry holds yet.
#[verifier::spinoff_prover]
#[verifier::rlimit(60)]
proof fn lemma_total_new(contents: Seq<PocketContents>, kind: ItemKind, i: int, before: Seq<ItemTotal>)
    requires
        0 <= i < contents.len(),
        i <= usize::MAX,
        totals(contents, kind, i, before),
        contents[i].item_type == kind,
        forall|h: int| 0 <= h < before.len() ==> (#[trigger] before[h]).item_id != contents[i].item_id,
    ensures
        totals(
            contents,
            kind,
            i + 1,
            before.push(ItemTotal { first: i as usize, item_id: contents[i].item_id, quantity: contents[i].quantity as i64 }),
        ),
{
    let c = contents[i];
    let entry = ItemTotal { first: i as usize, item_id: c.item_id, quantity: c.quantity as i64 };
    let after = before.push(entry);
    assert forall|j: int| 0 <= j < i implies !holds(#[trigger] contents[j], kind, c.item_id) by {
        if holds(contents[j], kind, c.item_id) {
            let g = choose|g: int| 0 <= g < before.len() && before[g].item_id == contents[j].item_id;
            assert(before[g].item_id == c.item_id);
        }
    }
    lemma_total_zero(contents, kind, c.item_id, i);
    assert forall|g: int| 0 <= g < after.len() implies total_entry(contents, kind, i + 1, #[trigger] after[g]) by {
        if g < before.len() {
            assert(total_entry(contents, kind, i, before[g]));
            assert(before[g].item_id != c.item_id);
        }
    }
    assert forall|a: int, b: int| 0 <= a < b < after.len() implies (#[trigger] after[a]).first
        < (#[trigger] after[b]).first by {
        if b == before.len() {
            assert(total_entry(contents, kind, i, before[a]));
        } else {
            assert(before[a].first < before[b].first);
        }
    }
    assert forall|j: int| 0 <= j < i + 1 && (#[trigger] contents[j]).item_type == kind implies exists|g: int|
        0 <= g < after.len() && after[g].item_id == contents[j].item_id by {
        if j == i {
            assert(after[before.len() as int].item_id == contents[j].item_id);
        } else {
            let g = choose|g: int| 0 <= g < before.len() && before[g].item_id == contents[j].item_id;
            assert(after[g].item_id == contents[j].item_id);
        }
    }
}

/// The totals of the items of kind `kind`, in the order of first appearance.
fn kind_totals(contents: &Vec<PocketContents>, kind: ItemKind) -> (t: Vec<ItemTotal>)
    requires
        contents.len() <= MAX_CONTENTS,
    ensures
        totals(contents@, kind, contents@.len() as int, t@),
{
    let mut t: Vec<ItemTotal> = Vec::new();
    let mut i: usize = 0;
    while i < contents.len()
        invariant
            i <= contents.len(),
            contents.len() <= MAX_CONTENTS,
            totals(contents@, kind, i as int, t@),
        decreases contents.len() - i,
    {
        let c = contents[i];
        if c.item_type == kind {
            let mut g: usize = 0;
            let mut found: Option<usize> = None;
            while g < t.len()
                invariant
                    g <= t.len(),
                    found matches Some(f) ==> f < t.len() && t@[f as int].item_id == c.item_id,
                    found is None ==> forall|h: int| 0 <= h < g ==> (#[trigger] t@[h]).item_id != c.item_id,
                decreases t.len() - g,
            {
                if found.is_none() && t[g].item_id == c.item_id {
                    found = Some(g);
                }
                g = g + 1;
            }
            let ghost before = t@;
            match found {
                Some(f) => {
                    let e = t[f];
                    proof {
                        assert(total_entry(contents@, kind, i as int, before[f as int]));
                        lemma_total_bounds(contents@, kind, c.item_id, i + 1);
                        assert(kind_total(contents@, kind, c.item_id, i + 1) == e.quantity + c.quantity);
                        lemma_total_into(contents@, kind, i as int, before, f as int);
                    }
                    t.set(f, ItemTotal { quantity: e.quantity + c.quantity as i64, ..e });
                },
                None => {
                    proof {
                        lemma_total_new(contents@, kind, i as int, before);
                    }
                    t.push(ItemTotal { first: i, item_id: c.item_id, quantity: c.quantity as i64 });
                },
            }
        } else {
            proof {
                let before = t@;
                assert forall|g: int| 0 <= g < before.len() implies total_entry(
                    contents@,
                    kind,
                    i + 1,
                    #[trigger] before[g],
                ) by {
                    assert(total_entry(contents@, kind, i as int, before[g]));
                }
            }
        }
        i = i + 1;
    }
    t
}

/// Larger totals first.
impl SortKey for ItemTotal {
    open spec fn sort_key(&self) -> (int, int, int) {
        (-(self.quantity as int), 0, 0)
    }

    fn key_at_most(&self, other: &Self) -> (at_most: bool) {
        self.quantity >= other.quantity
    }
}

/// The totals of every item and of every cargo held in the given pocket contents,
/// each list ordered by decreasing quantity, equal quantities in the order of first
/// appearance.
pub fn all_inventory_stats(contents: &Vec<PocketContents>) -> (stats: (Vec<ItemTotal>, Vec<ItemTotal>))
    requires
        contents.len() <= MAX_CONTENTS,
    ensures
        exists|t: Seq<ItemTotal>|
            #[trigger] totals(contents@, ItemKind::Item, contents@.len() as int, t) && stably_sorted(t, stats.0@),
        exists|t: Seq<ItemTotal>|
            #[trigger] totals(contents@, ItemKind::Cargo, contents@.len() as int, t) && stably_sorted(t, stats.1@),
{
    let items = kind_totals(contents, ItemKind::Item);
    let ghost it = items@;
    let cargo = kind_totals(contents, ItemKind::Cargo);
    let ghost ct = cargo@;
    let items = stable_sort(items);
    let cargo = stable_sort(cargo);
    assert(totals(contents@, ItemKind::Item, contents@.len() as int, it) && stably_sorted(it, items@));
    assert(totals(contents@, ItemKind::Cargo, contents@.len() as int, ct) && stably_sorted(ct, cargo@));
    (items, cargo)
}

/// An inventory by its entity id and its position in a listing.
#[derive(Debug, Clone, Copy, PartialEq, Eq)]
pub struct EntityAt {
    pub entity_id: i64,
    pub position: usize,
}

/// Inventories are listed by increasing entity id.
impl SortKey for EntityAt {
    open spec fn sort_key(&self) -> (int, int, int) {
        (self.entity_id as int, 0, 0)
    }

    fn key_at_most(&self, other: &Self) -> (at_most: bool) {
        self.entity_id <= other.entity_id
    }
}

/// The entity ids of a listing, each with its position.
pub open spec fn positioned(ids: Seq<i64>) -> Seq<EntityAt> {
    Seq::new(ids.len(), |i: int| EntityAt { entity_id: ids[i], position: i as usize })
}

/// The order in which a listing of inventories is shown: by increasing entity id,
/// equal ids in listing order.
pub fn entity_order(ids: &Vec<i64>) -> (order: Vec<EntityAt>)
    ensures
        stably_sorted(positioned(ids@), order@),
{
    let mut at: Vec<EntityAt> = Vec::new();
    let mut i: usize = 0;
    while i < ids.len()
        invariant
            i <= ids.len(),
            at@ == positioned(ids@).take(i as int),
        decreases ids.len() - i,
    {
        at.push(EntityAt { entity_id: ids[i], position: i });
        assert(at@ =~= positioned(ids@).take(i + 1));
        i = i + 1;
    }
    assert(at@ =~= positioned(ids@));
    stable_sort(at)
}

/// The position of a member's tool belt among their inventories: the first whose index
/// is 1.
pub fn tool_belt_position(inventory_indexes: &Vec<i32>) -> (found: Option<usize>)
    ensures
        match found {
            Some(p) => p < inventory_indexes@.len() && inventory_indexes@[p as int] == 1 && forall|j: int|
                0 <= j < p ==> inventory_indexes@[j] != 1,
            None => forall|j: int| 0 <= j < inventory_indexes@.len() ==> inventory_indexes@[j] != 1,
        },
{
    let mut p: usize = 0;
    while p < inventory_indexes.len()
        invariant
            p <= inventory_indexes.len(),
            forall|j: int| 0 <= j < p ==> inventory_indexes@[j] != 1,
        decreases inventory_indexes.len() - p,
    {
        if inventory_indexes[p] == 1 {
            return Some(p);
        }
        p = p + 1;
    }
    None
}

} // verus!
