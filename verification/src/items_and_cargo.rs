//! The combined item and cargo catalogue listing: filtering, ordering, paging, and the
//! tag and tier lists offered as filters.
use crate::sorting::{distinct_keys, key_le, lemma_stably_sorted_keeps_keys_distinct, stable_sort, stably_sorted, SortKey};
use crate::text::{
    contains_text, contains_text_spec, lowercase, sort_texts, text_le, texts, to_lowercase,
};
use vstd::prelude::*;

verus! {

/// What the listing reads of an item or cargo description.
#[derive(Debug, PartialEq, Eq)]
pub struct CatalogItem {
    pub id: i32,
    pub name: String,
    pub tier: i32,
    pub tag: String,
}

impl Clone for CatalogItem {
    fn clone(&self) -> (copy: Self)
        ensures
            copy == *self,
    {
        CatalogItem { id: self.id, name: self.name.clone(), tier: self.tier, tag: self.tag.clone() }
    }
}

/// An item or a cargo in the combined listing.
#[derive(Debug, PartialEq, Eq)]
pub enum ItemCargo {
    Item(CatalogItem),
    Cargo(CatalogItem),
}

impl ItemCargo {
    /// The description inside.
    pub open spec fn desc(self) -> CatalogItem {
        match self {
            ItemCargo::Item(d) => d,
            ItemCargo::Cargo(d) => d,
        }
    }
}

impl Clone for ItemCargo {
    fn clone(&self) -> (copy: Self)
        ensures
            copy == *self,
    {
        match self {
            ItemCargo::Item(d) => ItemCargo::Item(d.clone()),
            ItemCargo::Cargo(d) => ItemCargo::Cargo(d.clone()),
        }
    }
}

/// Listing order: positive tiers first by tier, then tiers of 0 and below by tier;
/// within a tier by id.
impl SortKey for ItemCargo {
    open spec fn sort_key(&self) -> (int, int, int) {
        let d = self.desc();
        (if d.tier > 0 {
            0
        } else {
            1
        }, d.tier as int, d.id as int)
    }

    fn key_at_most(&self, other: &Self) -> (at_most: bool) {
        let a = match self {
            ItemCargo::Item(d) => d,
            ItemCargo::Cargo(d) => d,
        };
        let b = match other {
            ItemCargo::Item(d) => d,
            ItemCargo::Cargo(d) => d,
        };
        let a_class: i32 = if a.tier > 0 {
            0
        } else {
            1
        };
        let b_class: i32 = if b.tier > 0 {
            0
        } else {
            1
        };
        a_class < b_class || (a_class == b_class && (a.tier < b.tier || (a.tier == b.tier && a.id
            <= b.id)))
    }
}

/// Tiers are listed in increasing order.
impl SortKey for i64 {
    open spec fn sort_key(&self) -> (int, int, int) {
        (*self as int, 0, 0)
    }

    fn key_at_most(&self, other: &Self) -> (at_most: bool) {
        *self <= *other
    }
}

/// Query parameters of the listing.
#[derive(Debug, PartialEq, Eq)]
pub struct ItemsAndCargoParams {
    pub page: Option<u64>,
    pub per_page: Option<u64>,
    pub search: Option<String>,
    pub tier: Option<i32>,
    pub tag: Option<String>,
}

/// One page of the listing, with the tags and tiers offered as filters.
#[derive(Debug, PartialEq, Eq)]
pub struct ItemsAndCargoResponse {
    pub items: Vec<ItemCargo>,
    pub tags: Vec<String>,
    pub tiers: Vec<i64>,
    pub per_page: u64,
    pub total: u64,
    pub page: u64,
    pub pages: u64,
}

/// The tags and tiers offered as filters.
#[derive(Debug, PartialEq, Eq)]
pub struct MetaResponse {
    pub tags: Vec<String>,
    pub tiers: Vec<i64>,
}

/// `existing` followed by each value of `incoming` not seen before, in order.
pub open spec fn merged<T>(existing: Seq<T>, incoming: Seq<T>) -> Seq<T>
    decreases incoming.len(),
{
    if incoming.len() == 0 {
        existing
    } else {
        let so_far = merged(existing, incoming.drop_last());
        if so_far.contains(incoming.last()) {
            so_far
        } else {
            so_far.push(incoming.last())
        }
    }
}

/// Item tags followed by the cargo tags not among them.
pub fn merge_tags(items_tags: Vec<String>, cargo_tags: Vec<String>) -> (merged_tags: Vec<String>)
    ensures
        texts(merged_tags@) == merged(texts(items_tags@), texts(cargo_tags@)),
{
    let mut merged_tags = items_tags;
    let ghost start = texts(merged_tags@);
    let mut i: usize = 0;
    while i < cargo_tags.len()
        invariant
            i <= cargo_tags.len(),
            texts(merged_tags@) == merged(start, texts(cargo_tags@).take(i as int)),
        decreases cargo_tags.len() - i,
    {
        let tag = &cargo_tags[i];
        let mut found = false;
        let mut j: usize = 0;
        while j < merged_tags.len()
            invariant
                j <= merged_tags.len(),
                found == exists|k: int| 0 <= k < j && texts(merged_tags@)[k] == tag@,
            decreases merged_tags.len() - j,
        {
            assert(texts(merged_tags@)[j as int] == merged_tags@[j as int]@);
            if merged_tags[j] == *tag {
                found = true;
            }
            j = j + 1;
        }
        proof {
            let incoming = texts(cargo_tags@).take(i + 1);
            assert(incoming.drop_last() =~= texts(cargo_tags@).take(i as int));
            assert(incoming.last() == tag@);
            if found {
                let k = choose|k: int| 0 <= k < merged_tags.len() && texts(merged_tags@)[k] == tag@;
                assert(texts(merged_tags@).contains(tag@));
            } else {
                assert(!texts(merged_tags@).contains(tag@));
            }
        }
        if !found {
            let ghost before = merged_tags@;
            let copy = tag.clone();
            merged_tags.push(copy);
            assert(texts(merged_tags@) =~= texts(before).push(tag@));
        }
        i = i + 1;
    }
    assert(texts(cargo_tags@).take(cargo_tags.len() as int) =~= texts(cargo_tags@));
    merged_tags
}


/// Item tiers followed by the cargo tiers not among them.
pub fn merge_tiers(items_tiers: Vec<i64>, cargo_tiers: Vec<i64>) -> (merged_tiers: Vec<i64>)
    ensures
        merged_tiers@ == merged(items_tiers@, cargo_tiers@),
{
    let mut merged_tiers = items_tiers;
    let ghost start = merged_tiers@;
    let mut i: usize = 0;
    while i < cargo_tiers.len()
        invariant
            i <= cargo_tiers.len(),
            merged_tiers@ == merged(start, cargo_tiers@.take(i as int)),
        decreases cargo_tiers.len() - i,
    {
        let tier = cargo_tiers[i];
        let mut found = false;
        let mut j: usize = 0;
        while j < merged_tiers.len()
            invariant
                j <= merged_tiers.len(),
                found == exists|k: int| 0 <= k < j && merged_tiers@[k] == tier,
            decreases merged_tiers.len() - j,
        {
            if merged_tiers[j] == tier {
                found = true;
            }
            j = j + 1;
        }
        proof {
            let incoming = cargo_tiers@.take(i + 1);
            assert(incoming.drop_last() =~= cargo_tiers@.take(i as int));
            assert(incoming.last() == tier);
            if found {
                let k = choose|k: int| 0 <= k < merged_tiers.len() && merged_tiers@[k] == tier;
                assert(merged_tiers@.contains(tier));
            }
        }
        if !found {
            merged_tiers.push(tier);
        }
        i = i + 1;
    }
    assert(cargo_tiers@.take(cargo_tiers.len() as int) =~= cargo_tiers@);
    merged_tiers
}

/// What the merge holds: every value of either list, nothing else; the existing list
/// stays in front as it was; and no value occurs twice unless it did so in `existing`.
pub proof fn lemma_merged_is_union<T>(existing: Seq<T>, incoming: Seq<T>)
    ensures
        forall|x: T| #[trigger] merged(existing, incoming).contains(x) <==> (existing.contains(x)
            || incoming.contains(x)),
        merged(existing, incoming).len() >= existing.len(),
        merged(existing, incoming).take(existing.len() as int) == existing,
        existing.no_duplicates() ==> merged(existing, incoming).no_duplicates(),
    decreases incoming.len(),
{
    if incoming.len() == 0 {
        assert(existing.take(existing.len() as int) =~= existing);
    } else {
        let rest = incoming.drop_last();
        let last = incoming.last();
        lemma_merged_is_union(existing, rest);
        let so_far = merged(existing, rest);
        assert(incoming =~= rest.push(last));
        assert forall|x: T| #[trigger] incoming.contains(x) <==> (rest.contains(x) || x == last) by {
            if incoming.contains(x) {
                let k = choose|k: int| 0 <= k < incoming.len() && incoming[k] == x;
                if k < rest.len() {
                    assert(rest[k] == x);
                }
            }
            if rest.contains(x) {
                let k = choose|k: int| 0 <= k < rest.len() && rest[k] == x;
                assert(incoming[k] == x);
            }
            if x == last {
                assert(incoming[incoming.len() - 1] == x);
            }
        }
        if !so_far.contains(last) {
            let grown = so_far.push(last);
            assert forall|x: T| #[trigger] grown.contains(x) <==> (so_far.contains(x) || x == last) by {
                if grown.contains(x) {
                    let k = choose|k: int| 0 <= k < grown.len() && grown[k] == x;
                    if k < so_far.len() {
                        assert(so_far[k] == x);
                    }
                }
                if so_far.contains(x) {
                    let k = choose|k: int| 0 <= k < so_far.len() && so_far[k] == x;
                    assert(grown[k] == x);
                }
                if x == last {
                    assert(grown[grown.len() - 1] == x);
                }
            }
            assert(grown.take(existing.len() as int) =~= so_far.take(existing.len() as int));
        }
    }
}


/// The search text as the listing compares it: lower-cased when read, and again
/// when compared.
pub open spec fn search_needle(search: Seq<char>) -> Seq<char> {
    lowercase(lowercase(search))
}

/// An entry passes the filters: the tier and tag when given, and the lower-cased
/// name containing the search text when given.
pub open spec fn passes_filters(
    d: CatalogItem,
    search: Option<Seq<char>>,
    tier: Option<i32>,
    tag: Option<Seq<char>>,
) -> bool {
    &&& (tier matches Some(t) ==> d.tier == t)
    &&& (tag matches Some(t) ==> d.tag@ == t)
    &&& (search matches Some(q) ==> contains_text_spec(lowercase(d.name@), search_needle(q)))
}

/// The search text of optional parameters, by its view.
pub open spec fn opt_text(s: Option<String>) -> Option<Seq<char>> {
    match s {
        Some(t) => Some(t@),
        None => None,
    }
}

/// Whether `d` passes the filters; `needle` is the search text already lower-cased
/// twice.
fn passes(d: &CatalogItem, needle: &Option<String>, tier: Option<i32>, tag: &Option<String>) -> (ok:
    bool)
    ensures
        ok == ((tier matches Some(t) ==> d.tier == t) && (tag matches Some(t) ==> d.tag@ == t@) && (
        needle matches Some(q) ==> contains_text_spec(lowercase(d.name@), q@))),
{
    if let Some(t) = tier {
        if d.tier != t {
            return false;
        }
    }
    if let Some(t) = tag {
        if d.tag != *t {
            return false;
        }
    }
    if let Some(q) = needle {
        let name = to_lowercase(d.name.as_str());
        if !contains_text(name.as_str(), q.as_str()) {
            return false;
        }
    }
    true
}

/// The entries of `descs` that pass the filters, in order.
fn filtered(
    descs: &Vec<CatalogItem>,
    needle: &Option<String>,
    tier: Option<i32>,
    tag: &Option<String>,
    search: Ghost<Option<Seq<char>>>,
) -> (kept: Vec<CatalogItem>)
    requires
        needle matches Some(q) ==> search@ matches Some(raw) && q@ == search_needle(raw),
        needle is None ==> search@ is None,
    ensures
        kept@ == descs@.filter(|d: CatalogItem| passes_filters(d, search@, tier, opt_text(*tag))),
{
    let ghost pred = |d: CatalogItem| passes_filters(d, search@, tier, opt_text(*tag));
    let mut kept: Vec<CatalogItem> = Vec::new();
    let mut i: usize = 0;
    while i < descs.len()
        invariant
            i <= descs.len(),
            pred == (|d: CatalogItem| passes_filters(d, search@, tier, opt_text(*tag))),
            needle matches Some(q) ==> search@ matches Some(raw) && q@ == search_needle(raw),
            needle is None ==> search@ is None,
            kept@ == descs@.take(i as int).filter(pred),
        decreases descs.len() - i,
    {
        let d = &descs[i];
        let ok = passes(d, needle, tier, tag);
        proof {
            reveal(Seq::filter);
            assert(descs@.take(i + 1).drop_last() =~= descs@.take(i as int));
            assert(ok == pred(descs@[i as int]));
        }
        if ok {
            kept.push(d.clone());
        }
        i = i + 1;
    }
    assert(descs@.take(descs.len() as int) =~= descs@);
    kept
}

/// Items first, then cargo, each wrapped as the listing entry of its kind.
pub open spec fn combined(items: Seq<CatalogItem>, cargo: Seq<CatalogItem>) -> Seq<ItemCargo> {
    items.map_values(|d: CatalogItem| ItemCargo::Item(d)) + cargo.map_values(
        |d: CatalogItem| ItemCargo::Cargo(d),
    )
}

/// Wraps the items and the cargo as listing entries, items first.
pub fn merge_items_and_cargo(items: Vec<CatalogItem>, cargo: Vec<CatalogItem>) -> (merged_items: Vec<
    ItemCargo,
>)
    ensures
        merged_items@ == combined(items@, cargo@),
{
    let mut merged_items: Vec<ItemCargo> = Vec::new();
    let mut items = items;
    let ghost all_items = items@;
    let n = items.len();
    assert(all_items.len() == n);
    let mut i: usize = 0;
    while items.len() > 0
        invariant
            i + items.len() == all_items.len(),
            all_items.len() <= usize::MAX,
            items@ == all_items.skip(i as int),
            merged_items@ == all_items.take(i as int).map_values(|d: CatalogItem| ItemCargo::Item(d)),
        decreases items.len(),
    {
        let d = items.remove(0);
        assert(d == all_items[i as int]);
        merged_items.push(ItemCargo::Item(d));
        assert(all_items.take(i + 1) =~= all_items.take(i as int).push(d));
        assert(items@ =~= all_items.skip(i + 1));
        i = i + 1;
    }
    assert(all_items.take(i as int) =~= all_items);
    let ghost front = merged_items@;
    let mut cargo = cargo;
    let ghost all_cargo = cargo@;
    let m = cargo.len();
    assert(all_cargo.len() == m);
    let mut c: usize = 0;
    while cargo.len() > 0
        invariant
            c + cargo.len() == all_cargo.len(),
            all_cargo.len() <= usize::MAX,
            cargo@ == all_cargo.skip(c as int),
            merged_items@ == front + all_cargo.take(c as int).map_values(
                |d: CatalogItem| ItemCargo::Cargo(d),
            ),
        decreases cargo.len(),
    {
        let d = cargo.remove(0);
        assert(d == all_cargo[c as int]);
        merged_items.push(ItemCargo::Cargo(d));
        assert(all_cargo.take(c + 1) =~= all_cargo.take(c as int).push(d));
        assert(cargo@ =~= all_cargo.skip(c + 1));
        c = c + 1;
    }
    assert(all_cargo.take(c as int) =~= all_cargo);
    merged_items
}


/// The entries that pass the filters of `params`: items first, then cargo, each in
/// the order given.
pub open spec fn candidates(
    items: Seq<CatalogItem>,
    cargo: Seq<CatalogItem>,
    params: ItemsAndCargoParams,
) -> Seq<ItemCargo> {
    let keep = |d: CatalogItem|
        passes_filters(d, opt_text(params.search), params.tier, opt_text(params.tag));
    combined(items.filter(keep), cargo.filter(keep))
}

/// The page number asked for, 1 when none is given.
pub open spec fn page_asked(params: ItemsAndCargoParams) -> int {
    match params.page {
        Some(p) => p as int,
        None => 1,
    }
}

/// The page size asked for, 5 when none is given.
pub open spec fn per_page_asked(params: ItemsAndCargoParams) -> int {
    match params.per_page {
        Some(p) => p as int,
        None => 5,
    }
}

/// The listing cannot be served: page 0, a page size of 0, a page end past the
/// largest `u64`, or a page that starts beyond the end of a shorter listing.
pub open spec fn listing_fails(len: int, page: int, per_page: int) -> bool {
    ||| page == 0
    ||| per_page == 0
    ||| page * per_page > u64::MAX
    ||| (len < page * per_page && (page - 1) * per_page > len)
}

/// The entries shown on a page: those from the page start to its end when the
/// listing runs past the page end, from the page start to the listing's end when it
/// ends before the page end, and none when it ends exactly at the page end.
pub open spec fn page_of(listing: Seq<ItemCargo>, page: int, per_page: int) -> Seq<ItemCargo> {
    let start = (page - 1) * per_page;
    let end = page * per_page;
    if listing.len() > end {
        listing.subrange(start, end)
    } else if listing.len() < end {
        listing.subrange(start, listing.len() as int)
    } else {
        Seq::empty()
    }
}

/// The number of pages: the listing length divided by the page size, rounded up.
pub open spec fn page_count(len: int, per_page: int) -> int {
    len / per_page + if len % per_page == 0 {
        0int
    } else {
        1int
    }
}

/// The entries of a listing shown on one page; `None` where no page can be cut.
pub fn cut_page(listing: &Vec<ItemCargo>, page: u64, per_page: u64) -> (shown: Option<Vec<ItemCargo>>)
    ensures
        match shown {
            None => listing_fails(listing@.len() as int, page as int, per_page as int),
            Some(v) => !listing_fails(listing@.len() as int, page as int, per_page as int) && v@
                == page_of(listing@, page as int, per_page as int),
        },
{
    if page == 0 || per_page == 0 {
        return None;
    }
    let end = match page.checked_mul(per_page) {
        Some(e) => e,
        None => {
            return None;
        },
    };
    assert(end >= per_page && end - per_page == (page - 1) * per_page) by (nonlinear_arith)
        requires
            end == page * per_page,
            page >= 1,
    ;
    let start = end - per_page;
    let n: usize = listing.len();
    let len = n as u64;
    if len < end && start > len {
        return None;
    }
    let mut shown: Vec<ItemCargo> = Vec::new();
    if len != end {
        let stop: usize = if len > end {
            end as usize
        } else {
            n
        };
        let first: usize = start as usize;
        let mut i: usize = first;
        while i < stop
            invariant
                first <= i <= stop <= n,
                n == listing@.len(),
                shown@ == listing@.subrange(first as int, i as int),
            decreases stop - i,
        {
            shown.push(listing[i].clone());
            assert(listing@.subrange(first as int, i + 1) =~= listing@.subrange(
                first as int,
                i as int,
            ).push(listing@[i as int]));
            i = i + 1;
        }
    } else {
        assert(shown@ =~= Seq::<ItemCargo>::empty());
    }
    Some(shown)
}


/// `tags` holds the merged tags of items and cargo, in increasing order.
pub open spec fn tags_offered(items_tags: Seq<String>, cargo_tags: Seq<String>, tags: Seq<String>) -> bool {
    &&& texts(tags).to_multiset() == merged(texts(items_tags), texts(cargo_tags)).to_multiset()
    &&& forall|i: int, j: int| 0 <= i < j < tags.len() ==> text_le(#[trigger] tags[i]@, #[trigger] tags[j]@)
}

/// `tiers` holds the merged tiers of items and cargo, in increasing order.
pub open spec fn tiers_offered(items_tiers: Seq<i64>, cargo_tiers: Seq<i64>, tiers: Seq<i64>) -> bool {
    stably_sorted(merged(items_tiers, cargo_tiers), tiers)
}

/// Offered tags and tiers occur once each when the item tags and tiers do.
proof fn lemma_offered_distinct(
    items_tags: Seq<String>,
    cargo_tags: Seq<String>,
    tags: Seq<String>,
    items_tiers: Seq<i64>,
    cargo_tiers: Seq<i64>,
    tiers: Seq<i64>,
)
    requires
        texts(items_tags).no_duplicates(),
        items_tiers.no_duplicates(),
        tags_offered(items_tags, cargo_tags, tags),
        tiers_offered(items_tiers, cargo_tiers, tiers),
    ensures
        texts(tags).no_duplicates(),
        tiers.no_duplicates(),
{
    let all_tags = merged(texts(items_tags), texts(cargo_tags));
    lemma_merged_is_union(texts(items_tags), texts(cargo_tags));
    all_tags.lemma_multiset_has_no_duplicates();
    texts(tags).lemma_multiset_has_no_duplicates_conv();
    let all_tiers = merged(items_tiers, cargo_tiers);
    lemma_merged_is_union(items_tiers, cargo_tiers);
    assert(distinct_keys(all_tiers)) by {
        assert forall|a: int, b: int| 0 <= a < b < all_tiers.len() implies (#[trigger] all_tiers[a]).sort_key()
            != (#[trigger] all_tiers[b]).sort_key() by {
            assert(all_tiers[a] != all_tiers[b]);
        }
    }
    lemma_stably_sorted_keeps_keys_distinct(all_tiers, tiers);
    assert forall|a: int, b: int| 0 <= a < tiers.len() && 0 <= b < tiers.len() && a != b implies tiers[a]
        != tiers[b] by {
        if a < b {
            assert(tiers[a].sort_key() != tiers[b].sort_key());
        } else {
            assert(tiers[b].sort_key() != tiers[a].sort_key());
        }
    }
}

/// The tags and tiers offered as filters: those of items, then those of cargo not
/// among them, each list sorted.
pub fn offered_filters(
    items_tags: Vec<String>,
    items_tiers: Vec<i64>,
    cargo_tags: Vec<String>,
    cargo_tiers: Vec<i64>,
) -> (offered: (Vec<String>, Vec<i64>))
    requires
        texts(items_tags@).no_duplicates(),
        items_tiers@.no_duplicates(),
    ensures
        tags_offered(items_tags@, cargo_tags@, offered.0@),
        tiers_offered(items_tiers@, cargo_tiers@, offered.1@),
        texts(offered.0@).no_duplicates(),
        offered.1@.no_duplicates(),
{
    let ghost it = items_tags@;
    let ghost ct = cargo_tags@;
    let mut tags = merge_tags(items_tags, cargo_tags);
    let tiers = merge_tiers(items_tiers, cargo_tiers);
    let tiers = stable_sort(tiers);
    sort_texts(&mut tags);
    proof {
        lemma_offered_distinct(it, ct, tags@, items_tiers@, cargo_tiers@, tiers@);
    }
    (tags, tiers)
}

/// The tags and tiers offered as filters of the listing.
pub fn meta(
    items_tags: Vec<String>,
    items_tiers: Vec<i64>,
    cargo_tags: Vec<String>,
    cargo_tiers: Vec<i64>,
) -> (response: MetaResponse)
    requires
        texts(items_tags@).no_duplicates(),
        items_tiers@.no_duplicates(),
    ensures
        tags_offered(items_tags@, cargo_tags@, response.tags@),
        tiers_offered(items_tiers@, cargo_tiers@, response.tiers@),
        texts(response.tags@).no_duplicates(),
        response.tiers@.no_duplicates(),
{
    let (tags, tiers) = offered_filters(items_tags, items_tiers, cargo_tags, cargo_tiers);
    MetaResponse { tags, tiers }
}

/// One page of the items and cargo that pass the filters of `params`, ordered by
/// tier (positive tiers first) and then id, with the tags and tiers offered as
/// filters; `None` where the request cannot be served (see `listing_fails`).
pub fn list_items_and_cargo(
    items_tags: Vec<String>,
    items_tiers: Vec<i64>,
    cargo_tags: Vec<String>,
    cargo_tiers: Vec<i64>,
    items: Vec<CatalogItem>,
    cargo: Vec<CatalogItem>,
    params: ItemsAndCargoParams,
) -> (response: Option<ItemsAndCargoResponse>)
    requires
        texts(items_tags@).no_duplicates(),
        items_tiers@.no_duplicates(),
    ensures
        ({
            let found = candidates(items@, cargo@, params);
            let page = page_asked(params);
            let per_page = per_page_asked(params);
            match response {
                None => listing_fails(found.len() as int, page, per_page),
                Some(r) => {
                    &&& !listing_fails(found.len() as int, page, per_page)
                    &&& exists|listing: Seq<ItemCargo>|
                        stably_sorted(found, listing) && r.items@ == page_of(listing, page, per_page)
                    &&& tags_offered(items_tags@, cargo_tags@, r.tags@)
                    &&& tiers_offered(items_tiers@, cargo_tiers@, r.tiers@)
                    &&& texts(r.tags@).no_duplicates()
                    &&& r.tiers@.no_duplicates()
                    &&& r.per_page == per_page
                    &&& r.total == found.len()
                    &&& r.page == page
                    &&& r.pages == page_count(found.len() as int, per_page)
                }
            }
        }),
{
    let page = match params.page {
        Some(p) => p,
        None => 1,
    };
    let per_page = match params.per_page {
        Some(p) => p,
        None => 5,
    };
    let needle = match &params.search {
        Some(q) => {
            let once = to_lowercase(q.as_str());
            Some(to_lowercase(once.as_str()))
        },
        None => None,
    };
    let ghost search = opt_text(params.search);
    let ghost keep = |d: CatalogItem|
        passes_filters(d, opt_text(params.search), params.tier, opt_text(params.tag));
    let kept_items = filtered(&items, &needle, params.tier, &params.tag, Ghost(search));
    let kept_cargo = filtered(&cargo, &needle, params.tier, &params.tag, Ghost(search));
    assert(kept_items@ == items@.filter(keep));
    assert(kept_cargo@ == cargo@.filter(keep));
    let found = merge_items_and_cargo(kept_items, kept_cargo);
    let listing = stable_sort(found);
    let shown = match cut_page(&listing, page, per_page) {
        Some(v) => v,
        None => {
            return None;
        },
    };
    let total = listing.len() as u64;
    let pages = if total % per_page == 0 {
        total / per_page
    } else {
        assert(total / per_page < total) by (nonlinear_arith)
            requires
                total % per_page != 0,
                per_page >= 1,
        ;
        total / per_page + 1
    };
    assert(found@ == candidates(items@, cargo@, params));
    assert(stably_sorted(candidates(items@, cargo@, params), listing@));
    let (tags, tiers) = offered_filters(items_tags, items_tiers, cargo_tags, cargo_tiers);
    Some(
        ItemsAndCargoResponse {
            items: shown,
            tags,
            tiers,
            per_page,
            total,
            page,
            pages,
        },
    )
}

} // verus!
