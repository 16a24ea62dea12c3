use bitcraft_hub::items_and_cargo::{
    cut_page, list_items_and_cargo, merge_items_and_cargo, merge_tags, merge_tiers, meta, CatalogItem, ItemCargo,
    ItemsAndCargoParams,
};
use bitcraft_hub::sorting::stable_sort;
use bitcraft_hub::text::{contains_text, same_text};

fn desc(id: i32, name: &str, tier: i32, tag: &str) -> CatalogItem {
    CatalogItem { id, name: name.to_string(), tier, tag: tag.to_string() }
}

fn strings(values: &[&str]) -> Vec<String> {
    values.iter().map(|v| v.to_string()).collect()
}

fn items() -> Vec<CatalogItem> {
    vec![
        desc(1, "Iron Sword", 2, "Weapon"),
        desc(2, "Wood Log", 1, "Resource"),
        desc(3, "Junk", 0, "Misc"),
    ]
}

fn cargo() -> Vec<CatalogItem> {
    vec![desc(10, "Iron Crate", 1, "Crate")]
}

fn params(page: Option<u64>, per_page: Option<u64>, search: Option<&str>, tier: Option<i32>, tag: Option<&str>) -> ItemsAndCargoParams {
    ItemsAndCargoParams {
        page,
        per_page,
        search: search.map(|s| s.to_string()),
        tier,
        tag: tag.map(|s| s.to_string()),
    }
}

fn listing(p: ItemsAndCargoParams) -> Option<bitcraft_hub::items_and_cargo::ItemsAndCargoResponse> {
    list_items_and_cargo(
        strings(&["Weapon", "Resource", "Misc"]),
        vec![2, 1, 0],
        strings(&["Crate", "Misc"]),
        vec![1, 3],
        items(),
        cargo(),
        p,
    )
}

#[test]
fn merge_tags_appends_new_cargo_tags() {
    let merged = merge_tags(strings(&["a", "b"]), strings(&["b", "c", "c"]));
    assert_eq!(merged, strings(&["a", "b", "c"]));
}

#[test]
fn merge_tiers_keeps_existing_and_adds_new() {
    assert_eq!(merge_tiers(vec![1, 2], vec![2, 3, 3]), vec![1, 2, 3]);
    assert_eq!(merge_tiers(vec![1, 1], vec![1]), vec![1, 1]);
    assert_eq!(merge_tiers(vec![], vec![5, 4]), vec![5, 4]);
}

#[test]
fn merge_items_and_cargo_puts_items_first() {
    let merged = merge_items_and_cargo(items(), cargo());
    assert_eq!(merged.len(), 4);
    assert_eq!(merged[0], ItemCargo::Item(desc(1, "Iron Sword", 2, "Weapon")));
    assert_eq!(merged[3], ItemCargo::Cargo(desc(10, "Iron Crate", 1, "Crate")));
}

#[test]
fn stable_sort_orders_tiers() {
    assert_eq!(stable_sort(vec![3i64, 1, 2, 1]), vec![1, 1, 2, 3]);
}

#[test]
fn text_search_finds_pieces() {
    assert!(contains_text("iron sword", "sword"));
    assert!(contains_text("iron sword", ""));
    assert!(!contains_text("iron", "iron sword"));
    assert!(same_text("log", "log"));
    assert!(!same_text("log", "Log"));
}

#[test]
fn meta_offers_sorted_merged_filters() {
    let response = meta(strings(&["Weapon", "Misc"]), vec![2, 0], strings(&["Crate", "Misc"]), vec![3, 2]);
    assert_eq!(response.tags, strings(&["Crate", "Misc", "Weapon"]));
    assert_eq!(response.tiers, vec![0, 2, 3]);
}

#[test]
fn listing_orders_positive_tiers_first_then_by_id() {
    let response = listing(params(None, Some(10), None, None, None)).unwrap();
    assert_eq!(
        response.items,
        vec![
            ItemCargo::Item(desc(2, "Wood Log", 1, "Resource")),
            ItemCargo::Cargo(desc(10, "Iron Crate", 1, "Crate")),
            ItemCargo::Item(desc(1, "Iron Sword", 2, "Weapon")),
            ItemCargo::Item(desc(3, "Junk", 0, "Misc")),
        ]
    );
    assert_eq!(response.total, 4);
    assert_eq!(response.page, 1);
    assert_eq!(response.per_page, 10);
    assert_eq!(response.pages, 1);
    assert_eq!(response.tags, strings(&["Crate", "Misc", "Resource", "Weapon"]));
    assert_eq!(response.tiers, vec![0, 1, 2, 3]);
}

#[test]
fn listing_defaults_to_first_page_of_five() {
    let response = listing(params(None, None, None, None, None)).unwrap();
    assert_eq!(response.page, 1);
    assert_eq!(response.per_page, 5);
    assert_eq!(response.items.len(), 4);
}

#[test]
fn search_ignores_case() {
    let response = listing(params(None, None, Some("IRON"), None, None)).unwrap();
    assert_eq!(
        response.items,
        vec![
            ItemCargo::Cargo(desc(10, "Iron Crate", 1, "Crate")),
            ItemCargo::Item(desc(1, "Iron Sword", 2, "Weapon")),
        ]
    );
    assert_eq!(response.total, 2);
}

#[test]
fn tier_and_tag_filters_apply_to_both_kinds() {
    let by_tier = listing(params(None, None, None, Some(1), None)).unwrap();
    assert_eq!(by_tier.total, 2);
    let by_tag = listing(params(None, None, None, None, Some("Crate"))).unwrap();
    assert_eq!(by_tag.items, vec![ItemCargo::Cargo(desc(10, "Iron Crate", 1, "Crate"))]);
    let none = listing(params(None, None, None, Some(9), None)).unwrap();
    assert!(none.items.is_empty());
    assert_eq!(none.total, 0);
    assert_eq!(none.pages, 0);
}

#[test]
fn later_page_shows_the_rest() {
    let response = listing(params(Some(2), Some(3), None, None, None)).unwrap();
    assert_eq!(response.items, vec![ItemCargo::Item(desc(3, "Junk", 0, "Misc"))]);
    assert_eq!(response.pages, 2);
}

#[test]
fn page_ending_exactly_at_the_end_shows_nothing() {
    let response = listing(params(Some(2), Some(2), None, None, None)).unwrap();
    assert!(response.items.is_empty());
    assert_eq!(response.total, 4);
    assert_eq!(response.pages, 2);
}

#[test]
fn impossible_pages_are_refused() {
    assert!(listing(params(Some(0), None, None, None, None)).is_none());
    assert!(listing(params(None, Some(0), None, None, None)).is_none());
    assert!(listing(params(Some(3), Some(3), None, None, None)).is_none());
    assert!(listing(params(Some(u64::MAX), Some(2), None, None, None)).is_none());
}

#[test]
fn cut_page_takes_the_window() {
    let all = merge_items_and_cargo(items(), cargo());
    let shown = cut_page(&all, 1, 2).unwrap();
    assert_eq!(shown.len(), 2);
    assert_eq!(shown[1], ItemCargo::Item(desc(2, "Wood Log", 1, "Resource")));
    assert!(cut_page(&all, 4, 2).is_none());
}
