use bitcraft_hub::buildings::{building_count, building_name, building_page};
use bitcraft_hub::claims::ItemKind;
use bitcraft_hub::market::{
    find_market_place_order, get_market_order_stats, market_item_cargo_desc, parse_selected_item_keys, trim_text,
    MarketDesc, MarketOption, MarketOrder, MarketOrderStats,
};

fn order(item_type: ItemKind, item_id: i32, price: i32, quantity: i32) -> MarketOrder {
    MarketOrder { item_type, item_id, price_threshold: price, quantity }
}

fn sorted(mut keys: Vec<String>) -> Vec<String> {
    keys.sort();
    keys
}

#[test]
fn trim_removes_surrounding_white_space() {
    assert_eq!(trim_text("  item:1 \t"), "item:1");
    assert_eq!(trim_text("\u{3000}cargo:2\n"), "cargo:2");
    assert_eq!(trim_text("   "), "");
    assert_eq!(trim_text("a b"), "a b");
    assert_eq!(trim_text("\u{85}x\u{A0}\u{2029}"), "x");
    assert_eq!(trim_text("\u{200B}x\u{180E}"), "\u{200B}x\u{180E}");
}

#[test]
fn no_item_parameter_selects_nothing() {
    assert!(parse_selected_item_keys(None).is_empty());
    assert!(parse_selected_item_keys(Some("")).is_empty());
    assert!(parse_selected_item_keys(Some(" , ,")).is_empty());
}

#[test]
fn item_keys_are_trimmed_and_listed_once() {
    let keys = parse_selected_item_keys(Some(" item:1, cargo:2 ,,item:1"));
    assert_eq!(sorted(keys), vec!["cargo:2".to_string(), "item:1".to_string()]);
}

#[test]
fn stats_of_an_item_without_orders_are_empty() {
    let response = get_market_order_stats(&vec![], &vec![]);
    assert!(response.item_keys.is_empty());
    assert!(response.order_counts.is_empty());
    assert_eq!(MarketOrderStats::default().total, 0);
}

#[test]
fn stats_count_orders_and_keep_price_extremes() {
    let buy = vec![order(ItemKind::Item, 1, 10, 5), order(ItemKind::Item, 1, 30, 1), order(ItemKind::Item, 2, 7, 7), order(ItemKind::Item, 1, 5, 9)];
    let sell = vec![order(ItemKind::Item, 1, 40, 2), order(ItemKind::Cargo, 3, 50, 3), order(ItemKind::Item, 1, 40, 8)];
    let response = get_market_order_stats(&buy, &sell);
    assert_eq!(response.item_keys.len(), response.order_counts.len());
    assert_eq!(
        sorted(response.item_keys.clone()),
        vec!["0:1".to_string(), "0:2".to_string(), "1:3".to_string()]
    );
    let at = |key: &str| {
        let i = response.item_keys.iter().position(|k| k == key).unwrap();
        response.order_counts[i]
    };
    assert_eq!(
        at("0:1"),
        MarketOrderStats {
            buy: 3,
            sell: 2,
            total: 5,
            buy_price_highest: Some(30),
            buy_price_lowest: Some(5),
            buy_amount_lowest: Some(9),
            buy_amount_highest: Some(1),
            sell_price_highest: Some(40),
            sell_price_lowest: Some(40),
            sell_amount_lowest: Some(2),
            sell_amount_highest: Some(2),
        }
    );
    let item3 = at("1:3");
    assert_eq!(item3.buy, 0);
    assert_eq!(item3.sell, 1);
    assert_eq!(item3.total, 1);
    assert_eq!(item3.buy_price_highest, None);
    assert_eq!(item3.sell_price_lowest, Some(50));
    let item2 = at("0:2");
    assert_eq!(item2.buy_price_highest, Some(7));
    assert_eq!(item2.buy_price_lowest, Some(7));
    assert_eq!(item2.sell_price_highest, None);
}

#[test]
fn stats_keys_write_the_item_type_and_id() {
    let buy = vec![order(ItemKind::Cargo, -12, 1, 1), order(ItemKind::Item, 2_147_483_647, 1, 1)];
    let response = get_market_order_stats(&buy, &vec![]);
    assert_eq!(response.item_keys, vec!["1:-12".to_string(), "0:2147483647".to_string()]);
}

#[test]
fn orders_are_grouped_by_selected_item() {
    let buy = vec![order(ItemKind::Item, 1, 5, 1), order(ItemKind::Item, 2, 5, 1), order(ItemKind::Item, 1, 6, 1)];
    let sell = vec![order(ItemKind::Item, 2, 5, 1), order(ItemKind::Cargo, 3, 5, 1)];
    let selection = find_market_place_order(&buy, &sell, Some("0:1, 1:3"), None);
    assert_eq!(selection.buy_orders.keys, vec!["0:1".to_string()]);
    assert_eq!(selection.buy_orders.positions, vec![vec![0usize, 2]]);
    assert_eq!(selection.sell_orders.keys, vec!["1:3".to_string()]);
    assert_eq!(selection.sell_orders.positions, vec![vec![1usize]]);
}

#[test]
fn return_all_groups_every_item() {
    let buy = vec![order(ItemKind::Item, 1, 5, 1), order(ItemKind::Item, 2, 5, 1), order(ItemKind::Item, 1, 6, 1)];
    let selection = find_market_place_order(&buy, &vec![], None, Some(true));
    let mut groups: Vec<(String, Vec<usize>)> = selection
        .buy_orders
        .keys
        .iter()
        .cloned()
        .zip(selection.buy_orders.positions.iter().cloned())
        .collect();
    groups.sort();
    assert_eq!(groups, vec![("0:1".to_string(), vec![0, 2]), ("0:2".to_string(), vec![1])]);
    assert!(selection.sell_orders.keys.is_empty());
}

#[test]
fn nothing_selected_groups_nothing() {
    let buy = vec![order(ItemKind::Item, 1, 5, 1)];
    let selection = find_market_place_order(&buy, &vec![], None, Some(false));
    assert!(selection.buy_orders.keys.is_empty());
    assert!(selection.buy_orders.positions.is_empty());
}

fn desc(kind: ItemKind, id: i32, name: &str, tag: &str, item_list_id: i32) -> MarketDesc {
    MarketDesc {
        kind,
        id,
        name: name.to_string(),
        rarity: "Common".to_string(),
        tier: 2,
        tag: tag.to_string(),
        item_list_id,
    }
}

#[test]
fn market_page_offers_items_outside_lists_and_all_cargo() {
    let descs = vec![
        desc(ItemKind::Item, 10, "Plank", "Wood", 0),
        desc(ItemKind::Item, 11, "Plank Bundle", "Wood", 3),
        desc(ItemKind::Cargo, 12, "Log Crate", "Crate", 7),
        desc(ItemKind::Item, -4, "Odd", "Wood", 0),
    ];
    let (options, groups) = market_item_cargo_desc(&descs);
    assert_eq!(
        options,
        vec![
            MarketOption { label: "Plank - Common - T2".to_string(), key: "0:10".to_string(), position: 0 },
            MarketOption { label: "Log Crate - Common - T2".to_string(), key: "1:12".to_string(), position: 2 },
            MarketOption { label: "Odd - Common - T2".to_string(), key: "0:-4".to_string(), position: 3 },
        ]
    );
    assert_eq!(groups.keys, vec!["Wood".to_string(), "Crate".to_string()]);
    assert_eq!(groups.positions, vec![vec![0, 2], vec![1]]);
}

#[test]
fn buildings_are_counted_and_named() {
    assert_eq!(building_count(&vec![3, 4, 3, 3], 3), 3);
    assert_eq!(building_count(&vec![], 3), 0);
    assert_eq!(building_name(Some("Home".to_string()), Some("House".to_string())), "Home");
    assert_eq!(building_name(None, Some("House".to_string())), "House");
    assert_eq!(building_name(None, None), "");
    assert_eq!(building_page(None, None), (1, 30));
    assert_eq!(building_page(Some(2), Some(5)), (2, 5));
}

#[test]
fn trim_agrees_with_std_white_space_on_every_char() {
    for code in 0u32..=0x10FFFF {
        if let Some(c) = char::from_u32(code) {
            let text = format!("{c}x");
            let trimmed = trim_text(&text);
            assert_eq!(trimmed == "x", c.is_whitespace(), "character {code:#x}");
        }
    }
}
