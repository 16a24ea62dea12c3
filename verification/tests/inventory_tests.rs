use bitcraft_hub::claims::ItemKind;
use bitcraft_hub::inventory::{
    all_inventory_stats, entity_order, inventory_nickname, pocket_changes, tool_belt_position, EntityAt, ItemTotal,
    PocketChange, PocketContents, TypeOfChange,
};

fn item(item_id: i32, quantity: i32) -> Option<PocketContents> {
    Some(PocketContents { item_id, item_type: ItemKind::Item, quantity })
}

fn cargo(item_id: i32, quantity: i32) -> Option<PocketContents> {
    Some(PocketContents { item_id, item_type: ItemKind::Cargo, quantity })
}

#[test]
fn pocket_changes_are_classified() {
    let old = vec![item(1, 5), None, item(2, 1), item(3, 3), cargo(4, 1), item(5, 5)];
    let new = vec![item(1, 5), item(7, 2), None, item(3, 4), item(4, 1), item(6, 5), item(9, 9)];
    let changes = pocket_changes(Some("item_stack_move"), &old, &new);
    assert_eq!(
        changes,
        vec![
            PocketChange { pocket_number: 1, old: None, new: item(7, 2), type_of_change: TypeOfChange::Add },
            PocketChange { pocket_number: 2, old: item(2, 1), new: None, type_of_change: TypeOfChange::Remove },
            PocketChange { pocket_number: 3, old: item(3, 3), new: item(3, 4), type_of_change: TypeOfChange::Update },
            PocketChange { pocket_number: 4, old: cargo(4, 1), new: item(4, 1), type_of_change: TypeOfChange::Update },
            PocketChange { pocket_number: 5, old: item(5, 5), new: item(6, 5), type_of_change: TypeOfChange::AddAndRemove },
        ]
    );
}

#[test]
fn sorting_or_unknown_updates_write_no_changes() {
    let old = vec![item(1, 5)];
    let new = vec![item(2, 5)];
    assert!(pocket_changes(Some("inventory_sort"), &old, &new).is_empty());
    assert!(pocket_changes(None, &old, &new).is_empty());
    assert_eq!(pocket_changes(Some("craft"), &old, &new).len(), 1);
}

#[test]
fn only_pockets_present_before_and_after_are_compared() {
    let old = vec![item(1, 1), item(2, 2)];
    let new = vec![item(1, 2)];
    let changes = pocket_changes(Some("craft"), &old, &new);
    assert_eq!(changes.len(), 1);
    assert_eq!(changes[0].pocket_number, 0);
}

#[test]
fn deployable_nicknames_come_first() {
    let nicknames = vec![(10, "Cart".to_string()), (11, "Boat".to_string()), (10, "Wagon".to_string())];
    assert_eq!(inventory_nickname(10, 0, &nicknames, Some(10)), Some("Wagon".to_string()));
    assert_eq!(inventory_nickname(11, 3, &nicknames, None), Some("Boat".to_string()));
}

#[test]
fn player_inventories_are_named_by_index() {
    let none: Vec<(i64, String)> = vec![];
    assert_eq!(inventory_nickname(7, 0, &none, Some(7)), Some("Inventory".to_string()));
    assert_eq!(inventory_nickname(7, 1, &none, Some(7)), Some("Tool belt".to_string()));
    assert_eq!(inventory_nickname(7, 2, &none, Some(7)), Some("Wallet".to_string()));
    assert_eq!(inventory_nickname(7, 3, &none, Some(7)), None);
    assert_eq!(inventory_nickname(8, 0, &none, Some(7)), None);
    assert_eq!(inventory_nickname(7, 0, &none, None), None);
}

#[test]
fn totals_are_summed_per_item_and_sorted() {
    let contents = vec![
        PocketContents { item_id: 1, item_type: ItemKind::Item, quantity: 5 },
        PocketContents { item_id: 2, item_type: ItemKind::Item, quantity: 7 },
        PocketContents { item_id: 1, item_type: ItemKind::Cargo, quantity: 100 },
        PocketContents { item_id: 1, item_type: ItemKind::Item, quantity: 4 },
        PocketContents { item_id: 3, item_type: ItemKind::Item, quantity: 7 },
        PocketContents { item_id: 2, item_type: ItemKind::Item, quantity: i32::MAX },
    ];
    let (items, cargo) = all_inventory_stats(&contents);
    assert_eq!(
        items,
        vec![
            ItemTotal { first: 1, item_id: 2, quantity: 7 + i32::MAX as i64 },
            ItemTotal { first: 0, item_id: 1, quantity: 9 },
            ItemTotal { first: 4, item_id: 3, quantity: 7 },
        ]
    );
    assert_eq!(cargo, vec![ItemTotal { first: 2, item_id: 1, quantity: 100 }]);
    let (no_items, no_cargo) = all_inventory_stats(&vec![]);
    assert!(no_items.is_empty() && no_cargo.is_empty());
}

#[test]
fn equal_totals_keep_first_appearance_order() {
    let contents = vec![
        PocketContents { item_id: 9, item_type: ItemKind::Item, quantity: 3 },
        PocketContents { item_id: 8, item_type: ItemKind::Item, quantity: 3 },
    ];
    let (items, _) = all_inventory_stats(&contents);
    assert_eq!(items.iter().map(|t| t.item_id).collect::<Vec<_>>(), vec![9, 8]);
}

#[test]
fn inventories_are_ordered_by_entity_id() {
    let order = entity_order(&vec![30, 10, 20, 10]);
    assert_eq!(
        order,
        vec![
            EntityAt { entity_id: 10, position: 1 },
            EntityAt { entity_id: 10, position: 3 },
            EntityAt { entity_id: 20, position: 2 },
            EntityAt { entity_id: 30, position: 0 },
        ]
    );
}

#[test]
fn tool_belt_is_the_first_inventory_of_index_one() {
    assert_eq!(tool_belt_position(&vec![0, 2, 1, 1]), Some(2));
    assert_eq!(tool_belt_position(&vec![0, 2]), None);
}
