use bitcraft_hub::claims::{
    claim_skill_shown, claim_tech_summary, get_merged_inventories, member_online_states, sorted_merged_inventories,
    split_online, total_time_signed_in, ClaimTechSummary, InventoryStack, ItemKind, MemberPlayer, MergedStack,
    OnlineState, TechDesc, TechState,
};

fn tech(id: i32, description: &str, tier: i32) -> TechDesc {
    TechDesc { id, description: description.to_string(), tier }
}

fn descs() -> Vec<TechDesc> {
    vec![
        tech(10, "Tier 2", 2),
        tech(11, "Better Storage", 0),
        tech(12, "Tier 3", 3),
        tech(13, "Tierless", 9),
    ]
}

#[test]
fn no_research_state_means_tier_one() {
    let summary = claim_tech_summary(&descs(), &None);
    assert_eq!(summary, ClaimTechSummary { running_upgrade: None, upgrades: vec![], tier: Some(1) });
}

#[test]
fn tier_comes_from_the_last_learned_tier_upgrade() {
    let state = TechState { researching: 12, learned: vec![10, 11, 13] };
    let summary = claim_tech_summary(&descs(), &Some(state));
    assert_eq!(summary.running_upgrade, Some(2));
    assert_eq!(summary.upgrades, vec![0, 1, 3]);
    assert_eq!(summary.tier, Some(2));
}

#[test]
fn researching_something_else_than_a_tier_shows_no_running_upgrade() {
    let state = TechState { researching: 11, learned: vec![11] };
    let summary = claim_tech_summary(&descs(), &Some(state));
    assert_eq!(summary.running_upgrade, None);
    assert_eq!(summary.upgrades, vec![1]);
    assert_eq!(summary.tier, Some(1));
}

fn player(entity_id: i64, signed_in: bool, time_signed_in: i32) -> MemberPlayer {
    MemberPlayer { entity_id, signed_in, time_signed_in }
}

#[test]
fn members_are_online_when_signed_in() {
    let players = vec![player(1, true, 100), player(2, false, 50), player(3, true, 7)];
    let states = member_online_states(&vec![2, 3, 4], &players);
    assert_eq!(states, vec![OnlineState::Offline, OnlineState::Online, OnlineState::Offline]);
    assert_eq!(split_online(&players), (vec![1, 3], vec![2]));
    assert_eq!(total_time_signed_in(&players), 157);
    assert_eq!(total_time_signed_in(&vec![]), 0);
}

#[test]
fn negative_time_reads_as_its_unsigned_value() {
    let players = vec![player(1, false, -1)];
    assert_eq!(total_time_signed_in(&players), u64::MAX);
}

fn stack(item_id: i32, item_type: ItemKind, quantity: i32, tier: i32) -> InventoryStack {
    InventoryStack { item_id, item_type, quantity, tier }
}

#[test]
fn stacks_of_one_item_merge() {
    let stacks = vec![
        stack(1, ItemKind::Item, 5, 1),
        stack(2, ItemKind::Item, 3, 2),
        stack(1, ItemKind::Cargo, 4, 1),
        stack(1, ItemKind::Item, 7, 1),
    ];
    let merged = get_merged_inventories(&stacks);
    assert_eq!(
        merged,
        vec![
            MergedStack { first: 0, item_id: 1, item_type: ItemKind::Item, quantity: 12, tier: 1 },
            MergedStack { first: 1, item_id: 2, item_type: ItemKind::Item, quantity: 3, tier: 2 },
            MergedStack { first: 2, item_id: 1, item_type: ItemKind::Cargo, quantity: 4, tier: 1 },
        ]
    );
}

#[test]
fn merged_inventory_lists_high_tiers_and_large_stacks_first() {
    let stacks = vec![
        stack(1, ItemKind::Item, 5, 1),
        stack(2, ItemKind::Item, 3, 2),
        stack(3, ItemKind::Cargo, 9, 1),
        stack(4, ItemKind::Item, 5, 1),
        stack(1, ItemKind::Item, 1, 1),
    ];
    let sorted = sorted_merged_inventories(&stacks);
    let order: Vec<(i32, i32)> = sorted.iter().map(|m| (m.item_id, m.quantity)).collect();
    assert_eq!(order, vec![(2, 3), (3, 9), (1, 6), (4, 5)]);
}

#[test]
fn some_skills_are_hidden_on_claims() {
    for hidden in ["ANY", "Lore Keeper", "Trading", "Taming", "Exploration"] {
        assert!(!claim_skill_shown(&hidden.to_string()));
    }
    assert!(claim_skill_shown(&"Forestry".to_string()));
    assert!(claim_skill_shown(&"trading".to_string()));
}
