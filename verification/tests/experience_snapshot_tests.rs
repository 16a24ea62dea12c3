use bitcraft_hub::experience::{ExperienceRow, ExperienceStack, ExperienceState};
use bitcraft_hub::experience_snapshot::experience_snapshot;
use bitcraft_hub::ranking::RankingSystem;

fn stack(skill_id: i32, quantity: i32) -> ExperienceStack {
    ExperienceStack { skill_id, quantity }
}

fn row(entity_id: i64, skill_id: i32, experience: i32) -> ExperienceRow<u8> {
    ExperienceRow { entity_id, skill_id, experience, region: 2 }
}

#[test]
fn snapshot_stores_new_and_changed_rows_and_skips_unchanged_ones() {
    let mut ranking = RankingSystem::default();
    ranking.record_skill_score(1, 7, 100);
    let states = vec![ExperienceState { entity_id: 7, experience_stacks: vec![stack(1, 150), stack(2, 40), stack(3, 5)] }];
    let known = vec![(7, 1, 100), (7, 2, 40)];
    let (store, deletes) = experience_snapshot(&mut ranking, &states, &vec![None], &known, 2u8).unwrap();
    assert_eq!(store, vec![row(7, 1, 150), row(7, 3, 5)]);
    assert!(deletes.is_empty());
    let position = ranking.skill_position(1).unwrap();
    assert_eq!(ranking.skill_leaderboards[position].board.get_value(&7), Some(150));
}

#[test]
fn snapshot_lists_vanished_rows_once_for_deletion() {
    let mut ranking = RankingSystem::default();
    let states = vec![ExperienceState { entity_id: 7, experience_stacks: vec![stack(1, 10)] }];
    let known = vec![(7, 1, 10), (8, 4, 3), (9, 2, 1), (8, 4, 6)];
    let (store, deletes) = experience_snapshot(&mut ranking, &states, &vec![None], &known, 2u8).unwrap();
    assert!(store.is_empty());
    assert_eq!(deletes, vec![(8, 4), (9, 2)]);
}

#[test]
fn snapshot_compares_with_the_last_known_row_of_a_key() {
    let mut ranking = RankingSystem::default();
    let states = vec![ExperienceState { entity_id: 8, experience_stacks: vec![stack(4, 6)] }];
    let known = vec![(8, 4, 3), (8, 4, 6)];
    let (store, deletes) = experience_snapshot(&mut ranking, &states, &vec![None], &known, 2u8).unwrap();
    assert!(store.is_empty());
    assert!(deletes.is_empty());
}

#[test]
fn snapshot_stores_a_repeated_row_again() {
    let mut ranking = RankingSystem::default();
    let states = vec![
        ExperienceState { entity_id: 7, experience_stacks: vec![stack(1, 10)] },
        ExperienceState { entity_id: 7, experience_stacks: vec![stack(1, 10)] },
    ];
    let known = vec![(7, 1, 10)];
    let (store, _) = experience_snapshot(&mut ranking, &states, &vec![None, None], &known, 2u8).unwrap();
    assert_eq!(store, vec![row(7, 1, 10)]);
}

#[test]
fn snapshot_corrects_totals_only_for_players_ranked_differently() {
    let mut ranking = RankingSystem::default();
    ranking.global_leaderboard.update(7, 50);
    ranking.xp_per_hour.update(7, 1);
    ranking.global_leaderboard.update(8, 30);
    let states = vec![
        ExperienceState { entity_id: 7, experience_stacks: vec![stack(1, 7_000), stack(2, 200)] },
        ExperienceState { entity_id: 8, experience_stacks: vec![stack(1, 30)] },
        ExperienceState { entity_id: 9, experience_stacks: vec![stack(1, 90)] },
    ];
    let times = vec![Some(7_200), None, None];
    let (store, deletes) = experience_snapshot(&mut ranking, &states, &times, &vec![], 2u8).unwrap();
    assert_eq!(store.len(), 4);
    assert!(deletes.is_empty());
    assert_eq!(ranking.global_leaderboard.get_value(&7), Some(7_200));
    assert_eq!(ranking.xp_per_hour.get_value(&7), Some(3_600));
    assert_eq!(ranking.global_leaderboard.get_value(&8), Some(30));
    assert_eq!(ranking.xp_per_hour.get_value(&8), None);
    assert_eq!(ranking.global_leaderboard.get_value(&9), None);
}
