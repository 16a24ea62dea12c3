use bitcraft_hub::experience::{
    experience_totals, xp_per_hour, ExperienceRow, ExperienceStack, ExperienceState, ExperienceStateWorker, LiveUpdate,
    SkillEntry,
};
use bitcraft_hub::ranking::{update_if_room, RankingSystem};
use bitcraft_hub::leaderboard::Leaderboard;

fn stack(skill_id: i32, quantity: i32) -> ExperienceStack {
    ExperienceStack { skill_id, quantity }
}

fn skills() -> Vec<SkillEntry> {
    vec![
        SkillEntry { skill_id: 1, name: "Forestry".to_string(), skill_category: 1 },
        SkillEntry { skill_id: 2, name: "ANY".to_string(), skill_category: 0 },
    ]
}

#[test]
fn experience_per_hour_divides_by_whole_hours() {
    assert_eq!(xp_per_hour(100, None), 0);
    assert_eq!(xp_per_hour(100, Some(3_599)), 0);
    assert_eq!(xp_per_hour(7_200, Some(3_600)), 7_200);
    assert_eq!(xp_per_hour(7_200, Some(7_199)), 7_200);
    assert_eq!(xp_per_hour(7_200, Some(7_200)), 3_600);
    assert_eq!(xp_per_hour(-7, Some(7_200)), -3);
}

#[test]
fn totals_sum_experience_and_levels() {
    assert_eq!(experience_totals(&vec![]), (0, 0));
    assert_eq!(experience_totals(&vec![stack(1, 520), stack(2, 0), stack(3, -5)]), (515, 103));
}

#[test]
fn staging_keeps_one_row_per_player_and_skill() {
    let mut worker: ExperienceStateWorker<u8> = ExperienceStateWorker::new(2);
    assert!(worker.is_idle());
    worker.stage_upsert(ExperienceRow { entity_id: 1, skill_id: 4, experience: 10, region: 0 });
    worker.stage_upsert(ExperienceRow { entity_id: 1, skill_id: 4, experience: 20, region: 0 });
    assert!(!worker.should_flush());
    worker.stage_upsert(ExperienceRow { entity_id: 2, skill_id: 4, experience: 30, region: 1 });
    assert!(worker.should_flush());
    let (rows, deletes) = worker.flush();
    assert_eq!(
        rows,
        vec![
            ExperienceRow { entity_id: 1, skill_id: 4, experience: 20, region: 0 },
            ExperienceRow { entity_id: 2, skill_id: 4, experience: 30, region: 1 },
        ]
    );
    assert!(deletes.is_empty());
    assert!(worker.is_idle());
    assert_eq!(worker.batch_size, 2);
}

#[test]
fn update_raises_notifications_and_moves_leaderboards() {
    let mut worker: ExperienceStateWorker<u8> = ExperienceStateWorker::new(100);
    let mut ranking = RankingSystem::default();
    let old = ExperienceState { entity_id: 5, experience_stacks: vec![stack(1, 500), stack(2, 0)] };
    let new = ExperienceState { entity_id: 5, experience_stacks: vec![stack(1, 600), stack(2, 10)] };
    let events = worker.handle_update(&mut ranking, &skills(), Some(7_200), &new, 3, &old).unwrap();
    assert_eq!(
        events,
        vec![
            LiveUpdate::Level { level: 2, skill_name: "Forestry".to_string(), user_id: 5 },
            LiveUpdate::Experience {
                level: 2,
                experience: 600,
                rank: 1,
                skill_name: "Forestry".to_string(),
                user_id: 5,
            },
            LiveUpdate::TotalExperience { experience: 610, user_id: 5, experience_per_hour: 305, rank: 1 },
        ]
    );
    let (rows, _) = worker.flush();
    assert_eq!(
        rows,
        vec![
            ExperienceRow { entity_id: 5, skill_id: 1, experience: 500, region: 3 },
            ExperienceRow { entity_id: 5, skill_id: 2, experience: 0, region: 3 },
        ]
    );
    assert_eq!(ranking.global_leaderboard.get_value(&5), Some(610));
    assert_eq!(ranking.xp_per_hour.get_value(&5), Some(305));
    assert_eq!(ranking.level_leaderboard.get_value(&5), Some(3));
    let p = ranking.skill_position(1).unwrap();
    assert_eq!(ranking.skill_leaderboards[p].board.get_value(&5), Some(600));
    assert_eq!(ranking.skill_position(2), None);
}

#[test]
fn unchanged_experience_raises_nothing() {
    let mut worker: ExperienceStateWorker<u8> = ExperienceStateWorker::new(100);
    let mut ranking = RankingSystem::default();
    let state = ExperienceState { entity_id: 9, experience_stacks: vec![stack(1, 800)] };
    let same = ExperienceState { entity_id: 9, experience_stacks: vec![stack(1, 800)] };
    let events = worker.handle_update(&mut ranking, &skills(), None, &same, 0, &state).unwrap();
    assert!(events.is_empty());
    assert!(worker.is_idle());
    assert_eq!(ranking.global_leaderboard.get_value(&9), None);
}

#[test]
fn a_second_player_ranks_below_a_better_one() {
    let mut worker: ExperienceStateWorker<u8> = ExperienceStateWorker::new(100);
    let mut ranking = RankingSystem::default();
    let before = |id: u64| ExperienceState { entity_id: id, experience_stacks: vec![stack(1, 0)] };
    let first = ExperienceState { entity_id: 1, experience_stacks: vec![stack(1, 900)] };
    let second = ExperienceState { entity_id: 2, experience_stacks: vec![stack(1, 400)] };
    worker.handle_update(&mut ranking, &skills(), None, &first, 0, &before(1)).unwrap();
    let events = worker.handle_update(&mut ranking, &skills(), None, &second, 0, &before(2)).unwrap();
    assert_eq!(
        events,
        vec![
            LiveUpdate::Experience { level: 1, experience: 400, rank: 2, skill_name: "Forestry".to_string(), user_id: 2 },
            LiveUpdate::TotalExperience { experience: 400, user_id: 2, experience_per_hour: 0, rank: 2 },
        ]
    );
}

#[test]
fn insert_stages_every_skill_and_ranks_the_total() {
    let mut worker: ExperienceStateWorker<u8> = ExperienceStateWorker::new(100);
    let mut ranking = RankingSystem::default();
    let state = ExperienceState { entity_id: 4, experience_stacks: vec![stack(1, 100), stack(2, 300)] };
    worker.handle_insert(&mut ranking, Some(3_600), &state, 7).unwrap();
    let (rows, _) = worker.flush();
    assert_eq!(
        rows,
        vec![
            ExperienceRow { entity_id: 4, skill_id: 1, experience: 100, region: 7 },
            ExperienceRow { entity_id: 4, skill_id: 2, experience: 300, region: 7 },
        ]
    );
    assert_eq!(ranking.global_leaderboard.get_value(&4), Some(400));
    assert_eq!(ranking.xp_per_hour.get_value(&4), Some(400));
}

#[test]
fn insert_keeps_a_higher_known_total() {
    let mut worker: ExperienceStateWorker<u8> = ExperienceStateWorker::new(100);
    let mut ranking = RankingSystem::default();
    ranking.global_leaderboard.update(4, 1_000);
    let state = ExperienceState { entity_id: 4, experience_stacks: vec![stack(1, 100)] };
    worker.handle_insert(&mut ranking, None, &state, 0).unwrap();
    assert_eq!(ranking.global_leaderboard.get_value(&4), Some(1_000));
    assert_eq!(ranking.xp_per_hour.get_value(&4), Some(0));
}

#[test]
fn remove_drops_pending_rows_and_queues_deletes() {
    let mut worker: ExperienceStateWorker<u8> = ExperienceStateWorker::new(100);
    worker.stage_upsert(ExperienceRow { entity_id: 4, skill_id: 1, experience: 5, region: 0 });
    worker.stage_upsert(ExperienceRow { entity_id: 8, skill_id: 1, experience: 6, region: 0 });
    let gone = ExperienceState { entity_id: 4, experience_stacks: vec![stack(1, 5), stack(2, 6)] };
    worker.handle_remove(&gone, None);
    let (rows, deletes) = worker.flush();
    assert_eq!(rows, vec![ExperienceRow { entity_id: 8, skill_id: 1, experience: 6, region: 0 }]);
    assert_eq!(deletes, vec![(4, 1), (4, 2)]);
}

#[test]
fn delayed_transfer_keeps_the_rows() {
    let mut worker: ExperienceStateWorker<u8> = ExperienceStateWorker::new(100);
    worker.stage_upsert(ExperienceRow { entity_id: 4, skill_id: 1, experience: 5, region: 0 });
    let gone = ExperienceState { entity_id: 4, experience_stacks: vec![stack(1, 5)] };
    worker.handle_remove(&gone, Some("transfer_player_delayed"));
    assert_eq!(worker.messages.len(), 1);
    assert!(worker.messages_delete.is_empty());
}

#[test]
fn skill_scores_are_recorded_per_skill() {
    let mut ranking = RankingSystem::default();
    assert_eq!(ranking.record_skill_score(3, 10, 50), Some(1));
    assert_eq!(ranking.record_skill_score(3, 11, 70), Some(1));
    assert_eq!(ranking.record_skill_score(4, 10, 5), Some(1));
    let p = ranking.skill_position(3).unwrap();
    assert_eq!(ranking.skill_leaderboards[p].board.get_rank(10), Some(2));
    let mut board = Leaderboard::new();
    assert!(update_if_room(&mut board, 1, 20));
    assert_eq!(board.get_value(&1), Some(20));
}
