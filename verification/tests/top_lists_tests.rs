use bitcraft_hub::experience::SkillEntry;
use bitcraft_hub::leaderboard::LeaderboardEntry;
use bitcraft_hub::ranking::RankingSystem;
use bitcraft_hub::top_lists::{
    first_row_of, get_top_100, page_rows, player_ids, player_leaderboard, player_lookups, rows_with_names,
    top_experience, top_of, value_rows, with_player_names, LeaderboardExperience, LeaderboardExperiencePerHour,
    LeaderboardLevel, LeaderboardSkill, LeaderboardTime, ListKind, NamedRows, PlayerSummaryError, RankType,
};

fn skills() -> Vec<SkillEntry> {
    vec![
        SkillEntry { skill_id: 1, name: "Forestry".to_string(), skill_category: 1 },
        SkillEntry { skill_id: 2, name: "ANY".to_string(), skill_category: 0 },
    ]
}

fn ranking() -> RankingSystem {
    let mut r = RankingSystem::default();
    r.time_played.update(1, 100);
    r.time_played.update(2, 300);
    r.time_signed_in.update(1, 50);
    r.xp_per_hour.update(1, 10);
    r.xp_per_hour.update(2, 20);
    r.level_leaderboard.update(1, 5);
    r.level_leaderboard.update(2, 7);
    r.global_leaderboard.update(1, 1_000);
    r.global_leaderboard.update(2, 2_000);
    r.record_skill_score(1, 1, 600);
    r.record_skill_score(1, 2, 900);
    r
}

fn skill_row(player_id: i64, experience: i32, level: i32, rank: u64) -> RankType {
    RankType::Skill(LeaderboardSkill { player_id, player_name: None, experience, level, rank })
}

fn time_row(player_id: i64, time_played: u64, rank: u64) -> RankType {
    RankType::Time(LeaderboardTime { player_id, player_name: None, time_played, rank })
}

#[test]
fn rows_are_numbered_from_one() {
    let entries = vec![LeaderboardEntry { rank: 1, user_id: 7, xp: 530 }, LeaderboardEntry { rank: 2, user_id: 3, xp: 0 }];
    assert_eq!(page_rows(ListKind::Skill, &entries), vec![skill_row(7, 530, 2, 1), skill_row(3, 0, 1, 2)]);
    assert_eq!(
        value_rows(ListKind::Level, &vec![(4, 12), (5, 9)]),
        vec![
            RankType::Level(LeaderboardLevel { player_id: 4, player_name: None, level: 12, rank: 1 }),
            RankType::Level(LeaderboardLevel { player_id: 5, player_name: None, level: 9, rank: 2 }),
        ]
    );
    assert_eq!(
        value_rows(ListKind::Experience, &vec![(4, 120)]),
        vec![RankType::Experience(LeaderboardExperience {
            player_id: 4,
            player_name: None,
            experience: 120,
            experience_per_hour: 0,
            rank: 1
        })]
    );
    assert!(value_rows(ListKind::Time, &vec![]).is_empty());
}

#[test]
fn top_of_lists_the_leaderboard_in_rank_order() {
    let r = ranking();
    assert_eq!(top_of(&r.time_played, ListKind::Time), vec![time_row(2, 300, 1), time_row(1, 100, 2)]);
    assert_eq!(
        top_of(&r.xp_per_hour, ListKind::ExperiencePerHour),
        vec![
            RankType::ExperiencePerHour(LeaderboardExperiencePerHour { player_id: 2, player_name: None, experience: 20, rank: 1 }),
            RankType::ExperiencePerHour(LeaderboardExperiencePerHour { player_id: 1, player_name: None, experience: 10, rank: 2 }),
        ]
    );
}

#[test]
fn total_experience_rows_carry_the_hourly_rate() {
    let r = ranking();
    assert_eq!(
        top_experience(&r.global_leaderboard, &r.xp_per_hour),
        Some(vec![
            RankType::Experience(LeaderboardExperience { player_id: 2, player_name: None, experience: 2_000, experience_per_hour: 20, rank: 1 }),
            RankType::Experience(LeaderboardExperience { player_id: 1, player_name: None, experience: 1_000, experience_per_hour: 10, rank: 2 }),
        ])
    );
    let mut without_rate = ranking();
    without_rate.global_leaderboard.update(3, 50);
    assert_eq!(top_experience(&without_rate.global_leaderboard, &without_rate.xp_per_hour), None);
}

#[test]
fn top_page_lists_fixed_lists_then_skills() {
    let lists = get_top_100(&ranking(), &skills()).unwrap();
    let names: Vec<&str> = lists.iter().map(|l| l.name.as_str()).collect();
    assert_eq!(names, vec!["Time Played", "Time Online", "Experience Per Hour", "Level", "Experience", "Forestry"]);
    assert_eq!(lists[1].rows, vec![time_row(1, 50, 1)]);
    assert_eq!(
        lists[3].rows,
        vec![
            RankType::Level(LeaderboardLevel { player_id: 2, player_name: None, level: 7, rank: 1 }),
            RankType::Level(LeaderboardLevel { player_id: 1, player_name: None, level: 5, rank: 2 }),
        ]
    );
    assert_eq!(lists[5].rows, vec![skill_row(2, 900, 2, 1), skill_row(1, 600, 2, 2)]);
}

#[test]
fn top_page_fails_without_a_skill_leaderboard() {
    let mut listed = skills();
    listed.push(SkillEntry { skill_id: 9, name: "Fishing".to_string(), skill_category: 2 });
    assert!(get_top_100(&ranking(), &listed).is_none());
}

#[test]
fn player_ids_are_sorted_and_unique() {
    let lists = vec![
        NamedRows { name: "A".to_string(), rows: vec![time_row(5, 1, 1), time_row(2, 1, 2)] },
        NamedRows { name: "B".to_string(), rows: vec![time_row(2, 1, 1), time_row(9, 1, 2)] },
    ];
    assert_eq!(player_ids(&lists), vec![2, 5, 9]);
    assert!(player_ids(&vec![]).is_empty());
}

#[test]
fn names_are_filled_in_from_the_last_entry() {
    let names = vec![(2, "old".to_string()), (5, "eve".to_string()), (2, "bob".to_string())];
    let rows = rows_with_names(vec![time_row(2, 1, 1), time_row(7, 1, 2)], &names);
    assert_eq!(
        rows,
        vec![
            RankType::Time(LeaderboardTime { player_id: 2, player_name: Some("bob".to_string()), time_played: 1, rank: 1 }),
            time_row(7, 1, 2),
        ]
    );
    let lists = with_player_names(vec![NamedRows { name: "A".to_string(), rows: vec![time_row(5, 3, 1)] }], &names);
    assert_eq!(lists[0].name, "A");
    assert_eq!(
        lists[0].rows,
        vec![RankType::Time(LeaderboardTime { player_id: 5, player_name: Some("eve".to_string()), time_played: 3, rank: 1 })]
    );
}

#[test]
fn first_row_of_a_player() {
    let rows = vec![time_row(2, 1, 1), time_row(7, 1, 2), time_row(7, 0, 3)];
    assert_eq!(first_row_of(&rows, 7), Some(1));
    assert_eq!(first_row_of(&rows, 3), None);
}

#[test]
fn player_summary_lists_skills_then_totals() {
    let mut r = ranking();
    let rows = player_leaderboard(&mut r, &skills(), 1, true, &vec![]).unwrap();
    assert_eq!(rows.len(), 3);
    assert_eq!(rows[0].name, "Forestry");
    assert_eq!(rows[0].row, skill_row(1, 600, 2, 2));
    assert_eq!(rows[1].name, "Experience");
    assert_eq!(
        rows[1].row,
        RankType::Experience(LeaderboardExperience { player_id: 1, player_name: None, experience: 1_000, experience_per_hour: 0, rank: 2 })
    );
    assert_eq!(rows[2].name, "Level");
    assert_eq!(rows[2].row, RankType::Level(LeaderboardLevel { player_id: 1, player_name: None, level: 5, rank: 2 }));
}

#[test]
fn player_summary_reads_missing_skill_experience() {
    let mut r = ranking();
    r.level_leaderboard.update(3, 2);
    assert_eq!(player_lookups(&r, &skills(), 3), vec![1]);
    assert!(player_lookups(&r, &skills(), 1).is_empty());
    let rows = player_leaderboard(&mut r, &skills(), 3, true, &vec![(1, Some(700))]).unwrap();
    assert_eq!(rows[0].row, skill_row(3, 700, 2, 2));
    assert_eq!(
        rows[1].row,
        RankType::Experience(LeaderboardExperience { player_id: 3, player_name: None, experience: 0, experience_per_hour: 0, rank: 0 })
    );
    let p = r.skill_position(1).unwrap();
    assert_eq!(r.skill_leaderboards[p].board.get_value(&3), Some(700));
}

#[test]
fn player_summary_without_stored_experience_shows_zero() {
    let mut r = ranking();
    r.level_leaderboard.update(4, 1);
    let rows = player_leaderboard(&mut r, &skills(), 4, true, &vec![(1, None)]).unwrap();
    assert_eq!(rows[0].row, skill_row(4, 0, 1, 0));
}

#[test]
fn player_summary_needs_a_total_level() {
    let mut r = ranking();
    assert_eq!(player_leaderboard(&mut r, &skills(), 42, true, &vec![]), Err(PlayerSummaryError::Unranked));
}

#[test]
fn player_summary_of_an_unknown_player_is_not_found() {
    let mut r = ranking();
    assert_eq!(player_leaderboard(&mut r, &skills(), 1, false, &vec![]), Err(PlayerSummaryError::NotFound));
    assert_eq!(r.global_leaderboard.get_value(&1), Some(1_000));
}
