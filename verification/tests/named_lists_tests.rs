use bitcraft_hub::named_lists::{gather_by_name, get_claim_leaderboard};
use bitcraft_hub::text::text_less;
use bitcraft_hub::top_lists::{LeaderboardLevel, LeaderboardTime, ListKind, NamedRows, RankType};

fn time_row(player_id: i64, rank: u64) -> RankType {
    RankType::Time(LeaderboardTime { player_id, player_name: None, time_played: 10, rank })
}

fn list(name: &str, rows: Vec<RankType>) -> NamedRows {
    NamedRows { name: name.to_string(), rows }
}

#[test]
fn lists_come_out_ordered_by_name() {
    let out = gather_by_name(vec![
        list("Time Played", vec![time_row(1, 1)]),
        list("Experience", vec![time_row(2, 1)]),
        list("Carpentry", vec![]),
    ]);
    let names: Vec<&str> = out.iter().map(|l| l.name.as_str()).collect();
    assert_eq!(names, vec!["Carpentry", "Experience", "Time Played"]);
    assert_eq!(out[1].rows, vec![time_row(2, 1)]);
}

#[test]
fn lists_of_one_name_are_joined_in_order() {
    let out = gather_by_name(vec![
        list("Level", vec![time_row(1, 1)]),
        list("Experience", vec![time_row(5, 1)]),
        list("Level", vec![time_row(2, 1), time_row(3, 2)]),
    ]);
    assert_eq!(
        out,
        vec![
            list("Experience", vec![time_row(5, 1)]),
            list("Level", vec![time_row(1, 1), time_row(2, 1), time_row(3, 2)]),
        ]
    );
}

#[test]
fn no_lists_gather_to_none() {
    assert!(gather_by_name(vec![]).is_empty());
}

#[test]
fn texts_order_by_character_code() {
    assert!(text_less("Zeta", "apple"));
    assert!(!text_less("apple", "Zeta"));
    assert!(text_less("Time", "Time Played"));
    assert!(!text_less("Time", "Time"));
    assert!(text_less("", "a"));
    assert!(!text_less("b", "ab"));
}

#[test]
fn claim_without_members_is_not_found() {
    let fetched = vec![("Level".to_string(), ListKind::Level, vec![(1, 5)])];
    assert_eq!(get_claim_leaderboard(&vec![], fetched, &vec![]), None);
}

#[test]
fn claim_lists_are_numbered_named_and_gathered() {
    let fetched = vec![
        ("Time Played".to_string(), ListKind::Time, vec![(2, 90), (1, 40)]),
        ("Level".to_string(), ListKind::Level, vec![(1, 12)]),
    ];
    let names = vec![(1, "ana".to_string()), (2, "bo".to_string())];
    let out = get_claim_leaderboard(&vec![1, 2], fetched, &names).unwrap();
    assert_eq!(
        out,
        vec![
            list(
                "Level",
                vec![RankType::Level(LeaderboardLevel { player_id: 1, player_name: Some("ana".to_string()), level: 12, rank: 1 })],
            ),
            list(
                "Time Played",
                vec![
                    RankType::Time(LeaderboardTime { player_id: 2, player_name: Some("bo".to_string()), time_played: 90, rank: 1 }),
                    RankType::Time(LeaderboardTime { player_id: 1, player_name: Some("ana".to_string()), time_played: 40, rank: 2 }),
                ],
            ),
        ]
    );
}
