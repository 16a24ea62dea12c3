use bitcraft_hub::buckets::{bucket_bounds, bucket_for};
use bitcraft_hub::leaderboard::{BucketDistribution, Leaderboard, LeaderboardEntry, LeaderboardInner, LeaderboardOp};
use bitcraft_hub::levels::experience_to_level;

#[test]
fn level_of_no_experience_is_one() {
    assert_eq!(experience_to_level(0), 1);
}

#[test]
fn level_thresholds_are_inclusive() {
    assert_eq!(experience_to_level(519), 1);
    assert_eq!(experience_to_level(520), 2);
    assert_eq!(experience_to_level(1099), 2);
    assert_eq!(experience_to_level(1100), 3);
    assert_eq!(experience_to_level(229_734_400), 100);
    assert_eq!(experience_to_level(686_845_760), 110);
    assert_eq!(experience_to_level(i64::MAX), 110);
}

#[test]
fn level_of_negative_experience_is_one_hundred() {
    assert_eq!(experience_to_level(-1), 100);
    assert_eq!(experience_to_level(i64::MIN), 100);
}

#[test]
fn buckets_grow_with_experience() {
    assert_eq!(bucket_for(-10), 0);
    assert_eq!(bucket_for(0), 0);
    assert_eq!(bucket_for(999), 0);
    assert_eq!(bucket_for(1_000), 1);
    assert_eq!(bucket_for(50_000), 50);
    assert_eq!(bucket_for(50_001), 51);
    assert_eq!(bucket_for(55_001), 52);
    assert_eq!(bucket_for(250_001), 91);
    assert_eq!(bucket_for(1_000_001), 121);
    assert_eq!(bucket_for(5_000_001), 161);
    assert_eq!(bucket_for(5_500_001), 162);
}

#[test]
fn bucket_bounds_follow_the_ranges() {
    assert_eq!(bucket_bounds(0), (0, 999));
    assert_eq!(bucket_bounds(1), (1_000, 1_999));
    assert_eq!(bucket_bounds(50), (50_000, 50_999));
    assert_eq!(bucket_bounds(51), (50_001, 55_000));
    assert_eq!(bucket_bounds(91), (250_001, 275_000));
    assert_eq!(bucket_bounds(161), (5_000_001, 5_500_000));
}

#[test]
fn every_experience_lies_in_its_bucket_bounds() {
    for xp in [0i64, 1, 999, 1_000, 49_999, 50_001, 249_999, 250_001, 999_999, 4_999_999, 5_000_001, 77_777_777] {
        let (low, high) = bucket_bounds(bucket_for(xp));
        assert!(low <= xp && xp <= high, "{xp} not in [{low}, {high}]");
    }
}

#[test]
fn empty_leaderboard_has_no_one() {
    let board = Leaderboard::new();
    assert!(!board.has(&7));
    assert_eq!(board.get_value(&7), None);
    assert_eq!(board.get_rank(7), None);
    assert!(board.get_range(0, 10).is_empty());
    assert!(board.bucket_distribution().is_empty());
}

fn three_players() -> Leaderboard {
    let mut board = Leaderboard::new();
    board.update(1, 1_000);
    board.update(2, 2_000);
    board.update(3, 1_000);
    board
}

#[test]
fn ranks_order_by_score_then_by_higher_id() {
    let board = three_players();
    assert_eq!(board.get_rank(2), Some(1));
    assert_eq!(board.get_rank(3), Some(2));
    assert_eq!(board.get_rank(1), Some(3));
    assert_eq!(board.get_value(&3), Some(1_000));
    assert!(board.has(&1));
}

#[test]
fn range_lists_highest_first() {
    let board = three_players();
    let page = board.get_range(0, 10);
    assert_eq!(
        page,
        vec![
            LeaderboardEntry { rank: 1, user_id: 2, xp: 2_000 },
            LeaderboardEntry { rank: 2, user_id: 3, xp: 1_000 },
            LeaderboardEntry { rank: 3, user_id: 1, xp: 1_000 },
        ]
    );
    let second = board.get_range(1, 1);
    assert_eq!(second, vec![LeaderboardEntry { rank: 2, user_id: 3, xp: 1_000 }]);
    assert!(board.get_range(3, 5).is_empty());
}

#[test]
fn page_rows_agree_with_ranks() {
    let board = three_players();
    for entry in board.get_range(0, 3) {
        assert_eq!(board.get_rank(entry.user_id), Some(entry.rank));
        assert_eq!(board.get_value(&entry.user_id), Some(entry.xp));
    }
}

#[test]
fn raising_a_score_moves_the_player_up() {
    let mut board = three_players();
    board.update(1, 5_000);
    assert_eq!(board.get_rank(1), Some(1));
    assert_eq!(board.get_rank(2), Some(2));
    assert_eq!(board.get_rank(3), Some(3));
    assert_eq!(board.get_value(&1), Some(5_000));
}

#[test]
fn updating_to_the_same_score_changes_nothing() {
    let mut board = three_players();
    board.update(2, 2_000);
    assert_eq!(board.get_range(0, 10).len(), 3);
    assert_eq!(board.get_rank(2), Some(1));
}

#[test]
fn removing_a_player_frees_its_rank() {
    let mut board = three_players();
    board.remove(2);
    assert!(!board.has(&2));
    assert_eq!(board.get_rank(2), None);
    assert_eq!(board.get_rank(3), Some(1));
    assert_eq!(board.get_rank(1), Some(2));
    board.remove(42);
    assert_eq!(board.get_range(0, 10).len(), 2);
}

#[test]
fn distribution_counts_players_per_bucket() {
    let board = three_players();
    assert_eq!(
        board.bucket_distribution(),
        vec![
            BucketDistribution { bucket: 1, min_xp: 1_000, max_xp: 1_999, count: 2 },
            BucketDistribution { bucket: 2, min_xp: 2_000, max_xp: 2_999, count: 1 },
        ]
    );
}

#[test]
fn score_of_fifty_thousand_counts_the_next_bucket_twice() {
    let mut board = Leaderboard::new();
    board.update(1, 50_000);
    board.update(2, 50_500);
    assert_eq!(board.get_rank(2), Some(1));
    assert_eq!(board.get_rank(1), Some(3));
}

#[test]
fn inner_board_applies_a_batch_in_order() {
    let mut inner = LeaderboardInner::new();
    inner.apply_batch(vec![
        LeaderboardOp::Update { user_id: 1, old_xp: 0, new_xp: 300 },
        LeaderboardOp::Update { user_id: 2, old_xp: 0, new_xp: 700 },
        LeaderboardOp::Update { user_id: 1, old_xp: 300, new_xp: 900 },
        LeaderboardOp::Remove { user_id: 2, xp: 700 },
    ]);
    assert_eq!(inner.rank_of(900, 1), 1);
    assert_eq!(inner.range(0, 10), vec![LeaderboardEntry { rank: 1, user_id: 1, xp: 900 }]);
    assert_eq!(
        inner.bucket_distribution(),
        vec![BucketDistribution { bucket: 0, min_xp: 0, max_xp: 999, count: 1 }]
    );
}

#[test]
fn inner_board_has_room_when_small() {
    let inner = LeaderboardInner::new();
    assert!(inner.has_room());
    let board = Leaderboard::new();
    assert!(board.has_room());
}

#[test]
fn levels_never_fall_as_experience_grows() {
    let mut previous = experience_to_level(0);
    let mut xp: i64 = 1;
    while xp < 800_000_000 {
        let level = experience_to_level(xp);
        assert!(level >= previous, "experience {xp}");
        previous = level;
        xp += 997;
    }
    assert_eq!(experience_to_level(519), 1);
    assert_eq!(experience_to_level(520), 2);
    assert_eq!(experience_to_level(686_845_760), 110);
}

#[test]
fn setting_a_score_twice_is_setting_it_once() {
    let mut once = Leaderboard::new();
    let mut twice = Leaderboard::new();
    for (user, xp) in [(1, 500), (2, 70_000), (3, 500)] {
        once.update(user, xp);
        twice.update(user, xp);
    }
    once.update(2, 1_200);
    twice.update(2, 1_200);
    twice.update(2, 1_200);
    assert_eq!(once.get_value(&2), twice.get_value(&2));
    assert_eq!(once.get_range(0, 10), twice.get_range(0, 10));
    assert_eq!(once.bucket_distribution(), twice.bucket_distribution());
    for user in 1..=3 {
        assert_eq!(once.get_rank(user), twice.get_rank(user));
    }
}
