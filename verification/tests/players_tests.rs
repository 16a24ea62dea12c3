use bitcraft_hub::batch::{import_chunk, transaction_plan, AppendBatch};
use bitcraft_hub::clients::parse_topic;
use bitcraft_hub::claims::{member_online_states, MemberPlayer, OnlineState};
use bitcraft_hub::houses::{house_names, house_user_ids, houses_page, owner_filter, HousesPage, OwnerFilter};
use bitcraft_hub::leaderboard::Leaderboard;
use bitcraft_hub::membership::ClaimMembers;
use bitcraft_hub::players::{read_rank, PlayerRecord, PlayerStateBatch, TimeUpdate};
use bitcraft_hub::text::parse_i64;
use bitcraft_hub::top_lists::sort_dedup;

fn record(entity_id: i64, time_played: i32, sign_in_timestamp: i32) -> PlayerRecord<&'static str> {
    PlayerRecord { entity_id, time_played, time_signed_in: time_played / 2, sign_in_timestamp, signed_in: true, data: "p" }
}

fn pending(batch: &mut PlayerStateBatch<&'static str>) -> Vec<(i64, i32)> {
    let (records, _) = batch.flush();
    records.iter().map(|r| (r.entity_id, r.sign_in_timestamp)).collect()
}

#[test]
fn insert_moves_the_time_leaderboards() {
    let mut batch = PlayerStateBatch::new(10);
    let mut played = Leaderboard::new();
    let mut signed = Leaderboard::new();
    batch.handle_insert(&mut played, &mut signed, record(1, 100, 5)).unwrap();
    assert_eq!(played.get_value(&1), Some(100));
    assert_eq!(signed.get_value(&1), Some(50));
    assert_eq!(batch.ids, vec![1]);
    assert_eq!(pending(&mut batch), vec![(1, 5)]);
}

#[test]
fn a_record_without_sign_in_time_keeps_the_waiting_one() {
    let mut batch = PlayerStateBatch::new(10);
    let mut played = Leaderboard::new();
    let mut signed = Leaderboard::new();
    batch.handle_insert(&mut played, &mut signed, record(1, 100, 42)).unwrap();
    batch.handle_update(&mut played, &mut signed, record(1, 110, 0), 7).unwrap();
    assert_eq!(pending(&mut batch), vec![(1, 42)]);
}

#[test]
fn a_missing_sign_in_time_comes_from_the_old_state() {
    let mut batch = PlayerStateBatch::new(10);
    let mut played = Leaderboard::new();
    let mut signed = Leaderboard::new();
    batch.handle_update(&mut played, &mut signed, record(3, 10, 0), 77).unwrap();
    assert_eq!(pending(&mut batch), vec![(3, 77)]);
}

#[test]
fn after_a_reset_earlier_records_stay() {
    let mut batch = PlayerStateBatch::new(10);
    let mut played = Leaderboard::new();
    let mut signed = Leaderboard::new();
    batch.handle_insert(&mut played, &mut signed, record(1, 100, 42)).unwrap();
    batch.reset_batch();
    batch.handle_insert(&mut played, &mut signed, record(1, 120, 0)).unwrap();
    assert_eq!(pending(&mut batch), vec![(1, 42), (1, 0)]);
}

#[test]
fn update_ranks_the_player_whose_id_is_the_time_played() {
    let mut batch = PlayerStateBatch::new(10);
    let mut played = Leaderboard::new();
    let mut signed = Leaderboard::new();
    played.update(30, 500);
    signed.update(30, 9);
    let events = batch.handle_update(&mut played, &mut signed, record(1, 30, 1), 0).unwrap();
    assert_eq!(
        events,
        vec![
            TimeUpdate::TimePlayed { user_id: 1, time: 30, rank: 1 },
            TimeUpdate::TimeSignedIn { user_id: 1, time: 30, rank: 2 },
        ]
    );
    let quiet = batch.handle_update(&mut played, &mut signed, record(2, 31, 1), 0).unwrap();
    assert!(quiet.is_empty());
    assert_eq!(read_rank(&played, 30), Some(1));
    assert_eq!(read_rank(&played, 99), None);
}

#[test]
fn removal_drops_the_waiting_record_unless_transferred() {
    let mut batch = PlayerStateBatch::new(2);
    let mut played = Leaderboard::new();
    let mut signed = Leaderboard::new();
    batch.handle_insert(&mut played, &mut signed, record(1, 100, 42)).unwrap();
    batch.handle_remove(1, Some("transfer_player_delayed"));
    assert_eq!(batch.messages.len(), 1);
    batch.handle_remove(1, None);
    assert!(batch.messages.is_empty());
    assert_eq!(batch.messages_delete, vec![1]);
    assert!(!batch.should_flush());
    batch.handle_remove(2, None);
    assert!(batch.should_flush());
    let (_, deletes) = batch.flush();
    assert_eq!(deletes, vec![1, 2]);
    assert!(batch.is_idle());
}

#[test]
fn append_batch_keeps_every_record() {
    let mut batch: AppendBatch<u8> = AppendBatch::new(10);
    batch.on_remove(5, None);
    batch.on_append(5, 1);
    batch.on_append(5, 2);
    batch.on_replace(5, 3);
    batch.on_append(6, 4);
    let (messages, deletes) = batch.take();
    assert_eq!(messages, vec![(5, 2), (5, 3), (6, 4)]);
    assert!(deletes.is_empty());
    assert!(batch.is_idle());
}

#[test]
fn transaction_keeps_the_last_insert_and_unmatched_deletes() {
    let (store, delete) = transaction_plan(&vec![1, 2, 1, 3], &vec![2, 4, 4, 5]);
    assert_eq!(store, vec![1, 2, 3]);
    assert_eq!(delete, vec![4, 5]);
}

#[test]
fn import_chunks_write_new_and_changed_rows() {
    let mut pending_deletes: Vec<i64> = vec![];
    let writes = import_chunk(&vec![1, 2, 3], &vec![true, false, true], &vec![true, false, false], 2, true, &mut pending_deletes);
    assert_eq!(writes, vec![1, 2]);
    assert!(pending_deletes.is_empty());
    let mut pending_deletes: Vec<i64> = vec![9];
    let writes = import_chunk(&vec![1, 1], &vec![false, false], &vec![false, false], 0, true, &mut pending_deletes);
    assert_eq!(writes, vec![0, 1]);
    assert_eq!(pending_deletes, vec![9]);
    let mut pending_deletes: Vec<i64> = vec![9];
    let writes = import_chunk(&vec![1], &vec![true], &vec![true], 1, false, &mut pending_deletes);
    assert!(writes.is_empty());
    assert_eq!(pending_deletes, vec![9]);
}

#[test]
fn claim_members_are_cached_per_claim() {
    let mut members: ClaimMembers<&str> = ClaimMembers::new();
    members.add_claim_member(100, 1, "alice");
    members.add_claim_member(100, 2, "bob");
    members.add_claim_member(200, 1, "alice again");
    let mut ids = members.member_ids(100);
    ids.sort();
    assert_eq!(ids, vec![1, 2]);
    assert_eq!(members.member(200, 1), Some(&"alice again"));
    let mut claims = members.claims_of(1);
    claims.sort();
    assert_eq!(claims, vec![100, 200]);
    members.remove_claim_member(100, 1);
    assert_eq!(members.member_ids(100), vec![2]);
    assert!(members.member_ids(200).is_empty());
    assert_eq!(members.claims_of(1), vec![200]);
    assert_eq!(members.member(100, 1), None);
}

#[test]
fn only_the_first_member_of_a_player_is_shown_online() {
    let players = vec![MemberPlayer { entity_id: 5, signed_in: true, time_signed_in: 0 }];
    assert_eq!(
        member_online_states(&vec![5, 6, 5], &players),
        vec![OnlineState::Online, OnlineState::Offline, OnlineState::Offline]
    );
}

#[test]
fn numbers_parse_like_std() {
    for text in ["0", "42", "-17", "+8", "007", "9223372036854775807", "-9223372036854775808", "", "-", "+", "1 ", "x1", "9223372036854775808", "-9223372036854775809", "99999999999999999999999"] {
        assert_eq!(parse_i64(text), text.parse::<i64>().ok(), "{text:?}");
    }
}

#[test]
fn topics_split_at_the_first_dot() {
    assert_eq!(parse_topic("experience.42"), Some(("experience".to_string(), 42)));
    assert_eq!(parse_topic("a.b.3"), None);
    assert_eq!(parse_topic(".7"), Some(("".to_string(), 7)));
    assert_eq!(parse_topic("level"), None);
    assert_eq!(parse_topic("level.-3"), Some(("level".to_string(), -3)));
}

#[test]
fn house_listing_pages() {
    assert_eq!(houses_page(None, None), Some(HousesPage { page: 1, per_page: 20, page_index: 0 }));
    assert_eq!(houses_page(Some(3), Some(500)), Some(HousesPage { page: 3, per_page: 100, page_index: 2 }));
    assert_eq!(houses_page(Some(0), Some(5)), None);
}

#[test]
fn owner_filter_reads_ids_and_names() {
    assert_eq!(owner_filter(None), OwnerFilter::Everyone);
    assert_eq!(owner_filter(Some("")), OwnerFilter::Everyone);
    assert_eq!(owner_filter(Some("1234")), OwnerFilter::Id(1234));
    assert_eq!(owner_filter(Some("Alice")), OwnerFilter::Username("Alice".to_string()));
}

#[test]
fn house_names_come_from_the_last_entry() {
    assert_eq!(house_user_ids(&vec![5, 3, 5], 4), vec![3, 4, 5]);
    assert_eq!(house_user_ids(&vec![5], 0), vec![5]);
    assert_eq!(sort_dedup(vec![2, 2, 1]), vec![1, 2]);
    let names = vec![(3, "old".to_string()), (3, "carol".to_string()), (4, "dave".to_string())];
    let (permissions, owner) = house_names(&vec![3, 9], 4, &names);
    assert_eq!(permissions, vec![Some("carol".to_string()), None]);
    assert_eq!(owner, Some("dave".to_string()));
    let (_, nobody) = house_names(&vec![], 0, &names);
    assert_eq!(nobody, None);
}
