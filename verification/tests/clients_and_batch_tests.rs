use bitcraft_hub::batch::{initial_plan, KeyedBatch};
use bitcraft_hub::clients::{format_topic, parse_topic, ClientsState, WebsocketEncoding};
use bitcraft_hub::text::format_i64;

fn s(text: &str) -> String {
    text.to_string()
}

#[test]
fn unknown_client_has_no_encoding_and_no_topics() {
    let state = ClientsState::new();
    assert_eq!(state.get_encode_format_for_client(&s("a")), None);
    assert_eq!(state.get_topics_for_client(&s("a")), None);
    assert!(state.clients_listen_to_topic(&s("experience"), 1).is_empty());
}

#[test]
fn subscriptions_are_listed_per_client_and_topic() {
    let mut state = ClientsState::new();
    state.add_client(s("a"), WebsocketEncoding::Json);
    state.add_client(s("b"), WebsocketEncoding::Toml);
    state.add_topic_to_client(&s("a"), &s("experience"), 1);
    state.add_topic_to_client(&s("a"), &s("level"), 1);
    state.add_topic_to_client(&s("b"), &s("experience"), 1);
    assert_eq!(state.get_encode_format_for_client(&s("b")), Some(WebsocketEncoding::Toml));
    let mut listeners = state.clients_listen_to_topic(&s("experience"), 1);
    listeners.sort();
    assert_eq!(listeners, vec![s("a"), s("b")]);
    assert_eq!(state.clients_listen_to_topic(&s("level"), 1), vec![s("a")]);
    assert!(state.clients_listen_to_topic(&s("experience"), 2).is_empty());
    let mut topics = state.get_topics_for_client(&s("a")).unwrap();
    topics.sort();
    assert_eq!(topics, vec![s("experience.1"), s("level.1")]);
    let mut ids = state.topic_ids_for_client(&s("a")).unwrap();
    ids.sort();
    assert_eq!(ids, vec![(s("experience"), 1), (s("level"), 1)]);
    assert!(state.client_listen_to_topics(&s("b"), &vec![(s("level"), 1), (s("experience"), 1)]));
    assert!(!state.client_listen_to_topics(&s("b"), &vec![(s("level"), 1)]));
    assert!(state.listeners_for_topic(&vec![(s("level"), 1)]));
    assert!(!state.listeners_for_topic(&vec![(s("level"), 2)]));
}

#[test]
fn subscribing_twice_counts_once() {
    let mut state = ClientsState::new();
    state.add_client(s("a"), WebsocketEncoding::MessagePack);
    state.add_topic_to_client(&s("a"), &s("level"), 4);
    state.add_topic_to_client(&s("a"), &s("level"), 4);
    state.remove_topic_from_client(&s("a"), &s("level"), 4);
    assert!(!state.listeners_for_topic(&vec![(s("level"), 4)]));
    assert!(state.clients_listen_to_topic(&s("level"), 4).is_empty());
}

#[test]
fn unsubscribing_leaves_other_listeners() {
    let mut state = ClientsState::new();
    state.add_client(s("a"), WebsocketEncoding::Json);
    state.add_client(s("b"), WebsocketEncoding::Yaml);
    state.add_topic_to_client(&s("a"), &s("experience"), 9);
    state.add_topic_to_client(&s("b"), &s("experience"), 9);
    state.remove_topic_from_client(&s("a"), &s("experience"), 9);
    assert_eq!(state.clients_listen_to_topic(&s("experience"), 9), vec![s("b")]);
    assert!(state.listeners_for_topic(&vec![(s("experience"), 9)]));
    assert_eq!(state.get_topics_for_client(&s("a")), Some(vec![]));
}

#[test]
fn disconnecting_drops_the_clients_subscriptions() {
    let mut state = ClientsState::new();
    state.add_client(s("a"), WebsocketEncoding::Json);
    state.add_topic_to_client(&s("a"), &s("experience"), 9);
    state.add_topic_to_client(&s("a"), &s("level"), 9);
    state.remove_client(&s("a"));
    assert_eq!(state.get_encode_format_for_client(&s("a")), None);
    assert!(!state.listeners_for_topic(&vec![(s("experience"), 9), (s("level"), 9)]));
    assert!(state.clients_listen_to_topic(&s("level"), 9).is_empty());
}

#[test]
fn reconnecting_starts_without_subscriptions() {
    let mut state = ClientsState::new();
    state.add_client(s("a"), WebsocketEncoding::Json);
    state.add_topic_to_client(&s("a"), &s("level"), 1);
    state.add_client(s("a"), WebsocketEncoding::Yaml);
    assert_eq!(state.get_encode_format_for_client(&s("a")), Some(WebsocketEncoding::Yaml));
    assert_eq!(state.get_topics_for_client(&s("a")), Some(vec![]));
}

#[test]
fn batch_keeps_the_latest_record_per_id() {
    let mut batch: KeyedBatch<&str> = KeyedBatch::new(3);
    assert!(batch.is_idle());
    assert!(!batch.on_insert(1, "one"));
    assert!(!batch.on_insert(2, "two"));
    assert!(!batch.on_update(1, "one again"));
    assert!(!batch.is_idle());
    let (messages, deletes) = batch.take();
    assert_eq!(messages, vec![(2, "two"), (1, "one again")]);
    assert!(deletes.is_empty());
    assert!(batch.is_idle());
}

#[test]
fn batch_is_due_at_its_size() {
    let mut batch: KeyedBatch<u8> = KeyedBatch::new(2);
    assert!(!batch.on_insert(1, 1));
    assert!(batch.on_insert(2, 2));
    let mut removals: KeyedBatch<u8> = KeyedBatch::new(2);
    assert!(!removals.on_remove(5, None));
    assert!(removals.on_remove(6, Some("player_logout")));
}

#[test]
fn removal_cancels_a_waiting_record() {
    let mut batch: KeyedBatch<u8> = KeyedBatch::new(10);
    batch.on_insert(1, 10);
    batch.on_insert(2, 20);
    batch.on_remove(1, None);
    batch.on_insert(3, 30);
    let (messages, deletes) = batch.take();
    assert_eq!(messages, vec![(2, 20), (3, 30)]);
    assert_eq!(deletes, vec![1]);
}

#[test]
fn reinsert_cancels_a_waiting_delete() {
    let mut batch: KeyedBatch<u8> = KeyedBatch::new(10);
    batch.on_remove(4, None);
    batch.on_insert(4, 40);
    let (messages, deletes) = batch.take();
    assert_eq!(messages, vec![(4, 40)]);
    assert!(deletes.is_empty());
}

#[test]
fn delayed_transfer_removal_is_ignored() {
    let mut batch: KeyedBatch<u8> = KeyedBatch::new(1);
    batch.on_insert(7, 70);
    batch.take();
    assert!(!batch.on_remove(7, Some("transfer_player_delayed")));
    assert!(batch.is_idle());
}

#[test]
fn snapshot_stores_new_and_changed_records_and_deletes_vanished_ones() {
    let incoming = vec![1, 2, 3, 2];
    let unchanged = vec![true, false, true, true];
    let known = vec![1, 2, 5];
    let (store, delete) = initial_plan(&incoming, &unchanged, &known);
    assert_eq!(store, vec![1, 2, 3]);
    assert_eq!(delete, vec![5]);
}

#[test]
fn a_message_reaches_each_listener_of_each_topic() {
    let mut state = ClientsState::new();
    state.add_client(s("a"), WebsocketEncoding::Json);
    state.add_client(s("b"), WebsocketEncoding::Json);
    state.add_topic_to_client(&s("a"), &s("level"), 1);
    state.add_topic_to_client(&s("a"), &s("experience"), 1);
    state.add_topic_to_client(&s("b"), &s("level"), 1);
    assert_eq!(state.listener_count(&s("level"), 1), 2);
    assert_eq!(state.listener_count(&s("level"), 2), 0);
    let mut level = state.recipients(&vec![(s("level"), 1)]);
    level.sort();
    assert_eq!(level, vec![s("a"), s("b")]);
    let both = state.recipients(&vec![(s("experience"), 1), (s("level"), 1)]);
    assert_eq!(both.len(), 3);
    assert_eq!(both[0], s("a"));
    assert!(state.recipients(&vec![]).is_empty());
}

#[test]
fn numbers_are_written_in_decimal() {
    for n in [0i64, 7, 10, 42, -1, -305, i64::MAX, i64::MIN] {
        assert_eq!(format_i64(n), n.to_string());
    }
}

#[test]
fn listed_topics_read_back_as_subscribed() {
    let mut state = ClientsState::new();
    state.add_client(s("a"), WebsocketEncoding::Json);
    state.add_topic_to_client(&s("a"), &s("experience"), -12);
    let listed = state.get_topics_for_client(&s("a")).unwrap();
    assert_eq!(listed, vec![s("experience.-12")]);
    assert_eq!(parse_topic(&listed[0]), Some((s("experience"), -12)));
    assert_eq!(format_topic(&s("level"), 9_000_000_000), s("level.9000000000"));
}

#[test]
fn unsubscribing_undoes_a_subscription() {
    let mut state = ClientsState::new();
    state.add_client(s("a"), WebsocketEncoding::Json);
    state.add_client(s("b"), WebsocketEncoding::Json);
    state.add_topic_to_client(&s("b"), &s("level"), 4);
    state.add_topic_to_client(&s("a"), &s("experience"), 1);
    let topics_before = state.get_topics_for_client(&s("a"));
    assert_eq!(state.listener_count(&s("level"), 4), 1);
    state.add_topic_to_client(&s("a"), &s("level"), 4);
    assert_eq!(state.listener_count(&s("level"), 4), 2);
    state.remove_topic_from_client(&s("a"), &s("level"), 4);
    assert_eq!(state.listener_count(&s("level"), 4), 1);
    assert_eq!(state.get_topics_for_client(&s("a")), topics_before);
    assert_eq!(state.clients_listen_to_topic(&s("level"), 4), vec![s("b")]);
}
