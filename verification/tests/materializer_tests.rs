//! The materializer's idempotence, the follow policy, and the identity
//! directory.
use buttnet::backend::{AppData, Backend};
use buttnet::header::LogHeader;
use buttnet::operation::ButtEvent;
use buttnet::store::OperationStore;
use buttnet::topic::{ButtLogMap, ButtQuery};

fn test_header(seed: u8, timestamp: u64) -> LogHeader {
    let public_key = p2panda_core::PrivateKey::from_bytes(&[seed; 32])
        .public_key()
        .as_bytes()
        .to_vec();
    LogHeader {
        version: 1,
        public_key,
        signature: None,
        payload_size: 0,
        payload_hash: None,
        timestamp,
        seq_num: 0,
        backlink: None,
        previous: Vec::new(),
        extensions: None,
    }
}

fn hex_of(bytes: &[u8]) -> String {
    let digits = b"0123456789abcdef";
    let mut out = String::new();
    for b in bytes {
        out.push(digits[(b >> 4) as usize] as char);
        out.push(digits[(b & 0x0f) as usize] as char);
    }
    out
}

#[test]
fn materializing_the_same_post_twice_stores_one_record() {
    let mut app = AppData::new();
    let header = test_header(1, 77);
    let event = ButtEvent::Post(b"hi".to_vec());
    app.materialize(&event, &header);
    app.materialize(&event, &header);
    assert_eq!(app.post_count(), 1);
    let rows = app.get_posts();
    assert_eq!(rows.len(), 1);
    let expected_id = p2panda_core::Hash::new(
        p2panda_core::Header::<p2panda_core::PruneFlag> {
            version: 1,
            public_key: p2panda_core::PrivateKey::from_bytes(&[1; 32]).public_key(),
            signature: None,
            payload_size: 0,
            payload_hash: None,
            timestamp: 77,
            seq_num: 0,
            backlink: None,
            previous: Vec::new(),
            extensions: None,
        }
        .to_bytes(),
    );
    assert_eq!(rows[0].id, expected_id.to_hex());
    assert_eq!(rows[0].body, "hi");
    assert_eq!(rows[0].timestamp, 77);
    assert_eq!(rows[0].public_key, hex_of(&header.public_key));
}

#[test]
fn different_operations_each_store_a_record() {
    let mut app = AppData::new();
    app.materialize(&ButtEvent::Post(b"one".to_vec()), &test_header(1, 1));
    app.materialize(&ButtEvent::Post(b"two".to_vec()), &test_header(1, 2));
    app.materialize(&ButtEvent::Post(b"three".to_vec()), &test_header(2, 1));
    assert_eq!(app.post_count(), 3);
}

#[test]
fn follow_is_update_only_and_never_creates_an_entry() {
    let mut app = AppData::new();
    let header = test_header(1, 5);
    let target = p2panda_core::PrivateKey::from_bytes(&[9; 32])
        .public_key()
        .as_bytes()
        .to_vec();
    app.materialize(&ButtEvent::Follow(target), &header);
    assert_eq!(app.follow_count(), 0);
    assert_eq!(app.post_count(), 0);
}

#[test]
fn directory_lists_exactly_the_authors_with_posts() {
    let mut app = AppData::new();
    let h1 = test_header(1, 10);
    let h2 = test_header(2, 11);
    let h2b = test_header(2, 12);
    app.materialize(&ButtEvent::Post(b"a".to_vec()), &h1);
    app.materialize(&ButtEvent::Post(b"b".to_vec()), &h2);
    app.materialize(&ButtEvent::Post(b"c".to_vec()), &h2b);

    let keys = app.get_all_keys();
    assert_eq!(keys.len(), 2);
    assert!(keys.contains(&h1.public_key));
    assert!(keys.contains(&h2.public_key));

    let map = ButtLogMap::new(OperationStore::new(), app);
    let logs = map.get(&ButtQuery { hops: 1 }).unwrap();
    assert_eq!(logs.len(), 2);
    for (author, log_ids) in &logs {
        assert!(*author == h1.public_key || *author == h2.public_key);
        assert_eq!(log_ids.len(), 1);
        assert_eq!(&log_ids[0].0, author);
    }
}

#[test]
fn directory_is_empty_without_posts() {
    let map = ButtLogMap::new(OperationStore::new(), AppData::new());
    let logs = map.get(&ButtQuery { hops: 3 }).unwrap();
    assert!(logs.is_empty());
}

#[test]
fn malformed_header_is_not_materialized() {
    let mut app = AppData::new();
    let mut header = test_header(1, 5);
    header.public_key = vec![1u8; 31];
    app.materialize(&ButtEvent::Post(b"x".to_vec()), &header);
    assert_eq!(app.post_count(), 0);
}

#[test]
fn a_post_body_that_is_not_text_is_skipped_by_the_frontend() {
    // The decoder never produces such an event; this guards the directly
    // constructed case.
    let mut app = AppData::new();
    app.materialize(&ButtEvent::Post(vec![0xff, 0xfe]), &test_header(1, 3));
    assert_eq!(app.post_count(), 1);
    assert!(app.get_posts().is_empty());
}

#[test]
fn topic_identifier_is_the_fixed_gossip_topic_hash() {
    let q = ButtQuery { hops: 1 };
    let expected = p2panda_core::Hash::new(b"gossip-topic").as_bytes().to_vec();
    assert_eq!(q.id(), expected);
    assert_eq!(ButtQuery { hops: 9 }.id(), expected);
}

#[test]
fn posts_survive_the_full_backend_path_once() {
    let mut backend = Backend::new(vec![8u8; 32]).unwrap();
    let (_, header) = backend.create_post(b"hello world".to_vec());
    assert_eq!(backend.app_data().post_count(), 1);
    assert_eq!(backend.store().len(), 1);
    let rows = backend.app_data().get_posts();
    assert_eq!(rows[0].body, "hello world");
    assert_eq!(rows[0].public_key, hex_of(&header.public_key));
}
