//! The ingestion funnel: backpressure, the single consumer, and the
//! handling of undecodable bodies.
use buttnet::backend::Backend;
use buttnet::funnel::{Funnel, FUNNEL_CAPACITY};
use buttnet::header::LogHeader;
use buttnet::operation::ButtEvent;

fn small_header(n: u64) -> LogHeader {
    LogHeader {
        version: 1,
        public_key: vec![0u8; 32],
        signature: None,
        payload_size: 0,
        payload_hash: None,
        timestamp: n,
        seq_num: 0,
        backlink: None,
        previous: Vec::new(),
        extensions: None,
    }
}

#[test]
fn enqueue_beyond_capacity_reports_a_full_queue() {
    let mut funnel = Funnel::new(FUNNEL_CAPACITY);
    for n in 0..FUNNEL_CAPACITY as u64 {
        assert!(funnel.enqueue(small_header(n), Vec::new()));
    }
    assert_eq!(funnel.len(), FUNNEL_CAPACITY);
    // The producer of entry number capacity + 1 is told to suspend.
    assert!(!funnel.enqueue(small_header(0), Vec::new()));
    assert_eq!(funnel.len(), FUNNEL_CAPACITY);
    // Once the consumer drains one entry, the producer gets through.
    assert!(funnel.dequeue().is_some());
    assert!(funnel.enqueue(small_header(1), Vec::new()));
    assert_eq!(funnel.len(), FUNNEL_CAPACITY);
}

#[test]
fn dequeue_is_first_in_first_out() {
    let mut funnel = Funnel::new(4);
    funnel.enqueue(small_header(10), b"a".to_vec());
    funnel.enqueue(small_header(11), b"b".to_vec());
    let (h, b) = funnel.dequeue().unwrap();
    assert_eq!(h.timestamp, 10);
    assert_eq!(b, b"a".to_vec());
    let (h, b) = funnel.dequeue().unwrap();
    assert_eq!(h.timestamp, 11);
    assert_eq!(b, b"b".to_vec());
    assert!(funnel.dequeue().is_none());
}

#[test]
fn corrupted_event_is_discarded_and_the_funnel_continues() {
    let mut backend = Backend::new(vec![7u8; 32]).unwrap();
    let mut funnel = Funnel::new(16);

    // A gossip-decoded body whose event tag byte was corrupted in flight.
    let mut corrupt = ButtEvent::Post(b"hi".to_vec()).to_bytes();
    corrupt[2] = b'X';
    let (bad_header, bad_body) = backend.create_operation(&corrupt);
    assert!(funnel.enqueue(bad_header, bad_body));

    assert!(backend.process_next(&mut funnel));
    // The materializer was never called for it; the operation itself was
    // still persisted.
    assert_eq!(backend.app_data().post_count(), 0);
    assert_eq!(backend.store().len(), 1);

    // The pipeline keeps processing subsequent entries.
    let good = ButtEvent::Post(b"hi".to_vec()).to_bytes();
    let (good_header, good_body) = backend.create_operation(&good);
    assert!(funnel.enqueue(good_header, good_body));
    assert!(backend.process_next(&mut funnel));
    assert_eq!(backend.app_data().post_count(), 1);
    assert_eq!(backend.store().len(), 2);

    // Nothing is left queued.
    assert!(!backend.process_next(&mut funnel));
}

#[test]
fn redelivery_through_the_funnel_is_idempotent() {
    let mut backend = Backend::new(vec![3u8; 32]).unwrap();
    let mut funnel = Funnel::new(8);
    let body = ButtEvent::Post(b"once".to_vec()).to_bytes();
    let (header, body_bytes) = backend.create_operation(&body);

    // The same operation arrives from several sources.
    funnel.enqueue(header.duplicate(), body_bytes.clone());
    funnel.enqueue(header.duplicate(), body_bytes.clone());
    backend.process_next(&mut funnel);
    backend.process_next(&mut funnel);
    // And once more directly, as the local creation path would.
    backend.insert_operation(&body_bytes, &header, &ButtEvent::Post(b"once".to_vec()));

    assert_eq!(backend.store().len(), 1);
    assert_eq!(backend.app_data().post_count(), 1);
}

#[test]
fn wrong_backlink_is_not_admitted_to_the_log() {
    let mut backend = Backend::new(vec![5u8; 32]).unwrap();
    let body = ButtEvent::Post(b"first".to_vec()).to_bytes();
    let (h0, b0) = backend.create_operation(&body);
    backend.ingest_operation(h0, b0);
    let body2 = ButtEvent::Post(b"second".to_vec()).to_bytes();
    let (mut h1, b1) = backend.create_operation(&body2);
    h1.backlink = Some(vec![0u8; 32]);
    h1.signature = None;
    backend.ingest_operation(h1, b1);
    assert_eq!(backend.store().len(), 1);
}

#[test]
fn out_of_order_operation_is_not_admitted_to_the_log() {
    let mut backend = Backend::new(vec![4u8; 32]).unwrap();
    let body = ButtEvent::Post(b"later".to_vec()).to_bytes();
    let (mut header, body_bytes) = backend.create_operation(&body);
    // Claim a sequence number with no predecessor in the store.
    header.seq_num = 5;
    header.signature = None;
    backend.ingest_operation(header, body_bytes);
    assert_eq!(backend.store().len(), 0);
    // The event itself still decodes, so it is materialized.
    assert_eq!(backend.app_data().post_count(), 1);
}
