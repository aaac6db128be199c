//! The log builder: sequence numbers, backlinks and signatures.
use buttnet::backend::Backend;
use buttnet::header::LogHeader;

fn as_p2panda_header(h: &LogHeader) -> p2panda_core::Header<p2panda_core::PruneFlag> {
    p2panda_core::Header {
        version: h.version,
        public_key: p2panda_core::PublicKey::from_bytes(h.public_key[..].try_into().unwrap())
            .unwrap(),
        signature: h
            .signature
            .as_ref()
            .map(|s| p2panda_core::Signature::from_bytes(s[..].try_into().unwrap())),
        payload_size: h.payload_size,
        payload_hash: h
            .payload_hash
            .as_ref()
            .map(|p| p2panda_core::Hash::from_bytes(p[..].try_into().unwrap())),
        timestamp: h.timestamp,
        seq_num: h.seq_num,
        backlink: h
            .backlink
            .as_ref()
            .map(|b| p2panda_core::Hash::from_bytes(b[..].try_into().unwrap())),
        previous: Vec::new(),
        extensions: h
            .extensions
            .as_ref()
            .map(|e| p2panda_core::PruneFlag::new(e.prune_flag)),
    }
}

fn op_id_of(h: &LogHeader) -> Vec<u8> {
    as_p2panda_header(h).hash().as_bytes().to_vec()
}

#[test]
fn first_operation_starts_the_log() {
    let mut backend = Backend::new(vec![1u8; 32]).unwrap();
    let (header, body) = backend.create_operation(b"hello");
    assert_eq!(body, b"hello".to_vec());
    assert_eq!(header.seq_num, 0);
    assert!(header.backlink.is_none());
    assert!(header.verify());
    assert_eq!(header.payload_size, 5);
    let expected_hash = p2panda_core::Hash::new(b"hello").as_bytes().to_vec();
    assert_eq!(header.payload_hash, Some(expected_hash));
}

#[test]
fn second_operation_links_back_to_the_first() {
    let mut backend = Backend::new(vec![1u8; 32]).unwrap();
    let (first, body) = backend.create_operation(b"hello");
    let first_id = op_id_of(&first);
    backend.ingest_operation(first.duplicate(), body);
    let (second, _) = backend.create_operation(b"world");
    assert_eq!(second.seq_num, 1);
    assert_eq!(second.backlink, Some(first_id));
    assert!(second.verify());
}

#[test]
fn sequence_numbers_count_up_with_chained_backlinks() {
    let mut backend = Backend::new(vec![2u8; 32]).unwrap();
    let mut previous: Option<LogHeader> = None;
    for k in 0..5u64 {
        let (_, header) = backend.create_post(format!("post {}", k).into_bytes());
        assert_eq!(header.seq_num, k);
        match &previous {
            None => assert!(header.backlink.is_none()),
            Some(p) => assert_eq!(header.backlink, Some(op_id_of(p))),
        }
        assert!(header.verify());
        previous = Some(header);
    }
}

#[test]
fn verification_accepts_the_signed_header_via_p2panda_too() {
    let mut backend = Backend::new(vec![3u8; 32]).unwrap();
    let (header, _) = backend.create_operation(b"check me");
    assert!(as_p2panda_header(&header).verify());
}

#[test]
fn mutating_any_field_invalidates_the_signature() {
    let mut backend = Backend::new(vec![4u8; 32]).unwrap();
    let (header, _) = backend.create_operation(b"immutable");
    assert!(header.verify());

    let mut h = header.duplicate();
    h.version += 1;
    assert!(!h.verify());

    let mut h = header.duplicate();
    h.public_key = p2panda_core::PrivateKey::from_bytes(&[5u8; 32])
        .public_key()
        .as_bytes()
        .to_vec();
    assert!(!h.verify());

    let mut h = header.duplicate();
    h.payload_size += 1;
    assert!(!h.verify());

    let mut h = header.duplicate();
    if let Some(ph) = &mut h.payload_hash {
        ph[0] ^= 0xff;
    }
    assert!(!h.verify());

    let mut h = header.duplicate();
    h.timestamp += 1;
    assert!(!h.verify());

    let mut h = header.duplicate();
    h.seq_num += 1;
    assert!(!h.verify());

    let mut h = header.duplicate();
    h.backlink = Some(vec![0u8; 32]);
    assert!(!h.verify());

    let mut h = header.duplicate();
    h.extensions = h.extensions.map(|mut e| {
        e.prune_flag = !e.prune_flag;
        e
    });
    assert!(!h.verify());

    let mut h = header.duplicate();
    if let Some(sig) = &mut h.signature {
        sig[10] ^= 0x01;
    }
    assert!(!h.verify());

    let mut h = header.duplicate();
    h.signature = None;
    assert!(!h.verify());
}

#[test]
fn backend_refuses_a_key_of_the_wrong_length() {
    assert!(Backend::new(vec![1u8; 31]).is_none());
    assert!(Backend::new(vec![1u8; 33]).is_none());
    assert!(Backend::new(Vec::new()).is_none());
    assert!(Backend::new(vec![0u8; 32]).is_some());
}

#[test]
fn public_key_matches_p2panda_derivation() {
    let backend = Backend::new(vec![6u8; 32]).unwrap();
    let expected = p2panda_core::PrivateKey::from_bytes(&[6u8; 32])
        .public_key()
        .as_bytes()
        .to_vec();
    assert_eq!(backend.public_key(), expected);
}
