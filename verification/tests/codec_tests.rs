//! The event body encoding and the gossip envelope, held against the
//! serializers the rest of the network speaks.
use buttnet::backend::Backend;
use buttnet::gossip::{decode_gossip_message, encode_gossip_operation};
use buttnet::operation::ButtEvent;

fn serde_post_bytes(text: &str) -> Vec<u8> {
    let mut map = serde_json::Map::new();
    map.insert(
        "Post".to_string(),
        serde_json::Value::String(text.to_string()),
    );
    serde_json::to_vec(&serde_json::Value::Object(map)).unwrap()
}

fn serde_follow_bytes(key: &p2panda_core::PublicKey) -> Vec<u8> {
    let mut map = serde_json::Map::new();
    map.insert(
        "Follow".to_string(),
        serde_json::Value::String(key.to_hex()),
    );
    serde_json::to_vec(&serde_json::Value::Object(map)).unwrap()
}

#[test]
fn post_encoding_matches_the_json_serializer() {
    for text in [
        "hi",
        "",
        "with \"quotes\" and \\backslash\\",
        "line\nbreak\tand\rcontrols",
        "null\u{0}and unit\u{1f}separators\u{8}\u{c}",
        "ünïçødé ♥ text",
        "slash / stays",
    ] {
        let ours = ButtEvent::Post(text.as_bytes().to_vec()).to_bytes();
        assert_eq!(ours, serde_post_bytes(text), "text: {:?}", text);
    }
}

#[test]
fn follow_encoding_matches_the_json_serializer() {
    let key = p2panda_core::PrivateKey::from_bytes(&[11u8; 32]).public_key();
    let ours = ButtEvent::Follow(key.as_bytes().to_vec()).to_bytes();
    assert_eq!(ours, serde_follow_bytes(&key));
}

#[test]
fn events_decode_back_without_loss() {
    let texts: [&[u8]; 4] = [b"hi", b"", b"a \"b\" \\c\\ \n", "♥".as_bytes()];
    for text in texts {
        let encoded = ButtEvent::Post(text.to_vec()).to_bytes();
        match ButtEvent::from_bytes(&encoded) {
            Some(ButtEvent::Post(t)) => assert_eq!(t, text.to_vec()),
            other => panic!("decoded wrongly: {:?}", other.map(|_| ())),
        }
    }
    let key = vec![42u8; 32];
    let encoded = ButtEvent::Follow(key.clone()).to_bytes();
    match ButtEvent::from_bytes(&encoded) {
        Some(ButtEvent::Follow(k)) => assert_eq!(k, key),
        other => panic!("decoded wrongly: {:?}", other.map(|_| ())),
    }
}

#[test]
fn malformed_bodies_are_rejected() {
    let cases: Vec<Vec<u8>> = vec![
        Vec::new(),
        b"{}".to_vec(),
        b"{\"Xost\":\"hi\"}".to_vec(),
        b"{\"Post\":\"hi\"".to_vec(),
        b"{\"Post\":\"hi\"} ".to_vec(),
        b"{\"Follow\":\"zz\"}".to_vec(),
        b"{\"Follow\":\"abcd\"}".to_vec(),
        b"{\"Post\":\"bad \x01 control\"}".to_vec(),
        b"{\"Post\":\"raw \xff byte\"}".to_vec(),
        b"{\"Post\":\"broken \xc3 pair\"}".to_vec(),
        b"not json at all".to_vec(),
    ];
    for bytes in cases {
        assert!(
            ButtEvent::from_bytes(&bytes).is_none(),
            "accepted: {:?}",
            bytes
        );
    }
}

#[test]
fn gossip_envelope_round_trips() {
    let mut backend = Backend::new(vec![12u8; 32]).unwrap();
    let (header, body) = backend.create_operation(b"{\"Post\":\"hey\"}");
    let envelope = encode_gossip_operation(&header, &Some(body.clone())).unwrap();
    let (header_bytes, body_bytes) = decode_gossip_message(&envelope).unwrap();
    assert_eq!(body_bytes, Some(body));
    // The header bytes inside the envelope are the canonical encoding.
    let decoded: p2panda_core::Header<p2panda_core::PruneFlag> =
        p2panda_core::cbor::decode_cbor(&header_bytes[..]).unwrap();
    assert_eq!(decoded.seq_num, header.seq_num);
    assert_eq!(decoded.timestamp, header.timestamp);
    assert_eq!(decoded.public_key.as_bytes().to_vec(), header.public_key);
    assert!(decoded.verify());
}

#[test]
fn gossip_envelope_without_body_round_trips() {
    let mut backend = Backend::new(vec![13u8; 32]).unwrap();
    let (header, _) = backend.create_operation(b"x");
    let envelope = encode_gossip_operation(&header, &None).unwrap();
    let (_, body_bytes) = decode_gossip_message(&envelope).unwrap();
    assert_eq!(body_bytes, None);
}

#[test]
fn garbage_gossip_bytes_do_not_decode() {
    assert!(decode_gossip_message(&vec![0xff, 0x00, 0x13]).is_none());
}

#[test]
fn malformed_header_is_not_encoded_for_gossip() {
    let mut backend = Backend::new(vec![14u8; 32]).unwrap();
    let (mut header, _) = backend.create_operation(b"x");
    header.public_key = vec![0u8; 3];
    assert!(encode_gossip_operation(&header, &None).is_none());
}
