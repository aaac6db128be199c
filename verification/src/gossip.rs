//! The gossip wire envelope: a self-describing binary encoding of a
//! `(header_bytes, optional_body_bytes)` pair, published to and received
//! from the gossip channel.
use vstd::prelude::*;

use crate::bytesutil::view_opt;
use crate::header::{header_bytes, LogHeader};

verus! {

/// The envelope bytes that the operation format library's CBOR encoder
/// produces for a pair of header bytes and optional body bytes.
pub uninterp spec fn cbor_pair(h: Seq<u8>, b: Option<Seq<u8>>) -> Seq<u8>;

/// Relies on `p2panda_core::cbor::encode_cbor` at the pair type
/// `(Vec<u8>, Option<Vec<u8>>)`: a deterministic serialization of its
/// input alone. It cannot fail here: the serializer writes into a byte
/// vector, so no I/O error can arise, and a pair of byte vectors cannot
/// raise a value error.
#[verifier::external_body]
fn encode_pair(h: &Vec<u8>, b: &Option<Vec<u8>>) -> (r: Vec<u8>)
    ensures
        r@ == cbor_pair(h@, view_opt(b)),
{
    match p2panda_core::cbor::encode_cbor(&(h.clone(), b.clone())) {
        Ok(v) => v,
        Err(_) => Vec::new(),
    }
}

/// Relies on `p2panda_core::cbor::decode_cbor` at the same pair type:
/// decoding an encoded pair gives back exactly that pair, so a failed
/// decode means the input is no encoded pair.
#[verifier::external_body]
fn decode_pair(bytes: &Vec<u8>) -> (r: Option<(Vec<u8>, Option<Vec<u8>>)>)
    ensures
        match r {
            Some(p) => forall|h: Seq<u8>, b: Option<Seq<u8>>|
                bytes@ == cbor_pair(h, b) ==> p.0@ == h && view_opt(&p.1) == b,
            None => forall|h: Seq<u8>, b: Option<Seq<u8>>| bytes@ != cbor_pair(h, b),
        },
{
    match p2panda_core::cbor::decode_cbor(&bytes[..]) {
        Ok(p) => Some(p),
        Err(_) => None,
    }
}

/// Encodes a header and optional body into the gossip envelope: every
/// well-formed header is encoded, and only a malformed one is refused.
pub fn encode_gossip_operation(header: &LogHeader, body: &Option<Vec<u8>>) -> (r: Option<Vec<u8>>)
    ensures
        header@.wf() ==> (r matches Some(v) && v@ == cbor_pair(
            header_bytes(header@),
            view_opt(body),
        )),
        !header@.wf() ==> r is None,
{
    if !header.check_wf() {
        return None;
    }
    let hb = header.to_bytes();
    Some(encode_pair(&hb, body))
}

/// Decodes a gossip envelope back into header bytes and optional body
/// bytes; every envelope this node encodes decodes back unchanged.
pub fn decode_gossip_message(bytes: &Vec<u8>) -> (r: Option<(Vec<u8>, Option<Vec<u8>>)>)
    ensures
        forall|h: Seq<u8>, b: Option<Seq<u8>>|
            bytes@ == cbor_pair(h, b) ==> (r matches Some(p) && p.0@ == h && view_opt(&p.1) == b),
{
    decode_pair(bytes)
}

} // verus!
