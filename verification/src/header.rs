//! The signed envelope of one log entry, modeled over plain bytes.
//!
//! Hashing, signing and the canonical header encoding are supplied by the
//! underlying operation format library through trusted wrappers; their
//! results are named by uninterpreted functions that the contracts of this
//! crate build on.
use vstd::prelude::*;

use crate::operation::ButtExtensions;
use p2panda_core::{Header as WireHeader, PruneFlag};

verus! {

/// The header of one operation: the signed metadata envelope over a body.
#[derive(Debug)]
pub struct LogHeader {
    /// Operation format version, always 1 in this system.
    pub version: u64,
    /// Author of this operation, a 32-byte Ed25519 public key.
    pub public_key: Vec<u8>,
    /// 64-byte signature over the canonical unsigned encoding, absent
    /// until the header is signed.
    pub signature: Option<Vec<u8>>,
    /// Number of bytes of the body.
    pub payload_size: u64,
    /// 32-byte content hash of the body.
    pub payload_hash: Option<Vec<u8>>,
    /// Wall-clock creation time in whole seconds.
    pub timestamp: u64,
    /// Position in the author's log, starting at 0.
    pub seq_num: u64,
    /// Content hash of the previous header in the same log, absent for
    /// the first entry.
    pub backlink: Option<Vec<u8>>,
    /// Reserved multi-author causal links, always empty in this system.
    pub previous: Vec<Vec<u8>>,
    /// Application extensions required by the wire format.
    pub extensions: Option<ButtExtensions>,
}

/// Mathematical model of a header.
pub ghost struct HeaderView {
    pub version: u64,
    pub public_key: Seq<u8>,
    pub signature: Option<Seq<u8>>,
    pub payload_size: u64,
    pub payload_hash: Option<Seq<u8>>,
    pub timestamp: u64,
    pub seq_num: u64,
    pub backlink: Option<Seq<u8>>,
    pub previous: Seq<Seq<u8>>,
    pub extensions: Option<ButtExtensions>,
}

pub open spec fn view_opt_seq(o: Option<Vec<u8>>) -> Option<Seq<u8>> {
    match o {
        Option::None => Option::None,
        Option::Some(v) => Option::Some(v@),
    }
}

impl View for LogHeader {
    type V = HeaderView;

    open spec fn view(&self) -> HeaderView {
        HeaderView {
            version: self.version,
            public_key: self.public_key@,
            signature: view_opt_seq(self.signature),
            payload_size: self.payload_size,
            payload_hash: view_opt_seq(self.payload_hash),
            timestamp: self.timestamp,
            seq_num: self.seq_num,
            backlink: view_opt_seq(self.backlink),
            previous: self.previous@.map_values(|p: Vec<u8>| p@),
            extensions: self.extensions,
        }
    }
}

// ---------------------------------------------------------------------
// Names for what the operation format library computes
// ---------------------------------------------------------------------
/// The BLAKE3 hash (32 bytes) of a byte string.
pub uninterp spec fn blake3_of(bytes: Seq<u8>) -> Seq<u8>;

/// The canonical byte encoding of a header.
pub uninterp spec fn header_bytes(h: HeaderView) -> Seq<u8>;

/// The Ed25519 signature of a message under a private key.
pub uninterp spec fn sig_of(key: Seq<u8>, msg: Seq<u8>) -> Seq<u8>;

/// The public key derived from a 32-byte private key.
pub uninterp spec fn pub_of(key: Seq<u8>) -> Seq<u8>;

/// Whether a signature verifies under a public key and message.
pub uninterp spec fn verify_ok(pk: Seq<u8>, msg: Seq<u8>, sig: Seq<u8>) -> bool;

/// Whether 32 bytes decode as a valid Ed25519 public key.
pub uninterp spec fn key_ok(k: Seq<u8>) -> bool;

/// The global identifier of an operation: the hash of its header's
/// canonical encoding.
pub open spec fn header_id(h: HeaderView) -> Seq<u8> {
    blake3_of(header_bytes(h))
}

impl HeaderView {
    /// Shape constraints of the wire format: field lengths, a decodable
    /// author key, and no multi-author links.
    pub open spec fn wf(self) -> bool {
        &&& self.public_key.len() == 32
        &&& key_ok(self.public_key)
        &&& match self.signature {
            Some(s) => s.len() == 64,
            None => true,
        }
        &&& match self.payload_hash {
            Some(h) => h.len() == 32,
            None => true,
        }
        &&& match self.backlink {
            Some(b) => b.len() == 32,
            None => true,
        }
        &&& self.previous.len() == 0
    }

    /// The same header with its signature removed: what gets signed.
    pub open spec fn unsigned(self) -> HeaderView {
        HeaderView { signature: None, ..self }
    }
}

// ---------------------------------------------------------------------
// Trusted wrappers around the operation format library
// ---------------------------------------------------------------------
/// Relies on `p2panda_core::Header::to_bytes`: the canonical CBOR
/// encoding of a header, a function of its fields alone.
#[verifier::external_body]
fn header_to_bytes_raw(h: &LogHeader) -> (r: Vec<u8>)
    requires
        h@.wf(),
    ensures
        r@ == header_bytes(h@),
{
    let hash = |v: &Vec<u8>| p2panda_core::Hash::from_bytes(v[..].try_into().unwrap());
    let ph = WireHeader::<PruneFlag> {
        version: h.version,
        public_key: p2panda_core::PublicKey::from_bytes(h.public_key[..].try_into().unwrap()).unwrap(),
        signature: h.signature.as_ref().map(|s| p2panda_core::Signature::from_bytes(s[..].try_into().unwrap())),
        payload_size: h.payload_size,
        payload_hash: h.payload_hash.as_ref().map(hash),
        timestamp: h.timestamp,
        seq_num: h.seq_num,
        backlink: h.backlink.as_ref().map(hash),
        previous: Vec::new(),
        extensions: h.extensions.as_ref().map(|e| PruneFlag::new(e.prune_flag)),
    };
    ph.to_bytes()
}

/// Relies on `p2panda_core::Hash::new`: the BLAKE3 hash of the input,
/// 32 bytes, a function of the input alone.
#[verifier::external_body]
pub(crate) fn hash_bytes(b: &Vec<u8>) -> (r: Vec<u8>)
    ensures
        r@ == blake3_of(b@),
        r@.len() == 32,
{
    p2panda_core::Hash::new(b).as_bytes().to_vec()
}

/// Relies on `p2panda_core::PrivateKey::sign` (Ed25519, deterministic):
/// the 64-byte signature of the message under the key; its documentation
/// shows that the derived public key verifies it.
#[verifier::external_body]
fn sign_bytes(key: &Vec<u8>, msg: &Vec<u8>) -> (r: Vec<u8>)
    requires
        key@.len() == 32,
    ensures
        r@ == sig_of(key@, msg@),
        r@.len() == 64,
        verify_ok(pub_of(key@), msg@, r@),
{
    let private_key = p2panda_core::PrivateKey::from_bytes(key[..].try_into().unwrap());
    private_key.sign(msg).to_bytes().to_vec()
}

/// Relies on `p2panda_core::PublicKey::verify` (Ed25519 strict
/// verification): a function of key, message and signature alone.
#[verifier::external_body]
fn verify_bytes(pk: &Vec<u8>, msg: &Vec<u8>, sig: &Vec<u8>) -> (r: bool)
    requires
        pk@.len() == 32,
        key_ok(pk@),
        sig@.len() == 64,
    ensures
        r == verify_ok(pk@, msg@, sig@),
{
    let public_key = p2panda_core::PublicKey::from_bytes(pk[..].try_into().unwrap()).unwrap();
    let signature = p2panda_core::identity::Signature::from_bytes(sig[..].try_into().unwrap());
    public_key.verify(msg, &signature)
}

/// Relies on `p2panda_core::PrivateKey::public_key`: the derived public
/// key, 32 bytes, itself a decodable Ed25519 key.
#[verifier::external_body]
pub(crate) fn public_key_of(key: &Vec<u8>) -> (r: Vec<u8>)
    requires
        key@.len() == 32,
    ensures
        r@ == pub_of(key@),
        r@.len() == 32,
        key_ok(r@),
{
    let private_key = p2panda_core::PrivateKey::from_bytes(key[..].try_into().unwrap());
    private_key.public_key().as_bytes().to_vec()
}

/// Relies on `p2panda_core::PublicKey::from_bytes`: whether the bytes
/// decode as a valid Ed25519 public key.
#[verifier::external_body]
pub(crate) fn valid_public_key(k: &Vec<u8>) -> (r: bool)
    ensures
        r == (k@.len() == 32 && key_ok(k@)),
{
    match <&[u8; 32]>::try_from(&k[..]) {
        Ok(bytes) => p2panda_core::PublicKey::from_bytes(bytes).is_ok(),
        Err(_) => false,
    }
}

/// Relies on `std::time::SystemTime::now`: the wall clock, read as whole
/// seconds since the Unix epoch; nothing is promised of its value.
#[verifier::external_body]
pub(crate) fn now_seconds() -> u64 {
    std::time::SystemTime::now().duration_since(std::time::SystemTime::UNIX_EPOCH).map(
        |d| d.as_secs(),
    ).unwrap_or(0)
}

// ---------------------------------------------------------------------
// Verified operations over headers
// ---------------------------------------------------------------------
impl LogHeader {
    /// Whether this header satisfies the wire format's shape constraints.
    pub fn check_wf(&self) -> (r: bool)
        ensures
            r == self@.wf(),
    {
        let sig_ok = match &self.signature {
            Some(s) => s.len() == 64,
            None => true,
        };
        let ph_ok = match &self.payload_hash {
            Some(h) => h.len() == 32,
            None => true,
        };
        let bl_ok = match &self.backlink {
            Some(b) => b.len() == 32,
            None => true,
        };
        let prev_ok = self.previous.len() == 0;
        proof {
            assert(self@.previous.len() == self.previous@.len());
        }
        sig_ok && ph_ok && bl_ok && prev_ok && valid_public_key(&self.public_key)
    }

    /// The canonical byte encoding of this header.
    pub(crate) fn to_bytes(&self) -> (r: Vec<u8>)
        requires
            self@.wf(),
        ensures
            r@ == header_bytes(self@),
    {
        header_to_bytes_raw(self)
    }

    /// The operation identifier: hash of the canonical encoding.
    pub(crate) fn hash(&self) -> (r: Vec<u8>)
        requires
            self@.wf(),
        ensures
            r@ == header_id(self@),
            r@.len() == 32,
    {
        let bytes = header_to_bytes_raw(self);
        hash_bytes(&bytes)
    }

    /// A field-by-field copy.
    pub fn duplicate(&self) -> (r: LogHeader)
        ensures
            r@ == self@,
    {
        let r = LogHeader {
            version: self.version,
            public_key: self.public_key.clone(),
            signature: match &self.signature {
                Some(s) => Some(s.clone()),
                None => None,
            },
            payload_size: self.payload_size,
            payload_hash: match &self.payload_hash {
                Some(h) => Some(h.clone()),
                None => None,
            },
            timestamp: self.timestamp,
            seq_num: self.seq_num,
            backlink: match &self.backlink {
                Some(b) => Some(b.clone()),
                None => None,
            },
            previous: clone_byte_vecs(&self.previous),
            extensions: self.extensions,
        };
        proof {
            assert(r@.previous =~= self@.previous);
            assert(r@ == self@);
        }
        r
    }

    /// The same header with the signature removed.
    pub(crate) fn to_unsigned(&self) -> (r: LogHeader)
        ensures
            r@ == self@.unsigned(),
    {
        let mut r = self.duplicate();
        r.signature = None;
        r
    }

    /// Signs the canonical unsigned encoding with the given private key
    /// and writes the signature back.
    pub(crate) fn sign(&mut self, private_key: &Vec<u8>)
        requires
            private_key@.len() == 32,
            old(self)@.wf(),
        ensures
            final(self)@ == (HeaderView {
                signature: Some(sig_of(private_key@, header_bytes(old(self)@.unsigned()))),
                ..old(self)@
            }),
            verify_ok(
                pub_of(private_key@),
                header_bytes(old(self)@.unsigned()),
                sig_of(private_key@, header_bytes(old(self)@.unsigned())),
            ),
            sig_of(private_key@, header_bytes(old(self)@.unsigned())).len() == 64,
    {
        let unsigned = self.to_unsigned();
        proof {
            assert(unsigned@.wf());
        }
        let bytes = unsigned.to_bytes();
        let sig = sign_bytes(private_key, &bytes);
        self.signature = Some(sig);
    }

    /// Verifies the signature against the author key and the canonical
    /// unsigned encoding; a malformed or unsigned header never verifies.
    pub fn verify(&self) -> (r: bool)
        ensures
            r == (self@.wf() && match self@.signature {
                Some(sig) => verify_ok(self@.public_key, header_bytes(self@.unsigned()), sig),
                None => false,
            }),
    {
        if !self.check_wf() {
            return false;
        }
        match &self.signature {
            None => false,
            Some(_) => {
                let unsigned = self.to_unsigned();
                proof {
                    assert(unsigned@.wf());
                }
                let bytes = unsigned.to_bytes();
                let sig = match self.duplicate().signature {
                    Some(s) => s,
                    None => {
                        return false;
                    },
                };
                verify_bytes(&self.public_key, &bytes, &sig)
            },
        }
    }
}

/// A field-by-field copy of a list of byte vectors.
fn clone_byte_vecs(v: &Vec<Vec<u8>>) -> (r: Vec<Vec<u8>>)
    ensures
        r@.map_values(|p: Vec<u8>| p@) == v@.map_values(|p: Vec<u8>| p@),
        r@.len() == v@.len(),
{
    let mut r: Vec<Vec<u8>> = Vec::new();
    let mut i: usize = 0;
    while i < v.len()
        invariant
            i <= v.len(),
            r@.len() == i,
            forall|j: int| 0 <= j < i ==> r@[j]@ == v@[j]@,
        decreases v.len() - i,
    {
        let c = v[i].clone();
        proof {
            assert(c@ =~= v@[i as int]@);
        }
        r.push(c);
        i += 1;
    }
    proof {
        assert(r@.map_values(|p: Vec<u8>| p@) =~= v@.map_values(|p: Vec<u8>| p@));
    }
    r
}

} // verus!
