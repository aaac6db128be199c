//! Application-level events carried opaquely in operation bodies, and the
//! records they materialize into.
use vstd::prelude::*;

use crate::codec;

verus! {

/// Custom header extensions carried by every operation of this
/// application: a single prune flag demanded by the wire format, unused by
/// the application logic itself.
#[derive(Clone, Copy, Debug, PartialEq, Eq, Structural)]
pub struct ButtExtensions {
    pub prune_flag: bool,
}

impl Default for ButtExtensions {
    fn default() -> (r: Self)
        ensures
            r.prune_flag == false,
    {
        ButtExtensions { prune_flag: false }
    }
}

/// A materialized post record: one row of the feed projection, keyed by the
/// operation identifier (the header's content hash).
#[derive(Clone, Debug)]
pub struct ButtPost {
    /// Content hash of the operation's header, the global operation id.
    pub id: Vec<u8>,
    /// Author of the post.
    pub public_key: Vec<u8>,
    /// Wall-clock creation time in whole seconds.
    pub timestamp: u64,
    /// The post text as bytes.
    pub body: Vec<u8>,
}

/// Mathematical model of a post record.
pub ghost struct PostView {
    pub id: Seq<u8>,
    pub public_key: Seq<u8>,
    pub timestamp: u64,
    pub body: Seq<u8>,
}

impl View for ButtPost {
    type V = PostView;

    open spec fn view(&self) -> PostView {
        PostView {
            id: self.id@,
            public_key: self.public_key@,
            timestamp: self.timestamp,
            body: self.body@,
        }
    }
}

/// The application-level meaning of an operation body: either a freeform
/// text post or a declaration of interest in another identity, given by its
/// 32-byte public key.
#[derive(Clone, Debug)]
pub enum ButtEvent {
    Post(Vec<u8>),
    Follow(Vec<u8>),
}

/// Mathematical model of an event.
pub ghost enum EventView {
    Post(Seq<u8>),
    Follow(Seq<u8>),
}

impl View for ButtEvent {
    type V = EventView;

    open spec fn view(&self) -> EventView {
        match self {
            ButtEvent::Post(t) => EventView::Post(t@),
            ButtEvent::Follow(k) => EventView::Follow(k@),
        }
    }
}

impl ButtEvent {
    /// Encodes the event into its tagged, human-readable body bytes.
    pub fn to_bytes(&self) -> (r: Vec<u8>)
        ensures
            r@ == codec::encode_event(self@),
    {
        codec::event_to_bytes(self)
    }

    /// Decodes body bytes back into an event; returns `None` exactly on
    /// bytes that are not the canonical encoding of a well-formed event
    /// (post text must be valid UTF-8, a followed key 32 bytes).
    pub fn from_bytes(bytes: &Vec<u8>) -> (r: Option<ButtEvent>)
        ensures
            r matches Some(e) ==> bytes@ == codec::encode_event(e@) && codec::event_wf(e@),
            forall|ev: EventView| codec::event_wf(ev) && bytes@ == codec::encode_event(ev)
                ==> (r matches Some(e) && e@ == ev),
            match r {
                Some(e) => codec::decode_event(bytes@) == Some(e@),
                None => codec::decode_event(bytes@) is None,
            },
    {
        codec::event_from_bytes(bytes)
    }
}

} // verus!
