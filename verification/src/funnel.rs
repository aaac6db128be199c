//! The ingestion funnel's bounded queue: the single ordered channel that
//! merges locally created, gossip-received and sync-received operations
//! in front of the one materializer consumer.
//!
//! When the queue is full an enqueue reports failure and leaves the queue
//! unchanged; an asynchronous producer suspends on that outcome until the
//! consumer has drained an entry.
use vstd::prelude::*;

use crate::header::{HeaderView, LogHeader};

verus! {

/// Capacity of the ingestion funnel used by the node.
pub const FUNNEL_CAPACITY: usize = 10000;

/// Mathematical model of the funnel.
pub ghost struct FunnelView {
    pub items: Seq<(HeaderView, Seq<u8>)>,
    pub capacity: usize,
}

/// The bounded multi-producer queue in front of the materializer.
pub struct Funnel {
    queue: Vec<(LogHeader, Vec<u8>)>,
    capacity: usize,
}

impl View for Funnel {
    type V = FunnelView;

    closed spec fn view(&self) -> FunnelView {
        FunnelView {
            items: self.queue@.map_values(|p: (LogHeader, Vec<u8>)| (p.0@, p.1@)),
            capacity: self.capacity,
        }
    }
}

impl Funnel {
    #[verifier::type_invariant]
    spec fn inv(self) -> bool {
        self@.items.len() <= self@.capacity
    }

    /// An empty funnel with the given capacity.
    pub fn new(capacity: usize) -> (r: Funnel)
        ensures
            r@.items == Seq::<(HeaderView, Seq<u8>)>::empty(),
            r@.capacity == capacity,
    {
        let r = Funnel { queue: Vec::new(), capacity };
        proof {
            assert(r@.items =~= Seq::<(HeaderView, Seq<u8>)>::empty());
        }
        r
    }

    /// Number of queued operations.
    pub fn len(&self) -> (r: usize)
        ensures
            r == self@.items.len(),
            self@.items.len() <= self@.capacity,
    {
        proof {
            use_type_invariant(self);
        }
        self.queue.len()
    }

    /// Offers one operation to the queue. With space available it is
    /// appended and `true` is returned; on a full queue nothing changes
    /// and `false` is returned, on which a producer suspends.
    pub fn enqueue(&mut self, header: LogHeader, body: Vec<u8>) -> (r: bool)
        ensures
            final(self)@.capacity == old(self)@.capacity,
            r == (old(self)@.items.len() < old(self)@.capacity),
            r ==> final(self)@.items == old(self)@.items.push((header@, body@)),
            !r ==> final(self)@.items == old(self)@.items,
    {
        proof {
            use_type_invariant(&*self);
        }
        if self.queue.len() < self.capacity {
            let ghost items = self@.items;
            let mut queue: Vec<(LogHeader, Vec<u8>)> = Vec::new();
            core::mem::swap(&mut queue, &mut self.queue);
            queue.push((header, body));
            core::mem::swap(&mut queue, &mut self.queue);
            proof {
                assert(self@.items =~= items.push((header@, body@)));
            }
            true
        } else {
            false
        }
    }

    /// Takes the oldest queued operation, if any.
    pub fn dequeue(&mut self) -> (r: Option<(LogHeader, Vec<u8>)>)
        ensures
            final(self)@.capacity == old(self)@.capacity,
            match r {
                Some(p) => old(self)@.items.len() > 0 && (p.0@, p.1@) == old(self)@.items[0]
                    && final(self)@.items == old(self)@.items.drop_first(),
                None => old(self)@.items.len() == 0 && final(self)@.items == old(self)@.items,
            },
    {
        proof {
            use_type_invariant(&*self);
        }
        if self.queue.len() == 0 {
            return None;
        }
        let ghost items = self@.items;
        let mut queue: Vec<(LogHeader, Vec<u8>)> = Vec::new();
        core::mem::swap(&mut queue, &mut self.queue);
        let p = queue.remove(0);
        core::mem::swap(&mut queue, &mut self.queue);
        proof {
            assert(self@.items =~= items.drop_first());
            assert((p.0@, p.1@) == items[0]);
        }
        Some(p)
    }
}

} // verus!
