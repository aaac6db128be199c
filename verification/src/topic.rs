//! The topic-to-log directory: answers which author logs exist locally
//! for a replication topic, derived from the materialized projection.
use vstd::prelude::*;

use crate::backend::{has_author, keys_contain, AppData, AppDataView, ButtLogId};
use crate::header::{blake3_of, hash_bytes};
use crate::store::{OperationStore, OpView};

verus! {

/// The replication query this node answers. Its parameters are ignored:
/// there is a single global scope.
#[derive(Clone, Copy, Debug, PartialEq, Eq, Structural, Hash)]
pub struct ButtQuery {
    pub hops: u8,
}

/// The bytes of the fixed gossip topic name.
pub open spec fn gossip_topic_bytes() -> Seq<u8> {
    seq![
        0x67u8,
        0x6fu8,
        0x73u8,
        0x73u8,
        0x69u8,
        0x70u8,
        0x2du8,
        0x74u8,
        0x6fu8,
        0x70u8,
        0x69u8,
        0x63u8,
    ]
}

impl ButtQuery {
    /// The fixed 32-byte topic identifier every query maps to.
    pub fn id(&self) -> (r: Vec<u8>)
        ensures
            r@ == blake3_of(gossip_topic_bytes()),
            r@.len() == 32,
    {
        let mut name: Vec<u8> = Vec::new();
        name.push(0x67);
        name.push(0x6f);
        name.push(0x73);
        name.push(0x73);
        name.push(0x69);
        name.push(0x70);
        name.push(0x2d);
        name.push(0x74);
        name.push(0x6f);
        name.push(0x70);
        name.push(0x69);
        name.push(0x63);
        proof {
            assert(name@ =~= gossip_topic_bytes());
        }
        hash_bytes(&name)
    }
}

/// Mathematical model of the directory.
pub ghost struct ButtLogMapView {
    pub store: Seq<OpView>,
    pub app_data: AppDataView,
}

/// The directory over a snapshot of the node's state.
pub struct ButtLogMap {
    store: OperationStore,
    app_data: AppData,
}

impl View for ButtLogMap {
    type V = ButtLogMapView;

    closed spec fn view(&self) -> ButtLogMapView {
        ButtLogMapView { store: self.store@, app_data: self.app_data@ }
    }
}

/// The authors named by a directory answer.
pub open spec fn map_keys(m: Seq<(Vec<u8>, Vec<ButtLogId>)>) -> Seq<Vec<u8>> {
    m.map_values(|p: (Vec<u8>, Vec<ButtLogId>)| p.0)
}

impl ButtLogMap {
    /// A directory over the given state.
    pub fn new(s: OperationStore, app_data: AppData) -> (r: ButtLogMap)
        ensures
            r@.store == s@,
            r@.app_data == app_data@,
    {
        ButtLogMap { store: s, app_data }
    }

    /// The known author logs for a topic: exactly the distinct authors
    /// with at least one materialized post, each mapped to the one log
    /// identified by its own public key. An empty projection gives an
    /// empty answer, not a failure.
    pub fn get(&self, topic: &ButtQuery) -> (r: Option<Vec<(Vec<u8>, Vec<ButtLogId>)>>)
        ensures
            r matches Some(m) ==> {
                &&& forall|i: int|
                    0 <= i < m@.len() ==> (#[trigger] m@[i].1)@.len() == 1 && m@[i].1@[0].0@
                        == m@[i].0@
                &&& forall|i: int|
                    0 <= i < m@.len() ==> has_author(
                        self@.app_data.posts,
                        (#[trigger] m@[i].0)@,
                    )
                &&& forall|j: int|
                    0 <= j < self@.app_data.posts.len() ==> keys_contain(
                        map_keys(m@),
                        (#[trigger] self@.app_data.posts[j]).public_key,
                    )
                &&& forall|i1: int, i2: int| 0 <= i1 < i2 < m@.len() ==> m@[i1].0@ != m@[i2].0@
            },
            r is Some,
    {
        let keys = self.app_data.get_all_keys();
        let mut m: Vec<(Vec<u8>, Vec<ButtLogId>)> = Vec::new();
        let mut i: usize = 0;
        while i < keys.len()
            invariant
                i <= keys@.len(),
                m@.len() == i,
                forall|k: int|
                    0 <= k < i ==> (#[trigger] m@[k].0)@ == keys@[k]@ && m@[k].1@.len() == 1
                        && m@[k].1@[0].0@ == keys@[k]@,
            decreases keys@.len() - i,
        {
            let key = keys[i].clone();
            proof {
                assert(key@ =~= keys@[i as int]@);
            }
            let mut logs: Vec<ButtLogId> = Vec::new();
            logs.push(ButtLogId(key.clone()));
            m.push((key, logs));
            i += 1;
        }
        proof {
            assert forall|k: int| 0 <= k < m@.len() implies (#[trigger] m@[k].1)@.len() == 1
                && m@[k].1@[0].0@ == m@[k].0@ by {
                assert(m@[k].0@ == keys@[k]@);
            }
            assert forall|k: int| 0 <= k < m@.len() implies has_author(
                self@.app_data.posts,
                (#[trigger] m@[k].0)@,
            ) by {
                assert(m@[k].0@ == keys@[k]@);
                assert(has_author(self@.app_data.posts, keys@[k]@));
            }
            assert forall|i1: int, i2: int| 0 <= i1 < i2 < m@.len() implies m@[i1].0@
                != m@[i2].0@ by {
                assert(m@[i1].0@ == keys@[i1]@ && m@[i2].0@ == keys@[i2]@);
            }
            assert forall|j: int| 0 <= j < self@.app_data.posts.len() implies keys_contain(
                map_keys(m@),
                (#[trigger] self@.app_data.posts[j]).public_key,
            ) by {
                let pk = self@.app_data.posts[j].public_key;
                assert(keys_contain(keys@, pk));
                let k = choose|k: int| 0 <= k < keys@.len() && keys@[k]@ == pk;
                assert(map_keys(m@)[k]@ == pk);
            }
        }
        Some(m)
    }
}

} // verus!
