//! The operation store: an order-verified, content-addressed model of the
//! persisted log entries.
//!
//! Entries are keyed by the header's content hash; inserting a pair whose
//! hash is already present is a no-op, and a pair is only admitted when it
//! properly extends its author's log, which is what the replication
//! layer's decode-and-ingest stage guarantees before operations reach
//! this store.
use vstd::prelude::*;

use crate::bytesutil::bytes_eq;
use crate::header::{blake3_of, hash_bytes, header_id, HeaderView, LogHeader};

verus! {

/// Mathematical model of one stored operation.
pub ghost struct OpView {
    pub header: HeaderView,
    pub body: Seq<u8>,
    pub op_id: Seq<u8>,
}

/// How many stored operations belong to the given author.
pub open spec fn count_author(s: Seq<OpView>, a: Seq<u8>) -> nat
    decreases s.len(),
{
    if s.len() == 0 {
        0
    } else {
        count_author(s.drop_last(), a) + if s.last().header.public_key == a {
            1nat
        } else {
            0nat
        }
    }
}

/// The most recently stored operation of the given author.
pub open spec fn last_author_entry(s: Seq<OpView>, a: Seq<u8>) -> Option<OpView>
    decreases s.len(),
{
    if s.len() == 0 {
        None
    } else if s.last().header.public_key == a {
        Some(s.last())
    } else {
        last_author_entry(s.drop_last(), a)
    }
}

/// The subsequence of stored operations of the given author, in order.
pub open spec fn author_seq(s: Seq<OpView>, a: Seq<u8>) -> Seq<OpView>
    decreases s.len(),
{
    if s.len() == 0 {
        Seq::empty()
    } else if s.last().header.public_key == a {
        author_seq(s.drop_last(), a).push(s.last())
    } else {
        author_seq(s.drop_last(), a)
    }
}

/// Whether some stored operation has the given identifier.
pub open spec fn contains_id(s: Seq<OpView>, id: Seq<u8>) -> bool {
    exists|i: int| 0 <= i < s.len() && s[i].op_id == id
}

/// A storable pair: well-formed header whose payload fields match the
/// body it arrives with.
pub open spec fn shape_ok(h: HeaderView, b: Seq<u8>) -> bool {
    &&& h.wf()
    &&& h.payload_size == b.len()
    &&& h.payload_hash == Some(blake3_of(b))
}

/// One stored entry is internally consistent.
pub open spec fn entry_ok(e: OpView) -> bool {
    &&& shape_ok(e.header, e.body)
    &&& e.op_id == header_id(e.header)
    &&& e.op_id.len() == 32
}

/// Entry `i` extends its author's log: its sequence number counts the
/// author's earlier entries and its backlink names the latest of them.
pub open spec fn chain_ok(s: Seq<OpView>, i: int) -> bool {
    &&& s[i].header.seq_num == count_author(s.take(i), s[i].header.public_key)
    &&& match last_author_entry(s.take(i), s[i].header.public_key) {
        None => s[i].header.backlink is None,
        Some(prev) => s[i].header.backlink == Some(prev.op_id),
    }
}

/// Every entry is consistent and extends its author's log.
pub open spec fn store_wf(s: Seq<OpView>) -> bool {
    &&& s.len() < 0xffff_ffff_ffff_ffff
    &&& forall|i: int| 0 <= i < s.len() ==> entry_ok(#[trigger] s[i]) && chain_ok(s, i)
}

/// Whether the pair would properly extend the store's log of its author.
pub open spec fn extends_ok(s: Seq<OpView>, h: HeaderView, b: Seq<u8>) -> bool {
    &&& s.len() + 1 < 0xffff_ffff_ffff_ffff
    &&& h.seq_num == count_author(s, h.public_key)
    &&& match last_author_entry(s, h.public_key) {
        None => h.backlink is None,
        Some(prev) => h.backlink == Some(prev.op_id),
    }
}

/// What inserting a pair does to the store's contents: nothing for a
/// malformed pair, nothing for an already-present hash, an append for a
/// proper extension, nothing otherwise.
pub open spec fn store_insert_spec(s: Seq<OpView>, h: HeaderView, b: Seq<u8>) -> Seq<OpView> {
    if shape_ok(h, b) && contains_id(s, header_id(h)) {
        s
    } else if shape_ok(h, b) && extends_ok(s, h, b) {
        s.push(OpView { header: h, body: b, op_id: header_id(h) })
    } else {
        s
    }
}

/// Whether an inserted pair ends up stored (already present or appended).
pub open spec fn store_insert_accepts(s: Seq<OpView>, h: HeaderView, b: Seq<u8>) -> bool {
    shape_ok(h, b) && (contains_id(s, header_id(h)) || extends_ok(s, h, b))
}

struct OpEntry {
    header: LogHeader,
    body: Vec<u8>,
    op_id: Vec<u8>,
}

/// The store of persisted operations, shared by every ingestion path.
pub struct OperationStore {
    entries: Vec<OpEntry>,
}

impl View for OperationStore {
    type V = Seq<OpView>;

    closed spec fn view(&self) -> Seq<OpView> {
        self.entries@.map_values(
            |e: OpEntry| OpView { header: e.header@, body: e.body@, op_id: e.op_id@ },
        )
    }
}

impl OperationStore {
    #[verifier::type_invariant]
    spec fn inv(self) -> bool {
        store_wf(self@)
    }

    /// An empty store.
    pub fn new() -> (r: OperationStore)
        ensures
            r@ == Seq::<OpView>::empty(),
    {
        let r = OperationStore { entries: Vec::new() };
        proof {
            assert(r@ =~= Seq::<OpView>::empty());
        }
        r
    }

    /// Number of stored operations; also exposes that the contents are
    /// well formed, which every method maintains.
    pub fn len(&self) -> (r: usize)
        ensures
            r == self@.len(),
            store_wf(self@),
    {
        proof {
            use_type_invariant(self);
        }
        self.entries.len()
    }

    /// Inserts a `(header, body)` pair, keyed by the header's content
    /// hash. A pair whose hash is already stored is a no-op; a malformed
    /// pair or one that does not extend its author's log is refused.
    /// Returns whether the operation is in the store afterwards.
    pub fn insert(&mut self, header: &LogHeader, body: &Vec<u8>) -> (r: bool)
        ensures
            final(self)@ == store_insert_spec(old(self)@, header@, body@),
            r == store_insert_accepts(old(self)@, header@, body@),
            store_wf(old(self)@),
            store_wf(final(self)@),
    {
        proof {
            use_type_invariant(&*self);
        }
        let ghost s = self@;
        // Shape checks: header well-formedness and payload consistency.
        if !header.check_wf() {
            return false;
        }
        if header.payload_size != body.len() as u64 {
            return false;
        }
        let body_hash = hash_bytes(body);
        let ph_ok = match &header.payload_hash {
            Some(ph) => bytes_eq(ph, &body_hash),
            None => false,
        };
        if !ph_ok {
            return false;
        }
        assert(shape_ok(header@, body@));
        // Duplicate detection by content hash.
        let id = header.hash();
        let mut i: usize = 0;
        while i < self.entries.len()
            invariant
                i <= self.entries@.len(),
                s == self@,
                store_wf(s),
                shape_ok(header@, body@),
                id@ == header_id(header@),
                forall|j: int| 0 <= j < i ==> s[j].op_id != id@,
            decreases self.entries@.len() - i,
        {
            if bytes_eq(&self.entries[i].op_id, &id) {
                assert(s[i as int].op_id == id@);
                return true;
            }
            i += 1;
        }
        assert(!contains_id(s, header_id(header@)));
        // Chain check: the pair must extend its author's log.
        if self.entries.len() as u64 >= 0xffff_ffff_ffff_fffeu64 {
            assert(!extends_ok(s, header@, body@));
            return false;
        }
        let (count, found) = self.scan_author(&header.public_key);
        proof {
            lemma_count_le_len(s, header@.public_key);
        }
        if header.seq_num != count {
            assert(!extends_ok(s, header@, body@));
            return false;
        }
        let bl_ok = match (&header.backlink, found) {
            (Option::None, Option::None) => true,
            (Option::Some(b), Option::Some(j)) => bytes_eq(b, &self.entries[j].op_id),
            _ => false,
        };
        if !bl_ok {
            assert(!extends_ok(s, header@, body@));
            return false;
        }
        assert(extends_ok(s, header@, body@));
        let entry = OpEntry { header: header.duplicate(), body: body.clone(), op_id: id };
        proof {
            let e = OpView { header: header@, body: body@, op_id: header_id(header@) };
            assert(entry.body@ =~= body@);
            assert(self@.push(e) =~= self.entries@.push(entry).map_values(
                |x: OpEntry| OpView { header: x.header@, body: x.body@, op_id: x.op_id@ },
            ));
            lemma_store_wf_push(s, e);
        }
        let mut entries: Vec<OpEntry> = Vec::new();
        core::mem::swap(&mut entries, &mut self.entries);
        entries.push(entry);
        core::mem::swap(&mut entries, &mut self.entries);
        true
    }

    /// Counts the author's entries and finds the index of the latest one.
    fn scan_author(&self, public_key: &Vec<u8>) -> (r: (u64, Option<usize>))
        ensures
            r.0 == count_author(self@, public_key@),
            match r.1 {
                Some(j) => 0 <= j < self@.len() && last_author_entry(self@, public_key@) == Some(
                    self@[j as int],
                ),
                None => last_author_entry(self@, public_key@) is None,
            },
    {
        proof {
            use_type_invariant(self);
        }
        let ghost s = self@;
        let mut count: u64 = 0;
        let mut found: Option<usize> = None;
        let mut i: usize = 0;
        while i < self.entries.len()
            invariant
                i <= s.len(),
                s == self@,
                s.len() < 0xffff_ffff_ffff_ffff,
                count == count_author(s.take(i as int), public_key@),
                count <= i,
                match found {
                    Some(j) => 0 <= j < i && last_author_entry(s.take(i as int), public_key@)
                        == Some(s[j as int]),
                    None => last_author_entry(s.take(i as int), public_key@) is None,
                },
            decreases s.len() - i,
        {
            proof {
                assert(s.take(i + 1).drop_last() =~= s.take(i as int));
                assert(s.take(i + 1).last() == s[i as int]);
            }
            if bytes_eq(&self.entries[i].header.public_key, public_key) {
                assert(s[i as int].header.public_key == public_key@);
                count = count + 1;
                found = Some(i);
            } else {
                assert(s[i as int].header.public_key != public_key@);
            }
            i += 1;
        }
        proof {
            assert(s.take(s.len() as int) =~= s);
        }
        (count, found)
    }

    /// The latest operation of the given author: its header and its
    /// operation identifier, or `None` for an author with no entries.
    pub fn latest_operation(&self, public_key: &Vec<u8>) -> (r: Option<(LogHeader, Vec<u8>)>)
        ensures
            store_wf(self@),
            count_author(self@, public_key@) <= self@.len(),
            match r {
                Some(p) => {
                    &&& last_author_entry(self@, public_key@) matches Some(e) && e.header == p.0@
                        && e.op_id == p.1@
                    &&& p.0@.seq_num + 1 == count_author(self@, public_key@)
                    &&& p.1@.len() == 32
                },
                None => count_author(self@, public_key@) == 0 && last_author_entry(
                    self@,
                    public_key@,
                ) is None,
            },
    {
        proof {
            use_type_invariant(self);
            lemma_count_le_len(self@, public_key@);
        }
        let (_count, found) = self.scan_author(public_key);
        match found {
            None => {
                proof {
                    lemma_last_entry_count(self@, public_key@);
                }
                None
            },
            Some(j) => {
                proof {
                    lemma_last_entry_count(self@, public_key@);
                    lemma_chain_rec(self@, public_key@);
                    let log = author_seq(self@, public_key@);
                    assert(log.last() == log[log.len() - 1]);
                }
                let header = self.entries[j].header.duplicate();
                let op_id = self.entries[j].op_id.clone();
                proof {
                    assert(op_id@ =~= self@[j as int].op_id);
                }
                Some((header, op_id))
            },
        }
    }

}

/// The log chain law: in any well-formed store contents, one author's
/// log carries sequence numbers exactly `0..N-1` in order of insertion,
/// entry `k`'s backlink is the identifier of entry `k-1`, and entry `0`
/// has none. Every `OperationStore` value has well-formed contents.
pub proof fn lemma_log_chain(s: Seq<OpView>, a: Seq<u8>)
    ensures
        store_wf(s) ==> ({
            let log = author_seq(s, a);
            &&& log.len() == count_author(s, a)
            &&& forall|k: int| 0 <= k < log.len() ==> #[trigger] log[k].header.seq_num == k
            &&& forall|k: int|
                1 <= k < log.len() ==> #[trigger] log[k].header.backlink == Some(log[k - 1].op_id)
            &&& log.len() > 0 ==> log[0].header.backlink is None
        }),
{
    if store_wf(s) {
        lemma_chain_rec(s, a);
    }
}

/// Counting a subset of entries never exceeds their number.
pub proof fn lemma_count_le_len(s: Seq<OpView>, a: Seq<u8>)
    ensures
        count_author(s, a) <= s.len(),
    decreases s.len(),
{
    if s.len() > 0 {
        lemma_count_le_len(s.drop_last(), a);
    }
}

/// The latest author entry is the last element of the author's
/// subsequence, whose length is the author's count.
proof fn lemma_last_entry_count(s: Seq<OpView>, a: Seq<u8>)
    ensures
        author_seq(s, a).len() == count_author(s, a),
        last_author_entry(s, a) == (if count_author(s, a) == 0 {
            None
        } else {
            Some(author_seq(s, a).last())
        }),
    decreases s.len(),
{
    if s.len() > 0 {
        lemma_last_entry_count(s.drop_last(), a);
    }
}

/// A well-formed store stays well formed when a pair that extends it is
/// appended.
proof fn lemma_store_wf_push(s: Seq<OpView>, e: OpView)
    requires
        store_wf(s),
        entry_ok(e),
        extends_ok(s, e.header, e.body),
    ensures
        store_wf(s.push(e)),
{
    let s2 = s.push(e);
    assert(s2.take(s.len() as int) =~= s);
    assert forall|i: int| 0 <= i < s2.len() implies entry_ok(#[trigger] s2[i]) && chain_ok(
        s2,
        i,
    ) by {
        if i < s.len() {
            assert(s2.take(i) =~= s.take(i));
            assert(s2[i] == s[i]);
            assert(entry_ok(s[i]) && chain_ok(s, i));
        } else {
            assert(s2[i] == e);
        }
    }
}

/// The chain law over any well-formed store contents.
proof fn lemma_chain_rec(s: Seq<OpView>, a: Seq<u8>)
    requires
        store_wf(s),
    ensures
        ({
            let log = author_seq(s, a);
            &&& log.len() == count_author(s, a)
            &&& forall|k: int| 0 <= k < log.len() ==> #[trigger] log[k].header.seq_num == k
            &&& forall|k: int|
                1 <= k < log.len() ==> #[trigger] log[k].header.backlink == Some(log[k - 1].op_id)
            &&& log.len() > 0 ==> log[0].header.backlink is None
        }),
    decreases s.len(),
{
    if s.len() > 0 {
        let prefix = s.drop_last();
        assert(store_wf(prefix)) by {
            assert(forall|i: int|
                0 <= i < prefix.len() ==> #[trigger] prefix[i] == s[i] && prefix.take(i) == s.take(
                    i,
                ));
            assert forall|i: int| 0 <= i < prefix.len() implies entry_ok(#[trigger] prefix[i])
                && chain_ok(prefix, i) by {
                assert(entry_ok(s[i]) && chain_ok(s, i));
                assert(prefix.take(i) =~= s.take(i));
            }
        }
        lemma_chain_rec(prefix, a);
        lemma_last_entry_count(prefix, a);
        let log = author_seq(s, a);
        let log0 = author_seq(prefix, a);
        if s.last().header.public_key == a {
            let i = s.len() - 1;
            assert(entry_ok(s[i]) && chain_ok(s, i));
            assert(s.take(i) =~= prefix);
            assert(log == log0.push(s.last()));
            assert(log.len() == count_author(s, a));
            assert forall|k: int| 0 <= k < log.len() implies #[trigger] log[k].header.seq_num
                == k by {
                if k < log0.len() {
                    assert(log[k] == log0[k]);
                } else {
                    assert(log[k] == s.last());
                }
            }
            assert forall|k: int| 1 <= k < log.len() implies #[trigger] log[k].header.backlink
                == Some(log[k - 1].op_id) by {
                if k < log0.len() {
                    assert(log[k] == log0[k] && log[k - 1] == log0[k - 1]);
                } else {
                    assert(log[k] == s.last());
                    assert(log0.len() > 0 && log[k - 1] == log0.last());
                }
            }
            if log.len() > 0 && log0.len() == 0 {
                assert(log[0] == s.last());
            } else if log.len() > 0 {
                assert(log[0] == log0[0]);
            }
        } else {
            assert(log == log0);
        }
    }
}

} // verus!
