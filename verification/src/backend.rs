//! The node's application state: the projection of materialized events,
//! the identity directory it answers from, and the backend that builds,
//! persists and materializes operations.
use vstd::prelude::*;

use crate::bytesutil::bytes_eq;
use crate::codec;
use crate::codec::decode_event;
use crate::funnel::Funnel;
use crate::header::{
    blake3_of, hash_bytes, header_bytes, header_id, now_seconds, pub_of, public_key_of, sig_of,
    verify_ok, HeaderView, LogHeader,
};
use crate::operation::{ButtEvent, ButtExtensions, ButtPost, EventView, PostView};
use crate::store::{
    count_author, last_author_entry, store_insert_spec, OperationStore, OpView,
};
use vstd::utf8::{encode_utf8, valid_utf8};

verus! {

/// A log is identified by its author's public key.
#[derive(Clone, Debug)]
pub struct ButtLogId(pub Vec<u8>);

/// A post record shaped for the HTTP surface: identifiers as hex strings.
#[derive(Debug)]
pub struct FrontendPost {
    pub id: String,
    pub public_key: String,
    pub timestamp: u64,
    pub body: String,
}

/// Relies on `String::from_utf8`: succeeds exactly on valid UTF-8 and
/// then returns the string holding exactly the input bytes.
#[verifier::external_body]
fn bytes_to_string(b: &Vec<u8>) -> (r: Option<String>)
    ensures
        r is Some <==> valid_utf8(b@),
        r matches Some(s) ==> encode_utf8(s@) == b@,
{
    match String::from_utf8(b.clone()) {
        Ok(s) => Some(s),
        Err(_) => None,
    }
}

/// One author's follow relation: the identities it declared interest in.
struct FollowEntry {
    author: Vec<u8>,
    targets: Vec<Vec<u8>>,
}

/// Mathematical model of one follow relation entry.
pub ghost struct FollowView {
    pub author: Seq<u8>,
    pub targets: Seq<Seq<u8>>,
}

/// Mathematical model of the materialized application state.
pub ghost struct AppDataView {
    pub posts: Seq<PostView>,
    pub follows: Seq<FollowView>,
}

/// The durable application state derived from materialized operations.
pub struct AppData {
    posts: Vec<ButtPost>,
    follows: Vec<FollowEntry>,
}

impl View for AppData {
    type V = AppDataView;

    closed spec fn view(&self) -> AppDataView {
        AppDataView {
            posts: self.posts@.map_values(|p: ButtPost| p@),
            follows: self.follows@.map_values(
                |f: FollowEntry| FollowView {
                    author: f.author@,
                    targets: f.targets@.map_values(|t: Vec<u8>| t@),
                },
            ),
        }
    }
}

// ---------------------------------------------------------------------
// The materializer's mathematical specification
// ---------------------------------------------------------------------
/// Whether a post record with the given identifier exists.
pub open spec fn has_post(p: Seq<PostView>, id: Seq<u8>) -> bool {
    exists|i: int| 0 <= i < p.len() && p[i].id == id
}

/// No two post records share an identifier.
pub open spec fn posts_unique(p: Seq<PostView>) -> bool {
    forall|i: int, j: int| 0 <= i < j < p.len() ==> p[i].id != p[j].id
}

/// How many post records carry the given identifier.
pub open spec fn count_id(p: Seq<PostView>, id: Seq<u8>) -> nat
    decreases p.len(),
{
    if p.len() == 0 {
        0
    } else {
        count_id(p.drop_last(), id) + if p.last().id == id {
            1nat
        } else {
            0nat
        }
    }
}

/// Adds a followed identity to the author's relation entry, if one
/// exists: the update-only policy. An author without an entry is left
/// without one, and a target already present is not repeated.
pub open spec fn add_follow(f: Seq<FollowView>, a: Seq<u8>, t: Seq<u8>) -> Seq<FollowView>
    decreases f.len(),
{
    if f.len() == 0 {
        f
    } else if f.first().author == a {
        if f.first().targets.contains(t) {
            f
        } else {
            seq![
                FollowView { author: f.first().author, targets: f.first().targets.push(t) },
            ] + f.drop_first()
        }
    } else {
        seq![f.first()] + add_follow(f.drop_first(), a, t)
    }
}

/// What materializing one decoded event does to the application state:
/// a post is inserted under its operation identifier unless that
/// identifier is already present; a follow updates the author's existing
/// relation entry only.
pub open spec fn materialize_spec(
    v: AppDataView,
    ev: EventView,
    id: Seq<u8>,
    author: Seq<u8>,
    ts: u64,
) -> AppDataView {
    match ev {
        EventView::Post(text) => {
            if has_post(v.posts, id) {
                v
            } else {
                AppDataView {
                    posts: v.posts.push(
                        PostView { id: id, public_key: author, timestamp: ts, body: text },
                    ),
                    ..v
                }
            }
        },
        EventView::Follow(target) => {
            AppDataView { follows: add_follow(v.follows, author, target), ..v }
        },
    }
}

/// Materialization is idempotent: applying the same decoded operation a
/// second time changes nothing.
pub proof fn lemma_materialize_idempotent(
    v: AppDataView,
    ev: EventView,
    id: Seq<u8>,
    author: Seq<u8>,
    ts: u64,
)
    ensures
        materialize_spec(materialize_spec(v, ev, id, author, ts), ev, id, author, ts)
            == materialize_spec(v, ev, id, author, ts),
{
    let v1 = materialize_spec(v, ev, id, author, ts);
    match ev {
        EventView::Post(text) => {
            if !has_post(v.posts, id) {
                assert(v1.posts[v.posts.len() as int].id == id);
                assert(has_post(v1.posts, id));
            }
        },
        EventView::Follow(target) => {
            lemma_add_follow_idempotent(v.follows, author, target);
            assert(v1 == (AppDataView { follows: add_follow(v.follows, author, target), ..v }));
        },
    }
}

/// Updating a follow relation twice with the same pair is the same as
/// updating it once.
proof fn lemma_add_follow_idempotent(f: Seq<FollowView>, a: Seq<u8>, t: Seq<u8>)
    ensures
        add_follow(add_follow(f, a, t), a, t) == add_follow(f, a, t),
    decreases f.len(),
{
    if f.len() == 0 {
    } else if f.first().author == a {
        if !f.first().targets.contains(t) {
            let e = FollowView { author: f.first().author, targets: f.first().targets.push(t) };
            let f1 = seq![e] + f.drop_first();
            assert(f1.first() == e);
            assert(e.targets[e.targets.len() - 1] == t);
            assert(e.targets.contains(t));
            assert(add_follow(f1, a, t) == f1);
        }
    } else {
        let f1 = seq![f.first()] + add_follow(f.drop_first(), a, t);
        assert(f1.first() == f.first());
        assert(f1.drop_first() =~= add_follow(f.drop_first(), a, t));
        lemma_add_follow_idempotent(f.drop_first(), a, t);
        assert(add_follow(f1, a, t) =~= seq![f.first()] + add_follow(
            add_follow(f.drop_first(), a, t),
            a,
            t,
        ));
    }
}

/// Materializing the same post twice, from any path, leaves exactly one
/// record under its operation identifier.
pub proof fn lemma_post_materialized_once(
    v: AppDataView,
    text: Seq<u8>,
    id: Seq<u8>,
    author: Seq<u8>,
    ts: u64,
)
    ensures
        posts_unique(v.posts) ==> ({
            let once = materialize_spec(v, EventView::Post(text), id, author, ts);
            let twice = materialize_spec(once, EventView::Post(text), id, author, ts);
            &&& twice == once
            &&& count_id(once.posts, id) == 1
        }),
{
    if posts_unique(v.posts) {
        let ev = EventView::Post(text);
        lemma_materialize_idempotent(v, ev, id, author, ts);
        let once = materialize_spec(v, ev, id, author, ts);
        if has_post(v.posts, id) {
            lemma_one_post_per_id(v.posts, id);
        } else {
            let p2 = once.posts;
            assert(p2[v.posts.len() as int].id == id);
            assert(has_post(p2, id));
            assert forall|a: int, b: int| 0 <= a < b < p2.len() implies p2[a].id != p2[b].id by {
                if b < v.posts.len() {
                    assert(posts_unique(v.posts));
                } else {
                    assert(p2[b].id == id);
                    assert(!has_post(v.posts, id));
                }
            }
            lemma_one_post_per_id(p2, id);
        }
    }
}

/// In a projection without duplicate identifiers, at most one record
/// carries any identifier, and exactly one does when one is present.
pub proof fn lemma_one_post_per_id(p: Seq<PostView>, id: Seq<u8>)
    ensures
        posts_unique(p) ==> count_id(p, id) <= 1,
        posts_unique(p) && has_post(p, id) ==> count_id(p, id) == 1,
    decreases p.len(),
{
    if p.len() > 0 {
        let q = p.drop_last();
        assert(posts_unique(p) ==> posts_unique(q));
        lemma_one_post_per_id(q, id);
        if posts_unique(p) {
            if p.last().id == id {
                assert(!has_post(q, id)) by {
                    if has_post(q, id) {
                        let i = choose|i: int| 0 <= i < q.len() && q[i].id == id;
                        assert(p[i].id == p[p.len() - 1].id);
                    }
                }
                lemma_count_zero(q, id);
            } else if has_post(p, id) {
                let i = choose|i: int| 0 <= i < p.len() && p[i].id == id;
                assert(q[i].id == id);
                assert(has_post(q, id));
            }
        }
    }
}

/// An identifier that no record carries is counted zero times.
proof fn lemma_count_zero(p: Seq<PostView>, id: Seq<u8>)
    ensures
        !has_post(p, id) ==> count_id(p, id) == 0,
    decreases p.len(),
{
    if p.len() > 0 {
        lemma_count_zero(p.drop_last(), id);
        if !has_post(p, id) {
            assert(p.last().id != id) by {
                assert(p[p.len() - 1] == p.last());
            }
            assert(!has_post(p.drop_last(), id)) by {
                if has_post(p.drop_last(), id) {
                    let i = choose|i: int|
                        0 <= i < p.drop_last().len() && p.drop_last()[i].id == id;
                    assert(p[i].id == id);
                }
            }
        }
    }
}

/// Where the author's first relation entry sits, updating is exactly a
/// point update of that entry.
proof fn lemma_add_follow_at(f: Seq<FollowView>, a: Seq<u8>, t: Seq<u8>, j: int)
    requires
        0 <= j < f.len(),
        f[j].author == a,
        forall|k: int| 0 <= k < j ==> f[k].author != a,
    ensures
        add_follow(f, a, t) == (if f[j].targets.contains(t) {
            f
        } else {
            f.update(j, FollowView { author: f[j].author, targets: f[j].targets.push(t) })
        }),
    decreases j,
{
    if j == 0 {
        assert(f.first() == f[0]);
        if !f[0].targets.contains(t) {
            let e = FollowView { author: f[0].author, targets: f[0].targets.push(t) };
            assert(seq![e] + f.drop_first() =~= f.update(0, e));
        }
    } else {
        assert(f.first() == f[0] && f[0].author != a);
        let g = f.drop_first();
        assert(g[j - 1] == f[j]);
        assert(forall|k: int| 0 <= k < j - 1 ==> #[trigger] g[k].author == f[k + 1].author);
        lemma_add_follow_at(g, a, t, j - 1);
        if f[j].targets.contains(t) {
            assert(seq![f.first()] + g =~= f);
        } else {
            let e = FollowView { author: f[j].author, targets: f[j].targets.push(t) };
            assert(seq![f.first()] + g.update(j - 1, e) =~= f.update(j, e));
        }
    }
}

/// An author without a relation entry is left without one.
proof fn lemma_add_follow_absent(f: Seq<FollowView>, a: Seq<u8>, t: Seq<u8>)
    requires
        forall|k: int| 0 <= k < f.len() ==> f[k].author != a,
    ensures
        add_follow(f, a, t) == f,
    decreases f.len(),
{
    if f.len() > 0 {
        assert(f.first() == f[0]);
        let g = f.drop_first();
        assert(forall|k: int| 0 <= k < g.len() ==> #[trigger] g[k].author == f[k + 1].author);
        lemma_add_follow_absent(g, a, t);
        assert(seq![f.first()] + g =~= f);
    }
}

impl AppData {
    #[verifier::type_invariant]
    spec fn inv(self) -> bool {
        posts_unique(self@.posts)
    }

    /// Empty application state.
    pub fn new() -> (r: AppData)
        ensures
            r@.posts == Seq::<PostView>::empty(),
            r@.follows == Seq::<FollowView>::empty(),
    {
        let r = AppData { posts: Vec::new(), follows: Vec::new() };
        proof {
            assert(r@.posts =~= Seq::<PostView>::empty());
            assert(r@.follows =~= Seq::<FollowView>::empty());
        }
        r
    }

    /// Projects one decoded event into the application state, keyed by
    /// the operation identifier of its header: an insert-if-absent for
    /// posts, the update-only policy for follows. A malformed header
    /// changes nothing.
    pub fn materialize(&mut self, event: &ButtEvent, header: &LogHeader)
        ensures
            header@.wf() ==> final(self)@ == materialize_spec(
                old(self)@,
                event@,
                header_id(header@),
                header@.public_key,
                header@.timestamp,
            ),
            !header@.wf() ==> final(self)@ == old(self)@,
            posts_unique(final(self)@.posts),
    {
        proof {
            use_type_invariant(&*self);
        }
        let ghost v0 = self@;
        if !header.check_wf() {
            proof {
                assert(self@ == v0);
            }
            return ;
        }
        match event {
            ButtEvent::Post(text) => {
                let id = header.hash();
                let ghost posts0 = self@.posts;
                let mut i: usize = 0;
                while i < self.posts.len()
                    invariant
                        i <= self.posts@.len(),
                        posts0 == self@.posts,
                        v0 == self@,
                        posts_unique(v0.posts),
                        header@.wf(),
                        event@ == EventView::Post(text@),
                        id@ == header_id(header@),
                        forall|j: int| 0 <= j < i ==> posts0[j].id != id@,
                    decreases self.posts@.len() - i,
                {
                    if bytes_eq(&self.posts[i].id, &id) {
                        proof {
                            assert(posts0[i as int].id == id@);
                            assert(has_post(v0.posts, header_id(header@)));
                        }
                        return ;
                    }
                    i += 1;
                }
                proof {
                    assert(!has_post(v0.posts, header_id(header@)));
                }
                let ghost pv = PostView {
                    id: header_id(header@),
                    public_key: header@.public_key,
                    timestamp: header@.timestamp,
                    body: text@,
                };
                let record = ButtPost {
                    id: id,
                    public_key: header.public_key.clone(),
                    timestamp: header.timestamp,
                    body: text.clone(),
                };
                proof {
                    assert(record@ == pv);
                    assert(event@ == EventView::Post(text@));
                }
                let mut posts: Vec<ButtPost> = Vec::new();
                core::mem::swap(&mut posts, &mut self.posts);
                posts.push(record);
                proof {
                    assert(posts@.map_values(|p: ButtPost| p@) =~= v0.posts.push(pv));
                    assert forall|a: int, b: int|
                        0 <= a < b < v0.posts.push(pv).len() implies v0.posts.push(pv)[a].id
                        != v0.posts.push(pv)[b].id by {
                        if b < v0.posts.len() {
                            assert(posts_unique(v0.posts));
                        } else {
                            assert(v0.posts.push(pv)[b] == pv);
                            assert(!has_post(v0.posts, pv.id));
                        }
                    }
                }
                core::mem::swap(&mut posts, &mut self.posts);
                proof {
                    assert(self@.posts =~= v0.posts.push(pv));
                    assert(self@.follows =~= v0.follows);
                    assert(self@ == materialize_spec(
                        v0,
                        event@,
                        header_id(header@),
                        header@.public_key,
                        header@.timestamp,
                    ));
                }
            },
            ButtEvent::Follow(target) => {
                proof {
                    assert(event@ == EventView::Follow(target@));
                }
                self.apply_follow(&header.public_key, target);
                proof {
                    assert(self@ == materialize_spec(
                        v0,
                        event@,
                        header_id(header@),
                        header@.public_key,
                        header@.timestamp,
                    ));
                }
            },
        }
    }

    /// The update-only follow policy: adds the target to the author's
    /// relation entry if the author already has one.
    fn apply_follow(&mut self, author: &Vec<u8>, target: &Vec<u8>)
        ensures
            final(self)@.posts == old(self)@.posts,
            final(self)@.follows == add_follow(old(self)@.follows, author@, target@),
    {
        proof {
            use_type_invariant(&*self);
        }
        let ghost f0 = self@.follows;
        let ghost p0 = self@.posts;
        let mut j: usize = 0;
        while j < self.follows.len()
            invariant
                j <= self.follows@.len(),
                f0 == self@.follows,
                p0 == self@.posts,
                f0 == old(self)@.follows,
                p0 == old(self)@.posts,
                posts_unique(p0),
                forall|k: int| 0 <= k < j ==> f0[k].author != author@,
            decreases self.follows@.len() - j,
        {
            if bytes_eq(&self.follows[j].author, author) {
                proof {
                    assert(f0[j as int].author == author@);
                }
                let mut fl: Vec<FollowEntry> = Vec::new();
                core::mem::swap(&mut fl, &mut self.follows);
                let mut entry = fl.remove(j);
                let present = contains_key(&entry.targets, target);
                let ghost tview = f0[j as int].targets;
                proof {
                    assert(tview == entry.targets@.map_values(|t: Vec<u8>| t@));
                    if present {
                        let i = choose|i: int|
                            0 <= i < entry.targets@.len() && entry.targets@[i]@ == target@;
                        assert(tview[i] == target@);
                        assert(tview.contains(target@));
                    } else {
                        if tview.contains(target@) {
                            let i = choose|i: int| 0 <= i < tview.len() && tview[i] == target@;
                            assert(entry.targets@[i]@ == target@);
                        }
                    }
                    assert(present == tview.contains(target@));
                }
                if !present {
                    entry.targets.push(target.clone());
                    proof {
                        assert(entry.targets@.map_values(|t: Vec<u8>| t@) =~= tview.push(target@));
                    }
                }
                fl.insert(j, entry);
                core::mem::swap(&mut fl, &mut self.follows);
                proof {
                    lemma_add_follow_at(f0, author@, target@, j as int);
                    if tview.contains(target@) {
                        assert(self@.follows =~= f0);
                    } else {
                        let e2 = FollowView {
                            author: f0[j as int].author,
                            targets: tview.push(target@),
                        };
                        assert(self@.follows[j as int].author =~= e2.author);
                        assert(self@.follows[j as int].targets =~= e2.targets);
                        assert(self@.follows =~= f0.update(j as int, e2));
                    }
                }
                return ;
            }
            j += 1;
        }
        proof {
            lemma_add_follow_absent(f0, author@, target@);
        }
    }

    /// Number of materialized post records.
    pub fn post_count(&self) -> (r: usize)
        ensures
            r == self@.posts.len(),
    {
        self.posts.len()
    }

    /// Number of authors holding a follow relation entry. The update-only
    /// policy never creates one, so this grows only if a future revision
    /// seeds entries explicitly.
    pub fn follow_count(&self) -> (r: usize)
        ensures
            r == self@.follows.len(),
    {
        self.follows.len()
    }

    /// All materialized posts, shaped for the HTTP surface; a record
    /// whose body is not valid UTF-8 is skipped.
    pub fn get_posts(&self) -> (r: Vec<FrontendPost>)
        ensures
            r@.len() <= self@.posts.len(),
            exists|m: Seq<int>| rows_witness(m, r@, self@.posts),
    {
        let mut r: Vec<FrontendPost> = Vec::new();
        let ghost mut idx: Seq<int> = Seq::empty();
        let mut i: usize = 0;
        while i < self.posts.len()
            invariant
                i <= self.posts@.len(),
                r@.len() == idx.len(),
                idx.len() <= i,
                forall|k: int|
                    0 <= k < idx.len() ==> 0 <= #[trigger] idx[k] < i && frontend_matches(
                        r@[k],
                        self@.posts[idx[k]],
                    ),
                forall|k1: int, k2: int| 0 <= k1 < k2 < idx.len() ==> idx[k1] < idx[k2],
                forall|j: int|
                    0 <= j < i && valid_utf8((#[trigger] self@.posts[j]).body) ==> idx.contains(
                        j,
                    ),
            decreases self.posts@.len() - i,
        {
            let post = &self.posts[i];
            proof {
                assert(post@ == self@.posts[i as int]);
            }
            let id_hex = codec::hex_encode(&post.id);
            let pk_hex = codec::hex_encode(&post.public_key);
            proof {
                codec::lemma_hex_of_ascii(post@.id);
                codec::lemma_hex_of_ascii(post@.public_key);
                lemma_ascii_valid_utf8(id_hex@);
                lemma_ascii_valid_utf8(pk_hex@);
            }
            let id = match bytes_to_string(&id_hex) {
                Some(s) => s,
                None => {
                    proof {
                        assert(false);
                    }
                    String::new()
                },
            };
            let public_key = match bytes_to_string(&pk_hex) {
                Some(s) => s,
                None => {
                    proof {
                        assert(false);
                    }
                    String::new()
                },
            };
            let ghost idx0 = idx;
            let ghost r0 = r@;
            match bytes_to_string(&post.body) {
                Some(body) => {
                    let fp = FrontendPost { id, public_key, timestamp: post.timestamp, body };
                    proof {
                        assert(frontend_matches(fp, self@.posts[i as int]));
                    }
                    r.push(fp);
                    proof {
                        idx = idx.push(i as int);
                        assert(forall|k: int| 0 <= k < r0.len() ==> r@[k] == r0[k]);
                        assert(forall|k: int| 0 <= k < idx0.len() ==> idx[k] == idx0[k]);
                        assert(r@[r0.len() as int] == fp);
                        assert(idx[idx0.len() as int] == i as int);
                        assert forall|j: int|
                            0 <= j < i + 1 && valid_utf8(
                                (#[trigger] self@.posts[j]).body,
                            ) implies idx.contains(j) by {
                            if j < i {
                                let k = choose|k: int| 0 <= k < idx0.len() && idx0[k] == j;
                                assert(idx[k] == j);
                            } else {
                                assert(idx[idx0.len() as int] == j);
                            }
                        }
                    }
                },
                None => {
                    proof {
                        assert(!valid_utf8(self@.posts[i as int].body));
                        assert forall|j: int|
                            0 <= j < i + 1 && valid_utf8(
                                (#[trigger] self@.posts[j]).body,
                            ) implies idx.contains(j) by {
                            assert(j < i);
                        }
                    }
                },
            }
            i += 1;
        }
        proof {
            assert(rows_witness(idx, r@, self@.posts));
        }
        r
    }

    /// The distinct authors with at least one materialized post: each
    /// appears exactly once, and no other key appears.
    pub fn get_all_keys(&self) -> (r: Vec<Vec<u8>>)
        ensures
            forall|i: int|
                0 <= i < r@.len() ==> has_author(self@.posts, #[trigger] r@[i]@),
            forall|j: int|
                0 <= j < self@.posts.len() ==> keys_contain(r@, #[trigger] self@.posts[j].public_key),
            forall|i1: int, i2: int| 0 <= i1 < i2 < r@.len() ==> r@[i1]@ != r@[i2]@,
    {
        let mut r: Vec<Vec<u8>> = Vec::new();
        let mut i: usize = 0;
        while i < self.posts.len()
            invariant
                i <= self.posts@.len(),
                forall|k: int|
                    0 <= k < r@.len() ==> has_author(self@.posts, #[trigger] r@[k]@),
                forall|j: int|
                    0 <= j < i ==> keys_contain(r@, #[trigger] self@.posts[j].public_key),
                forall|i1: int, i2: int| 0 <= i1 < i2 < r@.len() ==> r@[i1]@ != r@[i2]@,
            decreases self.posts@.len() - i,
        {
            let key = &self.posts[i].public_key;
            if !contains_key(&r, key) {
                let ghost r0 = r@;
                r.push(key.clone());
                proof {
                    assert(r@[r0.len() as int]@ == self@.posts[i as int].public_key);
                    assert(forall|k: int| 0 <= k < r0.len() ==> r@[k] == r0[k]);
                }
            }
            i += 1;
        }
        r
    }
}

/// A mapping that sends each frontend row to the post record it renders:
/// every record whose body is text appears, and the records' order is
/// kept.
pub open spec fn rows_witness(m: Seq<int>, rows: Seq<FrontendPost>, posts: Seq<PostView>) -> bool {
    &&& m.len() == rows.len()
    &&& forall|k: int|
        0 <= k < m.len() ==> 0 <= #[trigger] m[k] < posts.len() && frontend_matches(
            rows[k],
            posts[m[k]],
        )
    &&& forall|k1: int, k2: int| 0 <= k1 < k2 < m.len() ==> m[k1] < m[k2]
    &&& forall|j: int|
        0 <= j < posts.len() && valid_utf8((#[trigger] posts[j]).body) ==> m.contains(j)
}

/// Byte strings whose bytes all stay below 0x80 are valid UTF-8.
proof fn lemma_ascii_valid_utf8(b: Seq<u8>)
    requires
        forall|i: int| 0 <= i < b.len() ==> b[i] < 0x80,
    ensures
        valid_utf8(b),
{
    assert(b.subrange(0, 0) =~= Seq::<u8>::empty());
    assert(valid_utf8(Seq::<u8>::empty()));
    assert(vstd::utf8::partial_valid_utf8(b, 0));
    assert(forall|i: int|
        0 <= i < b.len() ==> #[trigger] vstd::utf8::is_leading_byte_width_1(b[i]));
    vstd::utf8::partial_valid_utf8_extend_ascii_block(b, 0, b.len() as int);
    assert(b.subrange(0, b.len() as int) =~= b);
}

/// Whether a frontend row faithfully renders a post record: hex of the
/// identifier and author key, the same timestamp, the same body text.
pub open spec fn frontend_matches(f: FrontendPost, p: PostView) -> bool {
    &&& encode_utf8(f.id@) == codec::hex_of(p.id)
    &&& encode_utf8(f.public_key@) == codec::hex_of(p.public_key)
    &&& f.timestamp == p.timestamp
    &&& encode_utf8(f.body@) == p.body
}

/// Whether some post record carries the given author key.
pub open spec fn has_author(p: Seq<PostView>, a: Seq<u8>) -> bool {
    exists|j: int| 0 <= j < p.len() && p[j].public_key == a
}

/// Whether a key list holds the given key.
pub open spec fn keys_contain(r: Seq<Vec<u8>>, a: Seq<u8>) -> bool {
    exists|i: int| 0 <= i < r.len() && r[i]@ == a
}

/// Whether the key list already holds this key.
fn contains_key(r: &Vec<Vec<u8>>, key: &Vec<u8>) -> (res: bool)
    ensures
        res == keys_contain(r@, key@),
{
    let mut i: usize = 0;
    while i < r.len()
        invariant
            i <= r@.len(),
            forall|j: int| 0 <= j < i ==> r@[j]@ != key@,
        decreases r@.len() - i,
    {
        if bytes_eq(&r[i], key) {
            assert(r@[i as int]@ == key@);
            return true;
        }
        i += 1;
    }
    false
}

// ---------------------------------------------------------------------
// The backend
// ---------------------------------------------------------------------
/// Mathematical model of the backend.
pub ghost struct BackendView {
    pub private_key: Seq<u8>,
    pub store: Seq<OpView>,
    pub app_data: AppDataView,
}

/// What a header freshly built and signed by the backend satisfies,
/// relative to the state it was built over and its body bytes: the next
/// sequence number of the local log, a backlink to the latest local
/// entry, correct payload fields, and a signature the author key
/// verifies.
pub open spec fn created_header_ok(v: BackendView, h: HeaderView, body: Seq<u8>) -> bool {
    &&& h.wf()
    &&& h.version == 1
    &&& h.public_key == pub_of(v.private_key)
    &&& h.payload_size == body.len()
    &&& h.payload_hash == Some(blake3_of(body))
    &&& h.previous.len() == 0
    &&& h.extensions == Some(ButtExtensions { prune_flag: false })
    &&& h.seq_num == count_author(v.store, h.public_key)
    &&& match last_author_entry(v.store, h.public_key) {
        None => h.backlink is None,
        Some(e) => h.backlink == Some(e.op_id),
    }
    &&& h.signature == Some(sig_of(v.private_key, header_bytes(h.unsigned())))
    &&& verify_ok(h.public_key, header_bytes(h.unsigned()), sig_of(v.private_key, header_bytes(h.unsigned())))
}

/// The node: its identity, its operation store and its materialized
/// application state.
pub struct Backend {
    private_key: Vec<u8>,
    store: OperationStore,
    app_data: AppData,
}

impl View for Backend {
    type V = BackendView;

    closed spec fn view(&self) -> BackendView {
        BackendView {
            private_key: self.private_key@,
            store: self.store@,
            app_data: self.app_data@,
        }
    }
}

impl Backend {
    #[verifier::type_invariant]
    spec fn inv(self) -> bool {
        self.private_key@.len() == 32
    }

    /// A fresh backend over empty state for a 32-byte private key; any
    /// other key length is refused.
    pub fn new(private_key: Vec<u8>) -> (r: Option<Backend>)
        ensures
            match r {
                Some(b) => {
                    &&& private_key@.len() == 32
                    &&& b@.private_key == private_key@
                    &&& b@.store == Seq::<OpView>::empty()
                    &&& b@.app_data.posts == Seq::<PostView>::empty()
                    &&& b@.app_data.follows == Seq::<FollowView>::empty()
                },
                None => private_key@.len() != 32,
            },
    {
        if private_key.len() != 32 {
            return None;
        }
        Some(Backend { private_key, store: OperationStore::new(), app_data: AppData::new() })
    }

    /// The node's identity: the public half of its keypair.
    pub fn public_key(&self) -> (r: Vec<u8>)
        ensures
            r@ == pub_of(self@.private_key),
            r@.len() == 32,
    {
        proof {
            use_type_invariant(self);
        }
        public_key_of(&self.private_key)
    }

    /// Read access to the materialized application state.
    pub fn app_data(&self) -> (r: &AppData)
        ensures
            r@ == self@.app_data,
    {
        &self.app_data
    }

    /// Read access to the operation store.
    pub fn store(&self) -> (r: &OperationStore)
        ensures
            r@ == self@.store,
    {
        &self.store
    }

    /// Builds and signs the next operation of the local log over the
    /// given body bytes. The latest stored local operation decides the
    /// sequence number and backlink; nothing is persisted or sent yet.
    pub fn create_operation(&mut self, body: &[u8]) -> (r: (LogHeader, Vec<u8>))
        ensures
            final(self)@ == old(self)@,
            r.1@ == body@,
            created_header_ok(old(self)@, r.0@, body@),
    {
        proof {
            use_type_invariant(&*self);
        }
        let body_vec: Vec<u8> = vstd::slice::slice_to_vec(body);
        let public_key = public_key_of(&self.private_key);
        let timestamp = now_seconds();
        let latest = self.store.latest_operation(&public_key);
        let (seq_num, backlink): (u64, Option<Vec<u8>>) = match latest {
            Some((h, op_id)) => (h.seq_num + 1, Some(op_id)),
            None => (0, None),
        };
        let payload_hash = hash_bytes(&body_vec);
        let mut header = LogHeader {
            version: 1,
            public_key,
            signature: None,
            payload_size: body_vec.len() as u64,
            payload_hash: Some(payload_hash),
            timestamp,
            seq_num,
            backlink,
            previous: Vec::new(),
            extensions: Some(ButtExtensions::default()),
        };
        proof {
            assert(header@.previous =~= Seq::<Seq<u8>>::empty());
            assert(header@.wf());
        }
        let ghost h0 = header@;
        header.sign(&self.private_key);
        proof {
            assert(h0.unsigned() == h0);
            assert(header@.unsigned() == h0);
        }
        (header, body_vec)
    }

    /// Persists a pair into the operation store and materializes the
    /// given decoded event into the application state.
    pub fn insert_operation(&mut self, body: &Vec<u8>, header: &LogHeader, event: &ButtEvent)
        ensures
            final(self)@.private_key == old(self)@.private_key,
            final(self)@.store == store_insert_spec(old(self)@.store, header@, body@),
            final(self)@.app_data == (if header@.wf() {
                materialize_spec(
                    old(self)@.app_data,
                    event@,
                    header_id(header@),
                    header@.public_key,
                    header@.timestamp,
                )
            } else {
                old(self)@.app_data
            }),
    {
        proof {
            use_type_invariant(&*self);
        }
        let mut store = OperationStore::new();
        core::mem::swap(&mut store, &mut self.store);
        let _stored = store.insert(header, body);
        core::mem::swap(&mut store, &mut self.store);
        let mut app_data = AppData::new();
        core::mem::swap(&mut app_data, &mut self.app_data);
        app_data.materialize(event, header);
        core::mem::swap(&mut app_data, &mut self.app_data);
    }

    /// One step of the funnel's consumer: persist the pair, decode its
    /// body, and materialize the event. A body that is no event leaves
    /// the application state untouched and reports `false`; the funnel
    /// goes on either way.
    pub fn ingest_operation(&mut self, header: LogHeader, body: Vec<u8>) -> (r: bool)
        ensures
            final(self)@.private_key == old(self)@.private_key,
            final(self)@.store == store_insert_spec(old(self)@.store, header@, body@),
            match decode_event(body@) {
                Some(ev) => r == true && final(self)@.app_data == (if header@.wf() {
                    materialize_spec(
                        old(self)@.app_data,
                        ev,
                        header_id(header@),
                        header@.public_key,
                        header@.timestamp,
                    )
                } else {
                    old(self)@.app_data
                }),
                None => r == false && final(self)@.app_data == old(self)@.app_data,
            },
    {
        proof {
            use_type_invariant(&*self);
        }
        let mut store = OperationStore::new();
        core::mem::swap(&mut store, &mut self.store);
        let _stored = store.insert(&header, &body);
        core::mem::swap(&mut store, &mut self.store);
        match ButtEvent::from_bytes(&body) {
            Some(event) => {
                let mut app_data = AppData::new();
                core::mem::swap(&mut app_data, &mut self.app_data);
                app_data.materialize(&event, &header);
                core::mem::swap(&mut app_data, &mut self.app_data);
                true
            },
            None => false,
        }
    }

    /// Drains one operation from the funnel, if any, through
    /// `ingest_operation`.
    pub fn process_next(&mut self, funnel: &mut Funnel) -> (r: bool)
        ensures
            final(funnel)@.capacity == old(funnel)@.capacity,
            final(self)@.private_key == old(self)@.private_key,
            r == (old(funnel)@.items.len() > 0),
            !r ==> final(self)@ == old(self)@ && final(funnel)@.items == old(funnel)@.items,
            r ==> ({
                let op = old(funnel)@.items[0];
                &&& final(funnel)@.items == old(funnel)@.items.drop_first()
                &&& final(self)@.store == store_insert_spec(old(self)@.store, op.0, op.1)
                &&& match decode_event(op.1) {
                    Some(ev) => final(self)@.app_data == (if op.0.wf() {
                        materialize_spec(
                            old(self)@.app_data,
                            ev,
                            header_id(op.0),
                            op.0.public_key,
                            op.0.timestamp,
                        )
                    } else {
                        old(self)@.app_data
                    }),
                    None => final(self)@.app_data == old(self)@.app_data,
                }
            }),
    {
        match funnel.dequeue() {
            Some((header, body)) => {
                let _materialized = self.ingest_operation(header, body);
                true
            },
            None => false,
        }
    }

    /// Declares interest in another identity: creates, persists and
    /// materializes a follow operation naming it.
    pub fn follow(&mut self, friend_key: Vec<u8>) -> (r: (ButtEvent, LogHeader))
        ensures
            ({
                let ev = EventView::Follow(friend_key@);
                let b = codec::encode_event(ev);
                let h = r.1@;
                &&& r.0@ == ev
                &&& created_header_ok(old(self)@, h, b)
                &&& final(self)@.private_key == old(self)@.private_key
                &&& final(self)@.store == store_insert_spec(old(self)@.store, h, b)
                &&& final(self)@.app_data == materialize_spec(
                    old(self)@.app_data,
                    ev,
                    header_id(h),
                    h.public_key,
                    h.timestamp,
                )
            }),
    {
        let event = ButtEvent::Follow(friend_key);
        let bytes = event.to_bytes();
        let (header, body) = self.create_operation(bytes.as_slice());
        self.insert_operation(&body, &header, &event);
        (event, header)
    }

    /// Creates a post: builds and signs the operation over the encoded
    /// event, persists it, and materializes it. The caller hands the
    /// returned pair to the gossip layer.
    pub fn create_post(&mut self, post_body: Vec<u8>) -> (r: (ButtEvent, LogHeader))
        ensures
            ({
                let ev = EventView::Post(post_body@);
                let b = codec::encode_event(ev);
                let h = r.1@;
                &&& r.0@ == ev
                &&& created_header_ok(old(self)@, h, b)
                &&& final(self)@.private_key == old(self)@.private_key
                &&& final(self)@.store == store_insert_spec(old(self)@.store, h, b)
                &&& final(self)@.app_data == materialize_spec(
                    old(self)@.app_data,
                    ev,
                    header_id(h),
                    h.public_key,
                    h.timestamp,
                )
            }),
    {
        let event = ButtEvent::Post(post_body);
        let bytes = event.to_bytes();
        let (header, body) = self.create_operation(bytes.as_slice());
        self.insert_operation(&body, &header, &event);
        (event, header)
    }
}

} // verus!
