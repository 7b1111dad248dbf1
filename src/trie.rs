//! The Merkle-Patricia trie: a content-addressed node store, reference
//! resolution, and get / set / delete over nibble paths.

use vstd::prelude::*;
use tiny_keccak::Hasher;
use crate::nibbles::{is_nibbles, nibbles_of, to_nibbles};
use crate::node::{node_item, node_of_item, opt_view, well_formed, Node, NodeModel, INLINE_LIMIT};
use crate::rlp::{copy_slice, decoding, encoding, RlpDecodable};

verus! {

broadcast use vstd::map_lib::lemma_submap_of_trans;

/// Why a trie operation failed.
#[derive(PartialEq, Eq, Structural, Debug, Clone, Copy)]
pub enum TrieError {
    /// A digest reference has no entry in the store.
    DanglingReference,
    /// Stored bytes are not the encoding of any node shape.
    CorruptNode,
    /// The store refused a write: the digest already holds other bytes.
    StorageFailure,
}

/// The Keccak-256 digest of a byte sequence.
pub uninterp spec fn keccak256_of(b: Seq<u8>) -> Seq<u8>;

/// Relies on tiny_keccak's `Keccak::v256`: the digest of the input, 32 bytes.
#[verifier::external_body]
fn keccak256(b: &Vec<u8>) -> (r: Vec<u8>)
    ensures
        r@ == keccak256_of(b@),
        r@.len() == 32,
{
    let mut hasher = tiny_keccak::Keccak::v256();
    hasher.update(b.as_slice());
    let mut out = [0u8; 32];
    hasher.finalize(&mut out);
    out.to_vec()
}

/// Two different byte sequences share a Keccak-256 digest.
pub open spec fn keccak_collision() -> bool {
    exists|a: Seq<u8>, b: Seq<u8>| a != b && keccak256_of(a) == keccak256_of(b)
}

/// Some bytes `e` have their digest already taken in `m` by other bytes; in
/// a content-addressed store, those share `e`'s digest.
pub open spec fn meets_collision(m: Map<Seq<u8>, Seq<u8>>) -> bool {
    exists|e: Seq<u8>| #[trigger] m.contains_key(keccak256_of(e)) && m[keccak256_of(e)] != e
}

/// Every entry of `m` sits under the digest of its bytes and holds at least
/// `INLINE_LIMIT` bytes.
pub open spec fn content_addressed(m: Map<Seq<u8>, Seq<u8>>) -> bool {
    forall|d: Seq<u8>| #[trigger] m.contains_key(d) ==> d == keccak256_of(m[d]) && m[d].len()
        >= INLINE_LIMIT
}

/// The value stored under `k` in `s`, the earliest entry winning.
pub open spec fn entry_lookup(s: Seq<(Vec<u8>, Vec<u8>)>, k: Seq<u8>) -> Option<Seq<u8>>
    decreases s.len(),
{
    if s.len() == 0 {
        None
    } else {
        match entry_lookup(s.drop_last(), k) {
            Some(v) => Some(v),
            None => if s.last().0@ == k {
                Some(s.last().1@)
            } else {
                None
            },
        }
    }
}

proof fn lemma_lookup_prefix(s: Seq<(Vec<u8>, Vec<u8>)>, j: int, k: Seq<u8>)
    requires
        0 <= j <= s.len(),
        entry_lookup(s.take(j), k) is Some,
    ensures
        entry_lookup(s, k) == entry_lookup(s.take(j), k),
    decreases s.len(),
{
    if j < s.len() {
        assert(s.drop_last().take(j) == s.take(j));
        lemma_lookup_prefix(s.drop_last(), j, k);
    } else {
        assert(s.take(j) == s);
    }
}

/// An in-memory content-addressed store: digest to encoded node.
pub struct NodeStore {
    entries: Vec<(Vec<u8>, Vec<u8>)>,
}

impl View for NodeStore {
    type V = Map<Seq<u8>, Seq<u8>>;

    closed spec fn view(&self) -> Map<Seq<u8>, Seq<u8>> {
        Map::new(
            |k: Seq<u8>| entry_lookup(self.entries@, k) is Some,
            |k: Seq<u8>| entry_lookup(self.entries@, k)->Some_0,
        )
    }
}

/// Whether two byte sequences are equal.
fn bytes_eq(a: &Vec<u8>, b: &Vec<u8>) -> (r: bool)
    ensures
        r == (a@ == b@),
{
    if a.len() != b.len() {
        return false;
    }
    let mut i: usize = 0;
    while i < a.len()
        invariant
            i <= a.len() == b.len(),
            a@.take(i as int) == b@.take(i as int),
        decreases a.len() - i,
    {
        if a[i] != b[i] {
            assert(a@[i as int] != b@[i as int]);
            return false;
        }
        assert(a@.take(i + 1) == a@.take(i as int).push(a@[i as int]));
        assert(b@.take(i + 1) == b@.take(i as int).push(b@[i as int]));
        i = i + 1;
    }
    assert(a@.take(a.len() as int) == a@);
    assert(b@.take(b.len() as int) == b@);
    true
}

impl NodeStore {
    pub fn new() -> (r: NodeStore)
        ensures
            r@ == Map::<Seq<u8>, Seq<u8>>::empty(),
    {
        let r = NodeStore { entries: Vec::new() };
        assert(r@ =~= Map::<Seq<u8>, Seq<u8>>::empty());
        r
    }

    /// The bytes stored under `k`.
    pub fn get(&self, k: &Vec<u8>) -> (r: Option<Vec<u8>>)
        ensures
            match r {
                None => !self@.contains_key(k@),
                Some(v) => self@.contains_key(k@) && self@[k@] == v@,
            },
    {
        let mut i: usize = 0;
        while i < self.entries.len()
            invariant
                i <= self.entries.len(),
                entry_lookup(self.entries@.take(i as int), k@) is None,
            decreases self.entries.len() - i,
        {
            assert(self.entries@.take(i + 1).drop_last() == self.entries@.take(i as int));
            if bytes_eq(&self.entries[i].0, k) {
                proof {
                    lemma_lookup_prefix(self.entries@, i + 1, k@);
                }
                return Some(copy_slice(&self.entries[i].1, 0, self.entries[i].1.len()));
            }
            i = i + 1;
        }
        assert(self.entries@.take(self.entries.len() as int) == self.entries@);
        None
    }

    /// Stores `v` under `k`. Writing the bytes already held is a no-op;
    /// writing other bytes under a taken key fails and changes nothing.
    fn put(&mut self, k: Vec<u8>, v: Vec<u8>) -> (r: Result<(), TrieError>)
        ensures
            r is Ok <==> (!old(self)@.contains_key(k@) || old(self)@[k@] == v@),
            r is Ok ==> final(self)@ == old(self)@.insert(k@, v@),
            r is Err ==> final(self)@ == old(self)@ && r == Err::<(), TrieError>(TrieError::StorageFailure),
    {
        match self.get(&k) {
            Some(existing) => {
                if bytes_eq(&existing, &v) {
                    assert(self@.insert(k@, v@) =~= self@);
                    Ok(())
                } else {
                    Err(TrieError::StorageFailure)
                }
            },
            None => {
                let ghost before = self.entries@;
                let ghost (kv, vv) = (k@, v@);
                self.entries.push((k, v));
                proof {
                    assert(self.entries@.drop_last() == before);
                    assert(self@ =~= old(self)@.insert(kv, vv));
                }
                Ok(())
            },
        }
    }
}

/// The reference of a node: empty for a blank subtree, its encoding when
/// that is shorter than `INLINE_LIMIT`, else the digest of its encoding.
pub open spec fn node_ref(n: NodeModel) -> Seq<u8> {
    if n is Blank {
        seq![]
    } else {
        let e = encoding(node_item(n));
        if e.len() < INLINE_LIMIT {
            e
        } else {
            keccak256_of(e)
        }
    }
}

/// Whether storing `n` writes an entry under its digest.
pub open spec fn writes_entry(n: NodeModel) -> bool {
    !(n is Blank) && encoding(node_item(n)).len() >= INLINE_LIMIT
}

/// Whether storing `n` in `m` would meet other bytes under its digest.
pub open spec fn collides(m: Map<Seq<u8>, Seq<u8>>, n: NodeModel) -> bool {
    writes_entry(n) && m.contains_key(node_ref(n)) && m[node_ref(n)] != encoding(node_item(n))
}

/// The store after `n` has been stored in `m`.
pub open spec fn stored(m: Map<Seq<u8>, Seq<u8>>, n: NodeModel) -> Map<Seq<u8>, Seq<u8>> {
    if writes_entry(n) {
        m.insert(node_ref(n), encoding(node_item(n)))
    } else {
        m
    }
}

/// The bytes that a reference names in `m`.
pub open spec fn ref_bytes(m: Map<Seq<u8>, Seq<u8>>, r: Seq<u8>) -> Result<Seq<u8>, TrieError> {
    if r.len() > INLINE_LIMIT {
        Err(TrieError::CorruptNode)
    } else if r.len() < INLINE_LIMIT {
        Ok(r)
    } else if m.contains_key(r) {
        Ok(m[r])
    } else {
        Err(TrieError::DanglingReference)
    }
}

/// The node that a reference names in `m`.
pub open spec fn resolve_ref(m: Map<Seq<u8>, Seq<u8>>, r: Seq<u8>) -> Result<NodeModel, TrieError> {
    if r.len() == 0 {
        Ok(NodeModel::Blank)
    } else {
        match ref_bytes(m, r) {
            Err(e) => Err(e),
            Ok(b) => match decoding(b) {
                Err(_) => Err(TrieError::CorruptNode),
                Ok(item) => match node_of_item(item) {
                    None => Err(TrieError::CorruptNode),
                    Some(n) => Ok(n),
                },
            },
        }
    }
}

/// The reference `r` is the one that storing its node would give, and a
/// digest's entry holds that node's encoding.
pub open spec fn canonical_ref(m: Map<Seq<u8>, Seq<u8>>, r: Seq<u8>) -> bool {
    &&& resolve_ref(m, r) is Ok
    &&& node_ref(resolve_ref(m, r)->Ok_0) == r
    &&& writes_entry(resolve_ref(m, r)->Ok_0) ==> m.contains_key(r) && m[r] == encoding(
        node_item(resolve_ref(m, r)->Ok_0),
    )
}

/// Every reference met on the way from `r` along `path` is canonical.
pub open spec fn canonical_path(m: Map<Seq<u8>, Seq<u8>>, r: Seq<u8>, path: Seq<u8>) -> bool
    decreases path.len(),
{
    canonical_ref(m, r) && match resolve_ref(m, r) {
        Ok(NodeModel::Extension(p, c)) => if p.len() > 0 && p.len() <= path.len() && path.take(
            p.len() as int,
        ) == p {
            canonical_path(m, c, path.skip(p.len() as int))
        } else {
            true
        },
        Ok(NodeModel::Branch(cs, _)) => if path.len() > 0 && path[0] < cs.len() {
            canonical_path(m, cs[path[0] as int], path.skip(1))
        } else {
            true
        },
        _ => true,
    }
}

/// Storing `n` in `m` would write nothing new.
pub open spec fn holds_node(m: Map<Seq<u8>, Seq<u8>>, n: NodeModel) -> bool {
    writes_entry(n) ==> m.contains_key(node_ref(n)) && m[node_ref(n)] == encoding(node_item(n))
}

/// `b` is a branch that keeps every child reference of the branch `a` but
/// the one at `idx`.
pub open spec fn shares_siblings(a: NodeModel, b: NodeModel, idx: int) -> bool {
    match (a, b) {
        (NodeModel::Branch(x, _), NodeModel::Branch(y, _)) => x.len() == y.len() && forall|i: int|
            0 <= i < x.len() && i != idx ==> #[trigger] y[i] == x[i],
        _ => false,
    }
}

/// Stores `n` and returns its reference.
pub fn store_node(store: &mut NodeStore, n: &Node) -> (r: Result<Vec<u8>, TrieError>)
    requires
        well_formed(n@),
    ensures
        r is Ok <==> !collides(old(store)@, n@),
        match r {
            Ok(x) => x@ == node_ref(n@) && final(store)@ == stored(old(store)@, n@),
            Err(e) => e == TrieError::StorageFailure && final(store)@ == old(store)@,
        },
        r is Ok ==> r->Ok_0@.len() <= INLINE_LIMIT,
        r is Ok ==> resolve_ref(final(store)@, r->Ok_0@) == Ok::<NodeModel, TrieError>(n@),
        r is Ok ==> canonical_ref(final(store)@, r->Ok_0@),
        holds_node(old(store)@, n@) ==> r is Ok,
        old(store)@.submap_of(final(store)@),
        content_addressed(old(store)@) ==> content_addressed(final(store)@),
        content_addressed(old(store)@) && !keccak_collision() ==> r is Ok,
        r is Err ==> meets_collision(final(store)@),
{
    proof {
        if collides(old(store)@, n@) {
            let e = encoding(node_item(n@));
            assert(old(store)@.contains_key(keccak256_of(e)) && old(store)@[keccak256_of(e)] != e);
        }
        if collides(old(store)@, n@) && content_addressed(old(store)@) {
            let d = node_ref(n@);
            let a = old(store)@[d];
            let b = encoding(node_item(n@));
            assert(a != b && keccak256_of(a) == keccak256_of(b));
            assert(keccak_collision());
        }
        if writes_entry(n@) && !collides(old(store)@, n@) {
            assert(old(store)@.submap_of(stored(old(store)@, n@)));
        }
    }
    if let Node::Blank = n {
        return Ok(Vec::new());
    }
    let enc = n.to_rlp().encode().to_vec();
    let enc_len = enc.len();
    proof {
        crate::node::lemma_node_item_round_trip(n@);
        crate::rlp::lemma_round_trip(node_item(n@));
    }
    if enc_len < INLINE_LIMIT {
        Ok(enc)
    } else {
        let digest = keccak256(&enc);
        let key = copy_slice(&digest, 0, digest.len());
        assert(digest@.subrange(0, digest@.len() as int) == digest@);
        match store.put(key, enc) {
            Ok(()) => Ok(digest),
            Err(e) => Err(e),
        }
    }
}

/// The node that `r` names.
pub fn resolve(store: &NodeStore, r: &Vec<u8>) -> (res: Result<Node, TrieError>)
    ensures
        match res {
            Ok(n) => resolve_ref(store@, r@) == Ok::<NodeModel, TrieError>(n@),
            Err(e) => resolve_ref(store@, r@) == Err::<NodeModel, TrieError>(e),
        },
{
    if r.len() == 0 {
        return Ok(Node::Blank);
    }
    let bytes = if r.len() > INLINE_LIMIT {
        return Err(TrieError::CorruptNode);
    } else if r.len() < INLINE_LIMIT {
        copy_slice(r, 0, r.len())
    } else {
        match store.get(r) {
            None => {
                return Err(TrieError::DanglingReference);
            },
            Some(b) => b,
        }
    };
    assert(r@.subrange(0, r@.len() as int) == r@);
    match RlpDecodable::new(bytes).decode() {
        Err(_) => Err(TrieError::CorruptNode),
        Ok(item) => match Node::from_rlp(item) {
            None => Err(TrieError::CorruptNode),
            Some(n) => Ok(n),
        },
    }
}


proof fn lemma_resolve_mono(m1: Map<Seq<u8>, Seq<u8>>, m2: Map<Seq<u8>, Seq<u8>>, r: Seq<u8>)
    requires
        m1.submap_of(m2),
        resolve_ref(m1, r) is Ok,
    ensures
        resolve_ref(m2, r) == resolve_ref(m1, r),
{
    if r.len() == INLINE_LIMIT {
        assert(m2.contains_key(r) && m2[r] == m1[r]);
    }
}

/// What the subtree at `r` holds for the nibble path `path`.
pub open spec fn lookup(m: Map<Seq<u8>, Seq<u8>>, r: Seq<u8>, path: Seq<u8>) -> Result<
    Option<Seq<u8>>,
    TrieError,
>
    decreases path.len(),
{
    match resolve_ref(m, r) {
        Err(e) => Err(e),
        Ok(n) => match n {
            NodeModel::Blank => Ok(None),
            NodeModel::Leaf(p, v) => Ok(
                if p == path {
                    Some(v)
                } else {
                    None
                },
            ),
            NodeModel::Extension(p, c) => if p.len() == 0 {
                Err(TrieError::CorruptNode)
            } else if p.len() <= path.len() && path.take(p.len() as int) == p {
                lookup(m, c, path.skip(p.len() as int))
            } else {
                Ok(None)
            },
            NodeModel::Branch(cs, v) => if path.len() == 0 {
                Ok(v)
            } else if path[0] < cs.len() {
                lookup(m, cs[path[0] as int], path.skip(1))
            } else {
                Err(TrieError::CorruptNode)
            },
        },
    }
}

proof fn lemma_lookup_mono(
    m1: Map<Seq<u8>, Seq<u8>>,
    m2: Map<Seq<u8>, Seq<u8>>,
    r: Seq<u8>,
    path: Seq<u8>,
)
    requires
        m1.submap_of(m2),
        lookup(m1, r, path) is Ok,
    ensures
        lookup(m2, r, path) == lookup(m1, r, path),
    decreases path.len(),
{
    lemma_resolve_mono(m1, m2, r);
    match resolve_ref(m1, r) {
        Ok(NodeModel::Extension(p, c)) => {
            if p.len() > 0 && p.len() <= path.len() && path.take(p.len() as int) == p {
                lemma_lookup_mono(m1, m2, c, path.skip(p.len() as int));
            }
        },
        Ok(NodeModel::Branch(cs, v)) => {
            if path.len() > 0 && path[0] < cs.len() {
                lemma_lookup_mono(m1, m2, cs[path[0] as int], path.skip(1));
            }
        },
        _ => {},
    }
}

proof fn lemma_canonical_ref_mono(m1: Map<Seq<u8>, Seq<u8>>, m2: Map<Seq<u8>, Seq<u8>>, r: Seq<u8>)
    requires
        m1.submap_of(m2),
        canonical_ref(m1, r),
    ensures
        canonical_ref(m2, r),
{
    lemma_resolve_mono(m1, m2, r);
    if m1.dom().contains(r) {
        assert(m2.dom().contains(r) && m2[r] == m1[r]);
    }
}

proof fn lemma_canonical_path_mono(
    m1: Map<Seq<u8>, Seq<u8>>,
    m2: Map<Seq<u8>, Seq<u8>>,
    r: Seq<u8>,
    path: Seq<u8>,
)
    requires
        m1.submap_of(m2),
        canonical_path(m1, r, path),
    ensures
        canonical_path(m2, r, path),
    decreases path.len(),
{
    lemma_canonical_ref_mono(m1, m2, r);
    lemma_resolve_mono(m1, m2, r);
    match resolve_ref(m1, r) {
        Ok(NodeModel::Extension(p, c)) => {
            if p.len() > 0 && p.len() <= path.len() && path.take(p.len() as int) == p {
                lemma_canonical_path_mono(m1, m2, c, path.skip(p.len() as int));
            }
        },
        Ok(NodeModel::Branch(cs, v)) => {
            if path.len() > 0 && path[0] < cs.len() {
                lemma_canonical_path_mono(m1, m2, cs[path[0] as int], path.skip(1));
            }
        },
        _ => {},
    }
}

/// A canonical reference's node is held by the store.
proof fn lemma_canonical_holds(m: Map<Seq<u8>, Seq<u8>>, r: Seq<u8>)
    requires
        canonical_ref(m, r),
    ensures
        holds_node(m, resolve_ref(m, r)->Ok_0),
{
}

/// Nodes are only ever added to a store: whatever a root held in a store
/// that has since grown, it still holds for every key.
pub proof fn lemma_prior_root_preserved(before: Trie, after: Trie, key: Seq<u8>)
    requires
        before.store_view().submap_of(after.store_view()),
        before.value_at(key) is Ok,
    ensures
        lookup(after.store_view(), before.root_view(), nibbles_of(key)) == before.value_at(key),
{
    lemma_lookup_mono(before.store_view(), after.store_view(), before.root_view(), nibbles_of(key));
}

/// What the node `n` holds for the nibble path `path`, its children read
/// from `m`.
pub open spec fn lookup_in(m: Map<Seq<u8>, Seq<u8>>, n: NodeModel, path: Seq<u8>) -> Result<
    Option<Seq<u8>>,
    TrieError,
> {
    match n {
        NodeModel::Blank => Ok(None),
        NodeModel::Leaf(p, v) => Ok(
            if p == path {
                Some(v)
            } else {
                None
            },
        ),
        NodeModel::Extension(p, c) => if p.len() == 0 {
            Err(TrieError::CorruptNode)
        } else if p.len() <= path.len() && path.take(p.len() as int) == p {
            lookup(m, c, path.skip(p.len() as int))
        } else {
            Ok(None)
        },
        NodeModel::Branch(cs, v) => if path.len() == 0 {
            Ok(v)
        } else if path[0] < cs.len() {
            lookup(m, cs[path[0] as int], path.skip(1))
        } else {
            Err(TrieError::CorruptNode)
        },
    }
}

proof fn lemma_lookup_resolved(m: Map<Seq<u8>, Seq<u8>>, r: Seq<u8>, n: NodeModel, path: Seq<u8>)
    requires
        resolve_ref(m, r) == Ok::<NodeModel, TrieError>(n),
    ensures
        lookup(m, r, path) == lookup_in(m, n, path),
{
}

proof fn lemma_lookup_in_mono(
    m1: Map<Seq<u8>, Seq<u8>>,
    m2: Map<Seq<u8>, Seq<u8>>,
    n: NodeModel,
    path: Seq<u8>,
)
    requires
        m1.submap_of(m2),
        lookup_in(m1, n, path) is Ok,
    ensures
        lookup_in(m2, n, path) == lookup_in(m1, n, path),
{
    match n {
        NodeModel::Extension(p, c) => {
            if p.len() > 0 && p.len() <= path.len() && path.take(p.len() as int) == p {
                lemma_lookup_mono(m1, m2, c, path.skip(p.len() as int));
            }
        },
        NodeModel::Branch(cs, v) => {
            if path.len() > 0 && path[0] < cs.len() {
                lemma_lookup_mono(m1, m2, cs[path[0] as int], path.skip(1));
            }
        },
        _ => {},
    }
}

/// Whether `rest` starts with `prefix`.
pub open spec fn has_prefix(rest: Seq<u8>, prefix: Seq<u8>) -> bool {
    prefix.len() <= rest.len() && rest.take(prefix.len() as int) == prefix
}

proof fn lemma_same_root_same_lookup(
    m1: Map<Seq<u8>, Seq<u8>>,
    m2: Map<Seq<u8>, Seq<u8>>,
    r: Seq<u8>,
    path: Seq<u8>,
)
    requires
        content_addressed(m1),
        content_addressed(m2),
        !keccak_collision(),
        lookup(m1, r, path) is Ok,
        lookup(m2, r, path) is Ok,
    ensures
        lookup(m1, r, path) == lookup(m2, r, path),
    decreases path.len(),
{
    if r.len() == INLINE_LIMIT && m1.contains_key(r) && m2.contains_key(r) {
        if m1[r] != m2[r] {
            assert(keccak256_of(m1[r]) == keccak256_of(m2[r]));
            assert(keccak_collision());
        }
    }
    assert(resolve_ref(m1, r) == resolve_ref(m2, r));
    match resolve_ref(m1, r) {
        Ok(NodeModel::Extension(p, c)) => {
            if p.len() > 0 && p.len() <= path.len() && path.take(p.len() as int) == p {
                lemma_same_root_same_lookup(m1, m2, c, path.skip(p.len() as int));
            }
        },
        Ok(NodeModel::Branch(cs, v)) => {
            if path.len() > 0 && path[0] < cs.len() {
                lemma_same_root_same_lookup(m1, m2, cs[path[0] as int], path.skip(1));
            }
        },
        _ => {},
    }
}

/// The root reference alone fixes the contents: two tries whose stores
/// are content-addressed and hold the nodes that a key's lookup reads give
/// that key the same value, unless two encodings share a digest.
pub proof fn lemma_equal_roots(t1: Trie, t2: Trie, key: Seq<u8>)
    requires
        t1.inv(),
        t2.inv(),
        t1.root_view() == t2.root_view(),
        !keccak_collision(),
        t1.value_at(key) is Ok,
        t2.value_at(key) is Ok,
    ensures
        t1.value_at(key) == t2.value_at(key),
{
    lemma_same_root_same_lookup(t1.store_view(), t2.store_view(), t1.root_view(), nibbles_of(key));
}

/// The view of a lookup's result.
pub open spec fn found_view(r: Result<Option<Vec<u8>>, TrieError>) -> Result<
    Option<Seq<u8>>,
    TrieError,
> {
    match r {
        Err(e) => Err(e),
        Ok(None) => Ok(None),
        Ok(Some(v)) => Ok(Some(v@)),
    }
}

/// Whether `a[from..]` starts with `p`.
fn starts_with_at(a: &Vec<u8>, from: usize, p: &Vec<u8>) -> (r: bool)
    requires
        from <= a.len(),
    ensures
        r == (p.len() <= a.len() - from && a@.skip(from as int).take(p.len() as int) == p@),
{
    if p.len() > a.len() - from {
        return false;
    }
    let mut i: usize = 0;
    while i < p.len()
        invariant
            i <= p.len() <= a.len() - from,
            a@.skip(from as int).take(i as int) == p@.take(i as int),
        decreases p.len() - i,
    {
        if a[from + i] != p[i] {
            assert(a@.skip(from as int).take(p.len() as int)[i as int] != p@[i as int]);
            return false;
        }
        assert(a@.skip(from as int).take(i + 1) =~= p@.take(i + 1));
        i = i + 1;
    }
    assert(p@.take(p.len() as int) == p@);
    true
}

/// What the subtree at `r` holds for the path `path[pos..]`.
fn get_at(store: &NodeStore, r: &Vec<u8>, path: &Vec<u8>, pos: usize) -> (res: Result<
    Option<Vec<u8>>,
    TrieError,
>)
    requires
        pos <= path.len(),
    ensures
        found_view(res) == lookup(store@, r@, path@.skip(pos as int)),
    decreases path.len() - pos,
{
    let ghost rest = path@.skip(pos as int);
    let node = resolve(store, r)?;
    match node {
        Node::Blank => Ok(None),
        Node::Leaf { path: p, value } => {
            let same = p.len() == path.len() - pos && starts_with_at(path, pos, &p);
            proof {
                if p@ == rest {
                    assert(rest.take(p.len() as int) == rest);
                }
                if same {
                    assert(rest.take(p.len() as int) == rest);
                }
            }
            if same {
                Ok(Some(value))
            } else {
                Ok(None)
            }
        },
        Node::Extension { path: p, child } => {
            if p.len() == 0 {
                Err(TrieError::CorruptNode)
            } else if starts_with_at(path, pos, &p) {
                assert(rest.skip(p.len() as int) == path@.skip(pos + p.len()));
                get_at(store, &child, path, pos + p.len())
            } else {
                Ok(None)
            }
        },
        Node::Branch { children, value } => {
            if pos == path.len() {
                Ok(value)
            } else if (path[pos] as usize) < children.len() {
                assert(rest.skip(1) == path@.skip(pos + 1));
                get_at(store, &children[path[pos] as usize], path, pos + 1)
            } else {
                Err(TrieError::CorruptNode)
            }
        },
    }
}

/// A node's well-formedness follows from having been read.
proof fn lemma_read_well_formed(x: crate::rlp::RlpItem)
    requires
        node_of_item(x) is Some,
    ensures
        well_formed(node_of_item(x)->Some_0),
{
    if let crate::rlp::RlpItem::List(items) = x {
        if items.len() == 2 {
            let b = items[0]->Bytes_0;
            let n = nibbles_of(b);
            assert(is_nibbles(n));
        } else {
            let cs = items.take(16).map_values(|y: crate::rlp::RlpItem| y->Bytes_0);
            assert forall|i: int| 0 <= i < 16 implies (#[trigger] cs[i]).len() <= INLINE_LIMIT by {
                assert(crate::node::is_ref_item(items[i]));
            }
        }
    }
}

/// Resolves `r` to a node, which is then well-formed.
fn read_node(store: &NodeStore, r: &Vec<u8>) -> (res: Result<Node, TrieError>)
    ensures
        match res {
            Ok(n) => resolve_ref(store@, r@) == Ok::<NodeModel, TrieError>(n@) && well_formed(n@),
            Err(e) => resolve_ref(store@, r@) == Err::<NodeModel, TrieError>(e),
        },
{
    let res = resolve(store, r);
    proof {
        if res is Ok && r@.len() > 0 {
            let b = ref_bytes(store@, r@)->Ok_0;
            lemma_read_well_formed(decoding(b)->Ok_0);
        }
    }
    res
}

/// The length of the longest common prefix of `a[i..]` and `b[j..]`.
fn common_len(a: &Vec<u8>, i: usize, b: &Vec<u8>, j: usize) -> (r: usize)
    requires
        i <= a.len(),
        j <= b.len(),
    ensures
        r <= a.len() - i,
        r <= b.len() - j,
        a@.subrange(i as int, i + r) == b@.subrange(j as int, j + r),
        r < a.len() - i && r < b.len() - j ==> a@[i + r] != b@[j + r],
{
    let mut k: usize = 0;
    while k < a.len() - i && k < b.len() - j && a[i + k] == b[j + k]
        invariant
            i <= a.len(),
            j <= b.len(),
            k <= a.len() - i,
            k <= b.len() - j,
            a@.subrange(i as int, i + k) == b@.subrange(j as int, j + k),
        decreases a.len() - i - k,
    {
        assert(a@.subrange(i as int, i + k + 1) =~= b@.subrange(j as int, j + k + 1));
        k = k + 1;
    }
    k
}

/// Sixteen blank references.
fn blank_children() -> (r: Vec<Vec<u8>>)
    ensures
        r.len() == 16,
        forall|i: int| 0 <= i < 16 ==> (#[trigger] r@[i])@.len() == 0,
{
    let mut r: Vec<Vec<u8>> = Vec::new();
    let mut i: usize = 0;
    while i < 16
        invariant
            i <= 16,
            r.len() == i,
            forall|k: int| 0 <= k < i ==> (#[trigger] r@[k])@.len() == 0,
        decreases 16 - i,
    {
        r.push(Vec::new());
        i = i + 1;
    }
    r
}

/// The branch value slot for `v`: absent when `v` is empty.
fn slot_of(v: Vec<u8>) -> (r: Option<Vec<u8>>)
    ensures
        opt_view(r) == opt_of(v@),
        match r {
            None => v@.len() == 0,
            Some(x) => x@ == v@ && x@.len() > 0,
        },
{
    if v.len() == 0 {
        None
    } else {
        Some(v)
    }
}

proof fn lemma_branch_finds(
    m: Map<Seq<u8>, Seq<u8>>,
    b: Seq<u8>,
    cs: Seq<Seq<u8>>,
    bv: Option<Seq<u8>>,
    q: Seq<u8>,
    value: Seq<u8>,
)
    requires
        resolve_ref(m, b) == Ok::<NodeModel, TrieError>(NodeModel::Branch(cs, bv)),
        q.len() == 0 ==> bv == opt_of(value),
        q.len() > 0 ==> q[0] < cs.len() && holds_value(lookup(m, cs[q[0] as int], q.skip(1)), value),
    ensures
        holds_value(lookup(m, b, q), value),
{
}

proof fn lemma_extension_finds(
    m: Map<Seq<u8>, Seq<u8>>,
    e: Seq<u8>,
    p: Seq<u8>,
    child: Seq<u8>,
    rest: Seq<u8>,
    value: Seq<u8>,
)
    requires
        resolve_ref(m, e) == Ok::<NodeModel, TrieError>(NodeModel::Extension(p, child)),
        0 < p.len() <= rest.len(),
        rest.take(p.len() as int) == p,
        holds_value(lookup(m, child, rest.skip(p.len() as int)), value),
    ensures
        holds_value(lookup(m, e, rest), value),
{
}

proof fn lemma_leaf_finds(m: Map<Seq<u8>, Seq<u8>>, l: Seq<u8>, p: Seq<u8>, value: Seq<u8>)
    requires
        resolve_ref(m, l) == Ok::<NodeModel, TrieError>(NodeModel::Leaf(p, value)),
    ensures
        lookup(m, l, p) == Ok::<Option<Seq<u8>>, TrieError>(Some(value)),
{
}

/// A branch value slot for `v`: a branch writes an absent value as empty
/// bytes, so an empty value is absent there.
pub open spec fn opt_of(v: Seq<u8>) -> Option<Seq<u8>> {
    if v.len() == 0 {
        None
    } else {
        Some(v)
    }
}

/// A lookup found `value`; an empty value may have been held as absent.
pub open spec fn holds_value(res: Result<Option<Seq<u8>>, TrieError>, value: Seq<u8>) -> bool {
    res == Ok::<Option<Seq<u8>>, TrieError>(Some(value)) || (value.len() == 0 && res == Ok::<
        Option<Seq<u8>>,
        TrieError,
    >(None))
}

/// `new` is what `old` was, except that an empty value may have become
/// absent.
pub open spec fn agrees(
    new: Result<Option<Seq<u8>>, TrieError>,
    old: Result<Option<Seq<u8>>, TrieError>,
) -> bool {
    new == old || (old == Ok::<Option<Seq<u8>>, TrieError>(Some(seq![])) && new == Ok::<
        Option<Seq<u8>>,
        TrieError,
    >(None))
}

/// Off the path `rest`, the subtree at `r2` in `m2` holds what the node `n`
/// holds in `m1`.
spec fn same_off_path(
    m1: Map<Seq<u8>, Seq<u8>>,
    n: NodeModel,
    m2: Map<Seq<u8>, Seq<u8>>,
    r2: Seq<u8>,
    rest: Seq<u8>,
) -> bool {
    forall|q: Seq<u8>|
        q != rest && is_nibbles(q) && #[trigger] lookup_in(m1, n, q) is Ok ==> agrees(
            lookup(m2, r2, q),
            lookup_in(m1, n, q),
        )
}

spec fn slot_index(slot: Option<(int, Seq<u8>)>) -> int {
    match slot {
        Some((i, _)) => i,
        None => 0,
    }
}

spec fn slot_ref(slot: Option<(int, Seq<u8>)>) -> Seq<u8> {
    match slot {
        Some((_, r)) => r,
        None => seq![],
    }
}

spec fn slot_view(s: Option<(usize, Vec<u8>)>) -> Option<(int, Seq<u8>)> {
    match s {
        None => None,
        Some((i, r)) => Some((i as int, r@)),
    }
}

/// What a fork under the nibbles `p`, with `slot` below it and value `ov`,
/// holds for `q`, leaving the new value aside.
spec fn fork_lookup(
    m: Map<Seq<u8>, Seq<u8>>,
    p: Seq<u8>,
    slot: Option<(int, Seq<u8>)>,
    ov: Option<Seq<u8>>,
    q: Seq<u8>,
) -> Result<Option<Seq<u8>>, TrieError> {
    if !has_prefix(q, p) {
        Ok(None)
    } else if q.len() == p.len() {
        Ok(ov)
    } else if slot is Some && q[p.len() as int] == slot_index(slot) {
        lookup(m, slot_ref(slot), q.skip(p.len() + 1 as int))
    } else {
        Ok(None)
    }
}

spec fn fork_matches(
    m: Map<Seq<u8>, Seq<u8>>,
    n: NodeModel,
    p: Seq<u8>,
    slot: Option<(int, Seq<u8>)>,
    ov: Option<Seq<u8>>,
) -> bool {
    forall|q: Seq<u8>| #[trigger] lookup_in(m, n, q) is Ok ==> agrees(
        fork_lookup(m, p, slot, ov, q),
        lookup_in(m, n, q),
    )
}

proof fn lemma_split_eq(a: Seq<u8>, q: Seq<u8>, c: int)
    requires
        0 <= c < a.len(),
        c < q.len(),
        a.take(c) == q.take(c),
    ensures
        (a == q) <==> (a[c] == q[c] && a.skip(c + 1) == q.skip(c + 1)),
{
    let sa = a.skip(c + 1);
    let sq = q.skip(c + 1);
    if a[c] == q[c] && sa == sq {
        assert(sa.len() == sq.len());
        assert forall|i: int| 0 <= i < a.len() implies a[i] == q[i] by {
            if i < c {
                assert(a.take(c)[i] == a[i]);
                assert(q.take(c)[i] == q[i]);
            } else if i > c {
                assert(sa[i - c - 1] == a[i]);
                assert(sq[i - c - 1] == q[i]);
            }
        }
        assert(a =~= q);
    }
}

proof fn lemma_prefix_split(a: Seq<u8>, q: Seq<u8>, c: int)
    requires
        0 <= c < a.len(),
        has_prefix(q, a.take(c)),
    ensures
        has_prefix(q, a) <==> (q.len() > c && q[c] == a[c] && has_prefix(q.skip(c + 1), a.skip(c + 1))),
        has_prefix(q, a) ==> q.skip(a.len() as int) == q.skip(c + 1).skip(a.len() - c - 1),
{
    if has_prefix(q, a) {
        assert(q.take(a.len() as int)[c] == a[c]);
        assert(q.skip(c + 1).take(a.len() - c - 1) =~= a.skip(c + 1)) by {
            assert forall|i: int| 0 <= i < a.len() - c - 1 implies #[trigger] q.skip(c + 1)[i] == a.skip(
                c + 1,
            )[i] by {
                assert(q.take(a.len() as int)[c + 1 + i] == a[c + 1 + i]);
            }
        }
        assert(q.skip(a.len() as int) =~= q.skip(c + 1).skip(a.len() - c - 1));
    }
    if q.len() > c && q[c] == a[c] && has_prefix(q.skip(c + 1), a.skip(c + 1)) {
        assert(q.take(a.len() as int) =~= a) by {
            assert forall|i: int| 0 <= i < a.len() implies q[i] == a[i] by {
                if i < c {
                    assert(q.take(c)[i] == a.take(c)[i]);
                } else if i > c {
                    assert(q.skip(c + 1).take(a.len() - c - 1)[i - c - 1] == a.skip(c + 1)[i - c - 1]);
                }
            }
        }
    }
}

proof fn lemma_fork_branch(
    m0: Map<Seq<u8>, Seq<u8>>,
    mf: Map<Seq<u8>, Seq<u8>>,
    n: NodeModel,
    rest: Seq<u8>,
    c: int,
    slot: Option<(int, Seq<u8>)>,
    ov: Option<Seq<u8>>,
    cs: Seq<Seq<u8>>,
    bvv: Option<Seq<u8>>,
    b: Seq<u8>,
    new_ref: Seq<u8>,
    value: Seq<u8>,
    q: Seq<u8>,
)
    requires
        0 <= c <= rest.len(),
        m0.submap_of(mf),
        fork_matches(m0, n, rest.take(c), slot, ov),
        resolve_ref(mf, b) == Ok::<NodeModel, TrieError>(NodeModel::Branch(cs, bvv)),
        cs.len() == 16,
        bvv == (if c == rest.len() { opt_of(value) } else { ov }),
        slot matches Some((i, r)) ==> 0 <= i < 16 && cs[i] == r && (c < rest.len() ==> i
            != rest[c]),
        c < rest.len() ==> rest[c] < 16 && cs[rest[c] as int] == new_ref && resolve_ref(
            mf,
            new_ref,
        ) == Ok::<NodeModel, TrieError>(NodeModel::Leaf(rest.skip(c + 1), value)),
        forall|k: int|
            0 <= k < 16 && !(slot is Some && k == slot_index(slot)) && !(c < rest.len() && k
                == rest[c]) ==> (#[trigger] cs[k]).len() == 0,
        has_prefix(q, rest.take(c)),
        q != rest,
        lookup_in(m0, n, q) is Ok,
        is_nibbles(q),
    ensures
        agrees(lookup(mf, b, q.skip(c)), lookup_in(m0, n, q)),
{
    let t = q.skip(c);
    lemma_lookup_resolved(mf, b, NodeModel::Branch(cs, bvv), t);
    assert(q.take(c) == rest.take(c));
    if q.len() == c {
        if c == rest.len() {
            assert(q.take(c) =~= q);
            assert(rest.take(c) =~= rest);
        }
    } else {
        assert(t[0] == q[c]);
        assert(t.skip(1) == q.skip(c + 1));
        let k = q[c] as int;
        if slot is Some && k == slot_index(slot) {
            lemma_lookup_mono(m0, mf, slot_ref(slot), q.skip(c + 1));
        } else if c < rest.len() && k == rest[c] {
            lemma_lookup_resolved(mf, new_ref, NodeModel::Leaf(rest.skip(c + 1), value), t.skip(1));
            lemma_split_eq(rest, q, c);
        } else {
            lemma_lookup_resolved(mf, cs[k], NodeModel::Blank, t.skip(1));
        }
    }
}

proof fn lemma_fork_frame(
    m0: Map<Seq<u8>, Seq<u8>>,
    mf: Map<Seq<u8>, Seq<u8>>,
    n: NodeModel,
    rest: Seq<u8>,
    c: int,
    slot: Option<(int, Seq<u8>)>,
    ov: Option<Seq<u8>>,
    cs: Seq<Seq<u8>>,
    bvv: Option<Seq<u8>>,
    b: Seq<u8>,
    new_ref: Seq<u8>,
    value: Seq<u8>,
    x: Seq<u8>,
)
    requires
        0 <= c <= rest.len(),
        m0.submap_of(mf),
        fork_matches(m0, n, rest.take(c), slot, ov),
        resolve_ref(mf, b) == Ok::<NodeModel, TrieError>(NodeModel::Branch(cs, bvv)),
        c > 0 ==> resolve_ref(mf, x) == Ok::<NodeModel, TrieError>(
            NodeModel::Extension(rest.take(c), b),
        ),
        c == 0 ==> x == b,
        cs.len() == 16,
        bvv == (if c == rest.len() { opt_of(value) } else { ov }),
        slot matches Some((i, r)) ==> 0 <= i < 16 && cs[i] == r && (c < rest.len() ==> i
            != rest[c]),
        c < rest.len() ==> rest[c] < 16 && cs[rest[c] as int] == new_ref && resolve_ref(
            mf,
            new_ref,
        ) == Ok::<NodeModel, TrieError>(NodeModel::Leaf(rest.skip(c + 1), value)),
        forall|k: int|
            0 <= k < 16 && !(slot is Some && k == slot_index(slot)) && !(c < rest.len() && k
                == rest[c]) ==> (#[trigger] cs[k]).len() == 0,
    ensures
        same_off_path(m0, n, mf, x, rest),
{
    assert forall|q: Seq<u8>|
        q != rest && is_nibbles(q) && #[trigger] lookup_in(m0, n, q) is Ok implies agrees(
            lookup(mf, x, q),
            lookup_in(m0, n, q),
        ) by {
        if c > 0 {
            lemma_lookup_resolved(mf, x, NodeModel::Extension(rest.take(c), b), q);
        } else {
            assert(q.skip(0) == q);
            assert(q.take(0) =~= rest.take(0));
        }
        if has_prefix(q, rest.take(c)) {
            lemma_fork_branch(m0, mf, n, rest, c, slot, ov, cs, bvv, b, new_ref, value, q);
        }
    }
}

/// Off the path `rest`, the subtree at `r2` in `m2` holds what the subtree
/// at `r1` holds in `m1`.
pub open spec fn keeps_off_path(
    m1: Map<Seq<u8>, Seq<u8>>,
    r1: Seq<u8>,
    m2: Map<Seq<u8>, Seq<u8>>,
    r2: Seq<u8>,
    rest: Seq<u8>,
) -> bool {
    forall|q: Seq<u8>|
        q != rest && is_nibbles(q) && #[trigger] lookup(m1, r1, q) is Ok ==> agrees(
            lookup(m2, r2, q),
            lookup(m1, r1, q),
        )
}

proof fn lemma_skip_differs(a: Seq<u8>, q: Seq<u8>, rest: Seq<u8>)
    requires
        has_prefix(q, a),
        has_prefix(rest, a),
        q != rest,
        is_nibbles(q),
    ensures
        q.skip(a.len() as int) != rest.skip(a.len() as int),
        is_nibbles(q.skip(a.len() as int)),
{
    let k = a.len() as int;
    assert forall|i: int| 0 <= i < q.skip(k).len() implies #[trigger] q.skip(k)[i] < 16 by {
        assert(q.skip(k)[i] == q[i + k]);
    }
    if q.skip(k) == rest.skip(k) {
        assert(q.skip(k).len() == rest.skip(k).len());
        assert(q.len() == rest.len());
        assert forall|i: int| 0 <= i < q.len() implies q[i] == rest[i] by {
            if i < k {
                assert(q.take(k)[i] == rest.take(k)[i]);
            } else {
                assert(q.skip(k)[i - k] == rest.skip(k)[i - k]);
            }
        }
        assert(q =~= rest);
    }
}

proof fn lemma_same_off_path_mono(
    m0: Map<Seq<u8>, Seq<u8>>,
    m1: Map<Seq<u8>, Seq<u8>>,
    n: NodeModel,
    m2: Map<Seq<u8>, Seq<u8>>,
    r2: Seq<u8>,
    rest: Seq<u8>,
)
    requires
        m0.submap_of(m1),
        same_off_path(m1, n, m2, r2, rest),
    ensures
        same_off_path(m0, n, m2, r2, rest),
{
    assert forall|q: Seq<u8>|
        q != rest && is_nibbles(q) && #[trigger] lookup_in(m0, n, q) is Ok implies agrees(
            lookup(m2, r2, q),
            lookup_in(m0, n, q),
        ) by {
        lemma_lookup_in_mono(m0, m1, n, q);
    }
}

proof fn lemma_ref_frame(
    m0: Map<Seq<u8>, Seq<u8>>,
    r: Seq<u8>,
    n: NodeModel,
    mf: Map<Seq<u8>, Seq<u8>>,
    x: Seq<u8>,
    rest: Seq<u8>,
)
    requires
        resolve_ref(m0, r) == Ok::<NodeModel, TrieError>(n),
        same_off_path(m0, n, mf, x, rest),
    ensures
        keeps_off_path(m0, r, mf, x, rest),
{
    assert forall|q: Seq<u8>|
        q != rest && is_nibbles(q) && #[trigger] lookup(m0, r, q) is Ok implies agrees(
            lookup(mf, x, q),
            lookup(m0, r, q),
        ) by {
        lemma_lookup_resolved(m0, r, n, q);
    }
}

proof fn lemma_ext_frame(
    m0: Map<Seq<u8>, Seq<u8>>,
    mc: Map<Seq<u8>, Seq<u8>>,
    mf: Map<Seq<u8>, Seq<u8>>,
    ep: Seq<u8>,
    child: Seq<u8>,
    nc: Seq<u8>,
    x: Seq<u8>,
    rest: Seq<u8>,
)
    requires
        mc.submap_of(mf),
        ep.len() > 0,
        has_prefix(rest, ep),
        keeps_off_path(m0, child, mc, nc, rest.skip(ep.len() as int)),
        resolve_ref(mf, x) == Ok::<NodeModel, TrieError>(NodeModel::Extension(ep, nc)),
    ensures
        same_off_path(m0, NodeModel::Extension(ep, child), mf, x, rest),
{
    assert forall|q: Seq<u8>|
        q != rest && is_nibbles(q) && #[trigger] lookup_in(m0, NodeModel::Extension(ep, child), q)
            is Ok implies agrees(lookup(mf, x, q), lookup_in(m0, NodeModel::Extension(ep, child), q)) by {
        lemma_lookup_resolved(mf, x, NodeModel::Extension(ep, nc), q);
        if has_prefix(q, ep) {
            let t = q.skip(ep.len() as int);
            lemma_skip_differs(ep, q, rest);
            assert(lookup(m0, child, t) is Ok);
            lemma_lookup_mono(mc, mf, nc, t);
        }
    }
}

proof fn lemma_branch_frame(
    m0: Map<Seq<u8>, Seq<u8>>,
    mc: Map<Seq<u8>, Seq<u8>>,
    mf: Map<Seq<u8>, Seq<u8>>,
    cs0: Seq<Seq<u8>>,
    cs: Seq<Seq<u8>>,
    bv: Option<Seq<u8>>,
    idx: int,
    nc: Seq<u8>,
    x: Seq<u8>,
    rest: Seq<u8>,
)
    requires
        m0.submap_of(mf),
        mc.submap_of(mf),
        cs0.len() == 16,
        cs.len() == 16,
        rest.len() > 0,
        rest[0] == idx,
        cs[idx] == nc,
        forall|i: int| 0 <= i < 16 && i != idx ==> #[trigger] cs[i] == cs0[i],
        keeps_off_path(m0, cs0[idx], mc, nc, rest.skip(1)),
        resolve_ref(mf, x) == Ok::<NodeModel, TrieError>(NodeModel::Branch(cs, bv)),
    ensures
        same_off_path(m0, NodeModel::Branch(cs0, bv), mf, x, rest),
{
    assert forall|q: Seq<u8>|
        q != rest && is_nibbles(q) && #[trigger] lookup_in(m0, NodeModel::Branch(cs0, bv), q)
            is Ok implies agrees(lookup(mf, x, q), lookup_in(m0, NodeModel::Branch(cs0, bv), q)) by {
        lemma_lookup_resolved(mf, x, NodeModel::Branch(cs, bv), q);
        if q.len() > 0 {
            let k = q[0] as int;
            if k == idx {
                let a = seq![q[0]];
                assert(q.take(1) =~= a);
                assert(rest.take(1) =~= a);
                lemma_skip_differs(a, q, rest);
                assert(lookup(m0, cs0[idx], q.skip(1)) is Ok);
                lemma_lookup_mono(mc, mf, nc, q.skip(1));
            } else {
                lemma_lookup_mono(m0, mf, cs0[k], q.skip(1));
            }
        }
    }
}

proof fn lemma_branch_value_frame(
    m0: Map<Seq<u8>, Seq<u8>>,
    mf: Map<Seq<u8>, Seq<u8>>,
    cs: Seq<Seq<u8>>,
    bv: Option<Seq<u8>>,
    v: Option<Seq<u8>>,
    x: Seq<u8>,
    rest: Seq<u8>,
)
    requires
        m0.submap_of(mf),
        rest.len() == 0,
        resolve_ref(mf, x) == Ok::<NodeModel, TrieError>(NodeModel::Branch(cs, v)),
    ensures
        same_off_path(m0, NodeModel::Branch(cs, bv), mf, x, rest),
{
    assert forall|q: Seq<u8>|
        q != rest && is_nibbles(q) && #[trigger] lookup_in(m0, NodeModel::Branch(cs, bv), q)
            is Ok implies lookup(mf, x, q) == lookup_in(m0, NodeModel::Branch(cs, bv), q) by {
        lemma_lookup_resolved(mf, x, NodeModel::Branch(cs, v), q);
        if q.len() == 0 {
            assert(q =~= rest);
        } else {
            lemma_lookup_mono(m0, mf, cs[q[0] as int], q.skip(1));
        }
    }
}

proof fn lemma_leaf_frame(
    m0: Map<Seq<u8>, Seq<u8>>,
    mf: Map<Seq<u8>, Seq<u8>>,
    n: NodeModel,
    x: Seq<u8>,
    rest: Seq<u8>,
    value: Seq<u8>,
)
    requires
        n is Blank || n == NodeModel::Leaf(rest, n->Leaf_1),
        resolve_ref(mf, x) == Ok::<NodeModel, TrieError>(NodeModel::Leaf(rest, value)),
    ensures
        same_off_path(m0, n, mf, x, rest),
{
    assert forall|q: Seq<u8>|
        q != rest && is_nibbles(q) && #[trigger] lookup_in(m0, n, q) is Ok implies agrees(
            lookup(mf, x, q),
            lookup_in(m0, n, q),
        ) by {
        lemma_lookup_resolved(mf, x, NodeModel::Leaf(rest, value), q);
    }
}

/// Builds the fork where `path[pos..]` parts from an existing subtree after
/// `c` shared nibbles: a branch holding `old_slot` (the existing subtree's
/// reference at its next nibble) or `old_value`, and the new value; under an
/// extension over the shared nibbles when there are any.
#[verifier::rlimit(80)]
fn build_fork(
    store: &mut NodeStore,
    path: &Vec<u8>,
    pos: usize,
    c: usize,
    old_slot: Option<(usize, Vec<u8>)>,
    old_value: Option<Vec<u8>>,
    value: &Vec<u8>,
    Ghost(old_node): Ghost<NodeModel>,
) -> (res: Result<Vec<u8>, TrieError>)
    requires
        fork_matches(
            old(store)@,
            old_node,
            path@.skip(pos as int).take(c as int),
            slot_view(old_slot),
            opt_view(old_value),
        ),
        is_nibbles(path@),
        pos + c <= path.len(),
        match old_slot {
            None => true,
            Some((i, r)) => i < 16 && r@.len() <= INLINE_LIMIT && (pos + c < path.len() ==> i
                != path@[pos + c]),
        },
        match old_value {
            None => true,
            Some(v) => v@.len() > 0 && pos + c < path.len(),
        },
    ensures
        old(store)@.submap_of(final(store)@),
        content_addressed(old(store)@) ==> content_addressed(final(store)@),
        res is Err && res->Err_0 == TrieError::StorageFailure ==> meets_collision(final(store)@),
        res is Ok ==> res->Ok_0@.len() <= INLINE_LIMIT,
        res is Ok ==> canonical_path(final(store)@, res->Ok_0@, path@.skip(pos as int)),
        res is Ok ==> holds_value(lookup(final(store)@, res->Ok_0@, path@.skip(pos as int)), value@),
        res matches Err(e) ==> e == TrieError::StorageFailure,
        res is Ok ==> same_off_path(
            old(store)@,
            old_node,
            final(store)@,
            res->Ok_0@,
            path@.skip(pos as int),
        ),
{
    let ghost rest = path@.skip(pos as int);
    let ghost m0 = store@;
    let ghost slot = slot_view(old_slot);
    let ghost ov = opt_view(old_value);
    let len = path.len();
    assert(value@.subrange(0, value@.len() as int) == value@);
    let mut children = blank_children();
    let ghost blank = children@;
    let mut bv: Option<Vec<u8>> = old_value;
    match old_slot {
        None => {},
        Some((i, r)) => {
            children[i] = r;
        },
    }
    let ghost mut m_new = store@;
    let ghost mut new_ref: Seq<u8> = seq![];
    if c == len - pos {
        bv = slot_of(copy_slice(value, 0, value.len()));
    } else {
        let idx = path[pos + c] as usize;
        let sub = Node::Leaf { path: copy_slice(path, pos + c + 1, len), value: copy_slice(value, 0, value.len()) };
        let sr = store_node(store, &sub)?;
        proof {
            m_new = store@;
            new_ref = sr@;
            lemma_leaf_finds(store@, sr@, path@.subrange(pos + c + 1, len as int), value@);
        }
        children[idx] = sr;
    }
    let ghost cs = children@.map_values(|v: Vec<u8>| v@);
    let ghost bvv = opt_view(bv);
    proof {
        assert forall|k: int| 0 <= k < 16 implies #[trigger] cs[k] == children@[k]@ by {}
        assert forall|k: int|
            0 <= k < 16 && !(slot is Some && k == slot_index(slot)) && !(c < len - pos && k
                == rest[c as int]) implies (#[trigger] cs[k]).len() == 0 by {
            assert(children@[k] == blank[k]);
        }
        if c < len - pos {
            assert(rest[c as int] == path@[pos + c]);
            assert(rest.skip(c + 1) == path@.subrange(pos + c + 1, len as int));
            assert(cs[rest[c as int] as int] == new_ref);
        }
    }
    let branch = Node::Branch { children, value: bv };
    let b = store_node(store, &branch)?;
    proof {
        let q = rest.skip(c as int);
        if c < len - pos {
            assert(q.skip(1) == path@.subrange(pos + c + 1, len as int));
            assert(cs[q[0] as int] == new_ref);
            lemma_lookup_mono(m_new, store@, new_ref, q.skip(1));
            lemma_canonical_ref_mono(m_new, store@, new_ref);
            assert(canonical_path(store@, new_ref, q.skip(1)));
        }
        lemma_branch_finds(store@, b@, cs, bvv, q, value@);
        assert(canonical_path(store@, b@, q));
    }
    if c > 0 {
        let ext = Node::Extension { path: copy_slice(path, pos, pos + c), child: b };
        let ghost m_b = store@;
        let x = store_node(store, &ext)?;
        proof {
            let q = rest.skip(c as int);
            lemma_canonical_path_mono(m_b, store@, b@, q);
            lemma_lookup_mono(m_b, store@, b@, q);
            assert(rest.take(c as int) == path@.subrange(pos as int, pos + c));
            lemma_extension_finds(store@, x@, path@.subrange(pos as int, pos + c), b@, rest, value@);
            assert(canonical_path(store@, x@, rest));
            let p = path@.subrange(pos as int, pos + c);
            assert(p == rest.take(c as int));
            lemma_resolve_mono(m_b, store@, b@);
            if c < len - pos {
                lemma_resolve_mono(m_new, store@, new_ref);
            }
            lemma_fork_frame(m0, store@, old_node, rest, c as int, slot, ov, cs, bvv, b@, new_ref, value@, x@);
        }
        Ok(x)
    } else {
        assert(rest.skip(0) == rest);
        proof {
            if c < len - pos {
                lemma_resolve_mono(m_new, store@, new_ref);
            }
            lemma_fork_frame(m0, store@, old_node, rest, c as int, slot, ov, cs, bvv, b@, new_ref, value@, b@);
        }
        Ok(b)
    }
}

/// `insert_at` where the subtree is the leaf `lp` / `lv`.
fn insert_into_leaf(
    store: &mut NodeStore,
    lp: Vec<u8>,
    lv: Vec<u8>,
    path: &Vec<u8>,
    pos: usize,
    value: &Vec<u8>,
) -> (res: Result<Vec<u8>, TrieError>)
    requires
        is_nibbles(path@),
        is_nibbles(lp@),
        pos <= path.len(),
    ensures
        res is Ok ==> same_off_path(
            old(store)@,
            NodeModel::Leaf(lp@, lv@),
            final(store)@,
            res->Ok_0@,
            path@.skip(pos as int),
        ),
        old(store)@.submap_of(final(store)@),
        content_addressed(old(store)@) ==> content_addressed(final(store)@),
        res is Err && res->Err_0 == TrieError::StorageFailure ==> meets_collision(final(store)@),
        res is Ok ==> res->Ok_0@.len() <= INLINE_LIMIT,
        res is Ok ==> canonical_path(final(store)@, res->Ok_0@, path@.skip(pos as int)),
        lp@ == path@.skip(pos as int) && lv@ == value@ && holds_node(
            old(store)@,
            NodeModel::Leaf(lp@, lv@),
        ) ==> res is Ok && res->Ok_0@ == node_ref(NodeModel::Leaf(lp@, lv@)),
        res is Ok ==> holds_value(lookup(final(store)@, res->Ok_0@, path@.skip(pos as int)), value@),
        res matches Err(e) ==> e == TrieError::StorageFailure,
{
    let ghost rest = path@.skip(pos as int);
    let ghost m_start = store@;
    let len = path.len();
    let c = common_len(&lp, 0, path, pos);
    assert(value@.subrange(0, value@.len() as int) == value@);
    if c == lp.len() && c == len - pos {
        assert(lp@.subrange(0, c as int) == lp@);
        assert(path@.subrange(pos as int, pos + c) == rest);
        let leaf = Node::Leaf { path: lp, value: copy_slice(value, 0, value.len()) };
        let x = store_node(store, &leaf)?;
        proof {
            lemma_leaf_finds(store@, x@, rest, value@);
            lemma_leaf_frame(m_start, store@, NodeModel::Leaf(lp@, lv@), x@, rest, value@);
        }
        return Ok(x);
    }
    let ghost old_node = NodeModel::Leaf(lp@, lv@);
    let ghost p = rest.take(c as int);
    assert(lp@.subrange(0, c as int) == path@.subrange(pos as int, pos + c));
    assert(lp@.take(c as int) == p);
    if c == lp.len() {
        proof {
            assert forall|q: Seq<u8>| #[trigger] lookup_in(store@, old_node, q) is Ok implies agrees(
                fork_lookup(store@, p, None, opt_of(lv@), q),
                lookup_in(store@, old_node, q),
            ) by {
                assert(lp@.take(c as int) =~= lp@);
                if lv@.len() == 0 {
                    assert(lv@ =~= Seq::<u8>::empty());
                }
                if has_prefix(q, p) && q.len() == c {
                    assert(q =~= lp@);
                }
            }
        }
        build_fork(store, path, pos, c, None, slot_of(lv), value, Ghost(old_node))
    } else {
        let idx = lp[c] as usize;
        let sub = Node::Leaf { path: copy_slice(&lp, c + 1, lp.len()), value: lv };
        let ghost m_in = store@;
        let sr = store_node(store, &sub)?;
        proof {
            let slot = Some((idx as int, sr@));
            assert(lp@.subrange(c + 1, lp@.len() as int) == lp@.skip(c + 1));
            assert forall|q: Seq<u8>| #[trigger] lookup_in(store@, old_node, q) is Ok implies lookup_in(
                store@,
                old_node,
                q,
            ) == fork_lookup(store@, p, slot, None, q) by {
                if has_prefix(q, p) && q.len() > c {
                    assert(q.take(c as int) == p);
                    lemma_split_eq(lp@, q, c as int);
                    lemma_lookup_resolved(store@, sr@, NodeModel::Leaf(lp@.skip(c + 1), lv@), q.skip(c + 1));
                }
                if lp@ == q {
                    assert(q.take(c as int) == p);
                }
            }
        }
        let ghost m_sr = store@;
        let res = build_fork(store, path, pos, c, Some((idx, sr)), None, value, Ghost(old_node));
        proof {
            if res is Ok {
                lemma_same_off_path_mono(m_start, m_sr, old_node, store@, res->Ok_0@, rest);
            }
        }
        res
    }
}

/// `insert_at` where the subtree is the extension `ep` over `child`.
#[verifier::rlimit(80)]
fn insert_into_extension(
    store: &mut NodeStore,
    ep: Vec<u8>,
    child: Vec<u8>,
    path: &Vec<u8>,
    pos: usize,
    value: &Vec<u8>,
) -> (res: Result<Vec<u8>, TrieError>)
    requires
        is_nibbles(path@),
        is_nibbles(ep@),
        ep@.len() > 0,
        child@.len() <= INLINE_LIMIT,
        pos <= path.len(),
    ensures
        res is Ok ==> same_off_path(
            old(store)@,
            NodeModel::Extension(ep@, child@),
            final(store)@,
            res->Ok_0@,
            path@.skip(pos as int),
        ),
        old(store)@.submap_of(final(store)@),
        content_addressed(old(store)@) ==> content_addressed(final(store)@),
        res is Err && res->Err_0 == TrieError::StorageFailure ==> meets_collision(final(store)@),
        res is Ok ==> res->Ok_0@.len() <= INLINE_LIMIT,
        res is Ok ==> canonical_path(final(store)@, res->Ok_0@, path@.skip(pos as int)),
        has_prefix(path@.skip(pos as int), ep@) && lookup(
            old(store)@,
            child@,
            path@.skip(pos as int).skip(ep@.len() as int),
        ) == Ok::<Option<Seq<u8>>, TrieError>(Some(value@)) && canonical_path(
            old(store)@,
            child@,
            path@.skip(pos as int).skip(ep@.len() as int),
        ) && holds_node(old(store)@, NodeModel::Extension(ep@, child@)) ==> res is Ok
            && res->Ok_0@ == node_ref(NodeModel::Extension(ep@, child@)),
        res is Ok ==> holds_value(lookup(final(store)@, res->Ok_0@, path@.skip(pos as int)), value@),
        res is Err && res->Err_0 != TrieError::StorageFailure ==> lookup_in(
            old(store)@,
            NodeModel::Extension(ep@, child@),
            path@.skip(pos as int),
        ) == Err::<Option<Seq<u8>>, TrieError>(res->Err_0),
        lookup_in(old(store)@, NodeModel::Extension(ep@, child@), path@.skip(pos as int)) is Err ==> res is Err
            && res->Err_0 == lookup_in(old(store)@, NodeModel::Extension(ep@, child@), path@.skip(pos as int))->Err_0,
    decreases path.len() - pos, 0nat,
{
    let ghost rest = path@.skip(pos as int);
    let ghost m_start = store@;
    let c = common_len(&ep, 0, path, pos);
    if c == ep.len() {
        proof {
            assert(rest.skip(c as int) == path@.skip(pos + c));
            assert(ep@.subrange(0, c as int) == ep@);
            assert(rest.take(c as int) == path@.subrange(pos as int, pos + c));
        }
        let nc = insert_at(store, &child, path, pos + c, value)?;
        let ghost m_c = store@;
        let ghost ncv = nc@;
        let ghost epv = ep@;
        let ext = Node::Extension { path: ep, child: nc };
        let x = store_node(store, &ext)?;
        proof {
            assert(rest.skip(c as int) == path@.skip(pos + c));
            lemma_lookup_mono(m_c, store@, ncv, rest.skip(c as int));
            assert(epv.subrange(0, c as int) == epv);
            assert(rest.take(c as int) == path@.subrange(pos as int, pos + c));
            lemma_extension_finds(store@, x@, epv, ncv, rest, value@);
            lemma_canonical_path_mono(m_c, store@, ncv, rest.skip(c as int));
            assert(canonical_path(store@, x@, rest));
            lemma_ext_frame(m_start, m_c, store@, epv, child@, ncv, x@, rest);
        }
        return Ok(x);
    }
    let idx = ep[c] as usize;
    let ghost old_node = NodeModel::Extension(ep@, child@);
    let ghost p = rest.take(c as int);
    let ghost m_in = store@;
    assert(ep@.subrange(0, c as int) == path@.subrange(pos as int, pos + c));
    assert(ep@.take(c as int) == p);
    if c + 1 == ep.len() {
        proof {
            let slot = Some((idx as int, child@));
            assert forall|q: Seq<u8>| #[trigger] lookup_in(store@, old_node, q) is Ok implies lookup_in(
                store@,
                old_node,
                q,
            ) == fork_lookup(store@, p, slot, None, q) by {
                if has_prefix(q, p) {
                    lemma_prefix_split(ep@, q, c as int);
                    assert(ep@.skip(c + 1) =~= Seq::<u8>::empty());
                    assert(q.skip(c + 1).skip(0) == q.skip(c + 1));
                    assert(q.skip(c + 1).take(0) =~= Seq::<u8>::empty());
                } else {
                    if has_prefix(q, ep@) {
                        assert(q.take(c as int) =~= ep@.take(c as int));
                    }
                }
            }
        }
        build_fork(store, path, pos, c, Some((idx, child)), None, value, Ghost(old_node))
    } else {
        let sub = Node::Extension { path: copy_slice(&ep, c + 1, ep.len()), child };
        let sr = store_node(store, &sub)?;
        let ghost m_sr = store@;
        proof {
            let slot = Some((idx as int, sr@));
            let tail = ep@.skip(c + 1);
            assert(ep@.subrange(c + 1, ep@.len() as int) == tail);
            assert forall|q: Seq<u8>| #[trigger] lookup_in(store@, old_node, q) is Ok implies lookup_in(
                store@,
                old_node,
                q,
            ) == fork_lookup(store@, p, slot, None, q) by {
                if has_prefix(q, p) {
                    lemma_prefix_split(ep@, q, c as int);
                    if q.len() > c {
                        lemma_lookup_resolved(store@, sr@, NodeModel::Extension(tail, child@), q.skip(c + 1));
                    }
                } else {
                    if has_prefix(q, ep@) {
                        assert(q.take(c as int) =~= ep@.take(c as int));
                    }
                }
            }
        }
        let res = build_fork(store, path, pos, c, Some((idx, sr)), None, value, Ghost(old_node));
        proof {
            if res is Ok {
                lemma_same_off_path_mono(m_start, m_sr, old_node, store@, res->Ok_0@, rest);
            }
        }
        res
    }
}

/// `insert_at` where the subtree is a branch.
fn insert_into_branch(
    store: &mut NodeStore,
    children: Vec<Vec<u8>>,
    bv: Option<Vec<u8>>,
    path: &Vec<u8>,
    pos: usize,
    value: &Vec<u8>,
) -> (res: Result<Vec<u8>, TrieError>)
    requires
        is_nibbles(path@),
        well_formed(NodeModel::Branch(children@.map_values(|c: Vec<u8>| c@), opt_view(bv))),
        pos <= path.len(),
    ensures
        res is Ok ==> same_off_path(
            old(store)@,
            NodeModel::Branch(children@.map_values(|c: Vec<u8>| c@), opt_view(bv)),
            final(store)@,
            res->Ok_0@,
            path@.skip(pos as int),
        ),
        old(store)@.submap_of(final(store)@),
        content_addressed(old(store)@) ==> content_addressed(final(store)@),
        res is Err && res->Err_0 == TrieError::StorageFailure ==> meets_collision(final(store)@),
        res is Ok ==> res->Ok_0@.len() <= INLINE_LIMIT,
        res is Ok ==> canonical_path(final(store)@, res->Ok_0@, path@.skip(pos as int)),
        holds_node(
            old(store)@,
            NodeModel::Branch(children@.map_values(|c: Vec<u8>| c@), opt_view(bv)),
        ) && (pos == path.len() ==> opt_view(bv) == Some(value@)) && (pos < path.len() ==> lookup(
            old(store)@,
            children@[path@[pos as int] as int]@,
            path@.skip(pos + 1),
        ) == Ok::<Option<Seq<u8>>, TrieError>(Some(value@)) && canonical_path(
            old(store)@,
            children@[path@[pos as int] as int]@,
            path@.skip(pos + 1),
        )) ==> res is Ok && res->Ok_0@ == node_ref(
            NodeModel::Branch(children@.map_values(|c: Vec<u8>| c@), opt_view(bv)),
        ),
        res is Ok ==> holds_value(lookup(final(store)@, res->Ok_0@, path@.skip(pos as int)), value@),
        res is Err && res->Err_0 != TrieError::StorageFailure ==> lookup_in(
            old(store)@,
            NodeModel::Branch(children@.map_values(|c: Vec<u8>| c@), opt_view(bv)),
            path@.skip(pos as int),
        ) == Err::<Option<Seq<u8>>, TrieError>(res->Err_0),
        lookup_in(old(store)@, NodeModel::Branch(children@.map_values(|c: Vec<u8>| c@), opt_view(bv)), path@.skip(pos as int)) is Err ==> res is Err
            && res->Err_0 == lookup_in(old(store)@, NodeModel::Branch(children@.map_values(|c: Vec<u8>| c@), opt_view(bv)), path@.skip(pos as int))->Err_0,
        res is Ok && pos < path.len() ==> resolve_ref(final(store)@, res->Ok_0@) is Ok
            && shares_siblings(
            NodeModel::Branch(children@.map_values(|c: Vec<u8>| c@), opt_view(bv)),
            resolve_ref(final(store)@, res->Ok_0@)->Ok_0,
            path@[pos as int] as int,
        ),
    decreases path.len() - pos, 0nat,
{
    let ghost rest = path@.skip(pos as int);
    let ghost m_start = store@;
    let ghost csv0 = children@.map_values(|c: Vec<u8>| c@);
    let mut children = children;
    assert(value@.subrange(0, value@.len() as int) == value@);
    let ghost br = NodeModel::Branch(children@.map_values(|c: Vec<u8>| c@), opt_view(bv));
    if pos == path.len() {
        let branch = Node::Branch { children, value: slot_of(copy_slice(value, 0, value.len())) };
        proof {
            if opt_view(bv) == Some(value@) {
                assert(branch@ == br);
            }
        }
        let x = store_node(store, &branch)?;
        proof {
            assert(canonical_path(store@, x@, rest));
            assert(rest.len() == 0);
            lemma_branch_value_frame(m_start, store@, csv0, opt_view(bv), opt_of(value@), x@, rest);
        }
        return Ok(x);
    }
    let idx = path[pos] as usize;
    let ghost cs0 = children@;
    assert(cs0.map_values(|c: Vec<u8>| c@)[idx as int] == cs0[idx as int]@);
    assert(rest.skip(1) == path@.skip(pos + 1));
    let nc = insert_at(store, &children[idx], path, pos + 1, value)?;
    let ghost m_c = store@;
    let ghost ncv = nc@;
    children[idx] = nc;
    assert forall|i: int| 0 <= i < 16 implies (#[trigger] children@[i])@.len()
        <= INLINE_LIMIT by {
        assert(cs0.map_values(|c: Vec<u8>| c@)[i] == cs0[i]@);
    }
    let ghost cs = children@.map_values(|v: Vec<u8>| v@);
    let ghost bvv = opt_view(bv);
    proof {
        if ncv == cs0[idx as int]@ {
            assert(cs =~= cs0.map_values(|c: Vec<u8>| c@));
        }
    }
    let branch = Node::Branch { children, value: bv };
    let x = store_node(store, &branch)?;
    proof {
        assert(rest.skip(1) == path@.skip(pos + 1));
        assert(cs[rest[0] as int] == ncv);
        lemma_lookup_mono(m_c, store@, ncv, rest.skip(1));
        lemma_branch_finds(store@, x@, cs, bvv, rest, value@);
        lemma_canonical_path_mono(m_c, store@, ncv, rest.skip(1));
        assert(canonical_path(store@, x@, rest));
        assert(csv0 == cs0.map_values(|c: Vec<u8>| c@));
        assert(csv0[idx as int] == cs0[idx as int]@);
        assert forall|i: int| 0 <= i < 16 && i != idx implies #[trigger] cs[i] == csv0[i] by {
            assert(cs0.map_values(|c: Vec<u8>| c@)[i] == cs0[i]@);
        }
        lemma_branch_frame(m_start, m_c, store@, csv0, cs, bvv, idx as int, ncv, x@, rest);
        assert forall|i: int| 0 <= i < 16 && i != idx implies #[trigger] cs[i] == cs0.map_values(
            |c: Vec<u8>| c@,
        )[i] by {
            assert(cs0.map_values(|c: Vec<u8>| c@)[i] == cs0[i]@);
        }
    }
    Ok(x)
}

/// Sets `path[pos..]` to `value` in the subtree at `r`; returns the
/// reference of the rebuilt subtree, which then holds `value` there.
fn insert_at(store: &mut NodeStore, r: &Vec<u8>, path: &Vec<u8>, pos: usize, value: &Vec<u8>) -> (res:
    Result<Vec<u8>, TrieError>)
    requires
        is_nibbles(path@),
        pos <= path.len(),
    ensures
        res is Ok ==> keeps_off_path(
            old(store)@,
            r@,
            final(store)@,
            res->Ok_0@,
            path@.skip(pos as int),
        ),
        old(store)@.submap_of(final(store)@),
        content_addressed(old(store)@) ==> content_addressed(final(store)@),
        res is Err && res->Err_0 == TrieError::StorageFailure ==> meets_collision(final(store)@),
        res is Ok ==> res->Ok_0@.len() <= INLINE_LIMIT,
        res is Ok ==> canonical_path(final(store)@, res->Ok_0@, path@.skip(pos as int)),
        lookup(old(store)@, r@, path@.skip(pos as int)) == Ok::<Option<Seq<u8>>, TrieError>(
            Some(value@),
        ) && canonical_path(old(store)@, r@, path@.skip(pos as int)) ==> res is Ok && res->Ok_0@
            == r@,
        res is Ok ==> holds_value(lookup(final(store)@, res->Ok_0@, path@.skip(pos as int)), value@),
        res is Err && res->Err_0 != TrieError::StorageFailure ==> lookup(
            old(store)@,
            r@,
            path@.skip(pos as int),
        ) == Err::<Option<Seq<u8>>, TrieError>(res->Err_0),
        lookup(old(store)@, r@, path@.skip(pos as int)) is Err ==> res is Err && res->Err_0
            == lookup(old(store)@, r@, path@.skip(pos as int))->Err_0,
        res is Ok && pos < path.len() && resolve_ref(old(store)@, r@) is Ok && resolve_ref(
            old(store)@,
            r@,
        )->Ok_0 is Branch ==> resolve_ref(final(store)@, res->Ok_0@) is Ok && shares_siblings(
            resolve_ref(old(store)@, r@)->Ok_0,
            resolve_ref(final(store)@, res->Ok_0@)->Ok_0,
            path@[pos as int] as int,
        ),
        res is Ok && resolve_ref(old(store)@, r@) == Ok::<NodeModel, TrieError>(NodeModel::Blank)
            ==> resolve_ref(final(store)@, res->Ok_0@) == Ok::<NodeModel, TrieError>(
            NodeModel::Leaf(path@.skip(pos as int), value@),
        ),
    decreases path.len() - pos, 1nat,
{
    let ghost rest = path@.skip(pos as int);
    let ghost m_start = store@;
    let node = read_node(store, r)?;
    proof {
        lemma_lookup_resolved(store@, r@, node@, rest);
        if canonical_path(store@, r@, rest) {
            lemma_canonical_holds(store@, r@);
        }
    }
    let len = path.len();
    match node {
        Node::Blank => {
            let leaf = Node::Leaf { path: copy_slice(path, pos, len), value: copy_slice(value, 0, value.len()) };
            assert(path@.subrange(pos as int, len as int) == rest);
            assert(value@.subrange(0, value@.len() as int) == value@);
            let x = store_node(store, &leaf)?;
            proof {
                lemma_leaf_finds(store@, x@, rest, value@);
                lemma_leaf_frame(m_start, store@, NodeModel::Blank, x@, rest, value@);
                lemma_ref_frame(m_start, r@, NodeModel::Blank, store@, x@, rest);
            }
            Ok(x)
        },
        Node::Leaf { path: lp, value: lv } => {
            let ghost n = node@;
            let res = insert_into_leaf(store, lp, lv, path, pos, value);
            proof {
                if res is Ok {
                    lemma_ref_frame(m_start, r@, n, store@, res->Ok_0@, rest);
                }
            }
            res
        },
        Node::Extension { path: ep, child } => {
            if ep.len() == 0 {
                return Err(TrieError::CorruptNode);
            }
            let ghost n = node@;
            let res = insert_into_extension(store, ep, child, path, pos, value);
            proof {
                if res is Ok {
                    lemma_ref_frame(m_start, r@, n, store@, res->Ok_0@, rest);
                }
            }
            res
        },
        Node::Branch { children, value: bv } => {
            proof {
                if pos < len {
                    assert(rest[0] == path@[pos as int]);
                    assert(rest.skip(1) == path@.skip(pos + 1));
                    assert(children@.map_values(|c: Vec<u8>| c@)[rest[0] as int]
                        == children@[path@[pos as int] as int]@);
                }
            }
            let ghost n = node@;
            let res = insert_into_branch(store, children, bv, path, pos, value);
            proof {
                if res is Ok {
                    lemma_ref_frame(m_start, r@, n, store@, res->Ok_0@, rest);
                }
            }
            res
        },
    }
}

/// `a` followed by `b`.
fn concat(a: &Vec<u8>, b: &Vec<u8>) -> (r: Vec<u8>)
    ensures
        r@ == a@ + b@,
{
    let mut x = copy_slice(a, 0, a.len());
    let mut y = copy_slice(b, 0, b.len());
    assert(a@.subrange(0, a@.len() as int) == a@);
    assert(b@.subrange(0, b@.len() as int) == b@);
    x.append(&mut y);
    x
}

proof fn lemma_nibbles_concat(a: Seq<u8>, b: Seq<u8>)
    requires
        is_nibbles(a),
        is_nibbles(b),
    ensures
        is_nibbles(a + b),
{
    assert forall|i: int| 0 <= i < (a + b).len() implies #[trigger] (a + b)[i] < 16 by {
        if i >= a.len() {
            assert((a + b)[i] == b[i - a.len()]);
        }
    }
}

proof fn lemma_join_leaf(prefix: Seq<u8>, p: Seq<u8>, rest: Seq<u8>)
    ensures
        has_prefix(rest, prefix) ==> ((prefix + p == rest) <==> (p == rest.skip(
            prefix.len() as int,
        ))),
        prefix + p == rest ==> has_prefix(rest, prefix),
{
    let k = prefix.len() as int;
    let pp = prefix + p;
    if has_prefix(rest, prefix) {
        if p == rest.skip(k) {
            assert(pp =~= rest);
        }
        if pp == rest {
            assert(rest.skip(k) =~= p);
        }
    }
    if pp == rest {
        assert(rest.take(k) =~= prefix);
    }
}

proof fn lemma_join_extension(prefix: Seq<u8>, p: Seq<u8>, rest: Seq<u8>)
    ensures
        has_prefix(rest, prefix + p) ==> has_prefix(rest, prefix) && has_prefix(
            rest.skip(prefix.len() as int),
            p,
        ),
        has_prefix(rest, prefix) && has_prefix(rest.skip(prefix.len() as int), p) ==> has_prefix(
            rest,
            prefix + p,
        ),
        has_prefix(rest, prefix + p) ==> rest.skip((prefix + p).len() as int) == rest.skip(
            prefix.len() as int,
        ).skip(p.len() as int),
{
    let k = prefix.len() as int;
    let j = p.len() as int;
    let pp = prefix + p;
    let q = rest.skip(k);
    if has_prefix(rest, pp) {
        assert(rest.take(k) =~= prefix) by {
            assert forall|i: int| 0 <= i < k implies rest[i] == prefix[i] by {
                assert(rest.take(k + j)[i] == pp[i]);
            }
        }
        assert(q.take(j) =~= p) by {
            assert forall|i: int| 0 <= i < j implies q[i] == p[i] by {
                assert(rest.take(k + j)[k + i] == pp[k + i]);
            }
        }
        assert(rest.skip(k + j) =~= q.skip(j));
    }
    if has_prefix(rest, prefix) && has_prefix(q, p) {
        assert(rest.take(k + j) =~= pp) by {
            assert forall|i: int| 0 <= i < k + j implies rest[i] == pp[i] by {
                if i < k {
                    assert(rest.take(k)[i] == prefix[i]);
                } else {
                    assert(q.take(j)[i - k] == p[i - k]);
                }
            }
        }
    }
}

/// Below `prefix`, `j` (read in `mf`) holds what `n` held in `m0`; off
/// `prefix`, when that is not empty, it holds nothing.
spec fn joins(
    m0: Map<Seq<u8>, Seq<u8>>,
    n: NodeModel,
    mf: Map<Seq<u8>, Seq<u8>>,
    j: NodeModel,
    prefix: Seq<u8>,
) -> bool {
    forall|q: Seq<u8>|
        {
            &&& has_prefix(q, prefix) && lookup_in(m0, n, q.skip(prefix.len() as int)) is Ok
                ==> #[trigger] lookup_in(mf, j, q) == lookup_in(m0, n, q.skip(prefix.len() as int))
            &&& prefix.len() > 0 && !has_prefix(q, prefix) ==> lookup_in(mf, j, q) == Ok::<
                Option<Seq<u8>>,
                TrieError,
            >(None)
        }
}

/// The node for the subtree that the nibbles `prefix` lead to `n` from.
/// Below `prefix` it holds what `n` holds; on a path that leaves `prefix`,
/// nothing.
fn join_path(store: &mut NodeStore, prefix: &Vec<u8>, n: Node, Ghost(rest): Ghost<Seq<u8>>) -> (res:
    Result<Node, TrieError>)
    requires
        well_formed(n@),
        is_nibbles(prefix@),
    ensures
        old(store)@.submap_of(final(store)@),
        res is Err ==> res->Err_0 == TrieError::StorageFailure,
        content_addressed(old(store)@) ==> content_addressed(final(store)@),
        res is Err && res->Err_0 == TrieError::StorageFailure ==> meets_collision(final(store)@),
        res is Ok ==> well_formed(res->Ok_0@),
        res is Ok ==> joins(old(store)@, n@, final(store)@, res->Ok_0@, prefix@),
        res is Ok && has_prefix(rest, prefix@) && lookup_in(old(store)@, n@, rest.skip(prefix@.len() as int)) is Ok
            ==> lookup_in(final(store)@, res->Ok_0@, rest) == lookup_in(
            old(store)@,
            n@,
            rest.skip(prefix@.len() as int),
        ),
        res is Ok && prefix@.len() > 0 && !has_prefix(rest, prefix@) ==> lookup_in(
            final(store)@,
            res->Ok_0@,
            rest,
        ) == Ok::<Option<Seq<u8>>, TrieError>(None),
{
    let ghost k = prefix@.len() as int;
    match n {
        Node::Blank => Ok(Node::Blank),
        Node::Leaf { path, value } => {
            proof {
                lemma_nibbles_concat(prefix@, path@);
                lemma_join_leaf(prefix@, path@, rest);
                assert forall|q: Seq<u8>| true implies {
                    &&& has_prefix(q, prefix@) && lookup_in(old(store)@, n@, q.skip(k)) is Ok
                        ==> #[trigger] lookup_in(store@, NodeModel::Leaf(prefix@ + path@, value@), q)
                        == lookup_in(old(store)@, n@, q.skip(k))
                    &&& k > 0 && !has_prefix(q, prefix@) ==> lookup_in(
                        store@,
                        NodeModel::Leaf(prefix@ + path@, value@),
                        q,
                    ) == Ok::<Option<Seq<u8>>, TrieError>(None)
                } by {
                    lemma_join_leaf(prefix@, path@, q);
                }
            }
            Ok(Node::Leaf { path: concat(prefix, &path), value })
        },
        Node::Extension { path, child } => {
            proof {
                lemma_nibbles_concat(prefix@, path@);
                lemma_join_extension(prefix@, path@, rest);
                assert forall|q: Seq<u8>| true implies {
                    &&& has_prefix(q, prefix@) && lookup_in(old(store)@, n@, q.skip(k)) is Ok
                        ==> #[trigger] lookup_in(
                        store@,
                        NodeModel::Extension(prefix@ + path@, child@),
                        q,
                    ) == lookup_in(old(store)@, n@, q.skip(k))
                    &&& k > 0 && !has_prefix(q, prefix@) ==> lookup_in(
                        store@,
                        NodeModel::Extension(prefix@ + path@, child@),
                        q,
                    ) == Ok::<Option<Seq<u8>>, TrieError>(None)
                } by {
                    lemma_join_extension(prefix@, path@, q);
                }
            }
            Ok(Node::Extension { path: concat(prefix, &path), child })
        },
        Node::Branch { .. } => {
            if prefix.len() == 0 {
                proof {
                    assert(rest.skip(0) == rest);
                    if lookup_in(old(store)@, n@, rest) is Ok {
                        lemma_lookup_in_mono(old(store)@, store@, n@, rest);
                    }
                    assert forall|q: Seq<u8>| true implies {
                        &&& has_prefix(q, prefix@) && lookup_in(old(store)@, n@, q.skip(k)) is Ok
                            ==> #[trigger] lookup_in(store@, n@, q) == lookup_in(
                            old(store)@,
                            n@,
                            q.skip(k),
                        )
                        &&& k > 0 && !has_prefix(q, prefix@) ==> lookup_in(store@, n@, q) == Ok::<
                            Option<Seq<u8>>,
                            TrieError,
                        >(None)
                    } by {
                        assert(q.skip(0) == q);
                        if lookup_in(old(store)@, n@, q) is Ok {
                            lemma_lookup_in_mono(old(store)@, store@, n@, q);
                        }
                    }
                }
                Ok(n)
            } else {
                let r = store_node(store, &n)?;
                proof {
                    let q = rest.skip(k);
                    lemma_lookup_resolved(store@, r@, n@, q);
                    if lookup_in(old(store)@, n@, q) is Ok {
                        lemma_lookup_in_mono(old(store)@, store@, n@, q);
                    }
                    assert(prefix@.subrange(0, k) == prefix@);
                    assert forall|q: Seq<u8>| true implies {
                        &&& has_prefix(q, prefix@) && lookup_in(old(store)@, n@, q.skip(k)) is Ok
                            ==> #[trigger] lookup_in(store@, NodeModel::Extension(prefix@, r@), q)
                            == lookup_in(old(store)@, n@, q.skip(k))
                        &&& k > 0 && !has_prefix(q, prefix@) ==> lookup_in(
                            store@,
                            NodeModel::Extension(prefix@, r@),
                            q,
                        ) == Ok::<Option<Seq<u8>>, TrieError>(None)
                    } by {
                        lemma_lookup_resolved(store@, r@, n@, q.skip(k));
                        if lookup_in(old(store)@, n@, q.skip(k)) is Ok {
                            lemma_lookup_in_mono(old(store)@, store@, n@, q.skip(k));
                        }
                    }
                }
                Ok(Node::Extension { path: copy_slice(prefix, 0, prefix.len()), child: r })
            }
        },
    }
}

/// The branch with these children and value.
spec fn branch_of(cs: Seq<Vec<u8>>, v: Option<Vec<u8>>) -> NodeModel {
    NodeModel::Branch(cs.map_values(|c: Vec<u8>| c@), opt_view(v))
}

/// The canonical node for a branch with these children and value: a branch
/// keeps at least two children, or one child and a value. When the branch
/// holds nothing at `rest`, neither does the result.
fn canon_branch(
    store: &mut NodeStore,
    children: Vec<Vec<u8>>,
    value: Option<Vec<u8>>,
    Ghost(rest): Ghost<Seq<u8>>,
) -> (res: Result<Node, TrieError>)
    requires
        well_formed(NodeModel::Branch(children@.map_values(|c: Vec<u8>| c@), opt_view(value))),
        lookup_in(
            old(store)@,
            NodeModel::Branch(children@.map_values(|c: Vec<u8>| c@), opt_view(value)),
            rest,
        ) == Ok::<Option<Seq<u8>>, TrieError>(None),
    ensures
        old(store)@.submap_of(final(store)@),
        res is Err ==> res->Err_0 == TrieError::StorageFailure,
        content_addressed(old(store)@) ==> content_addressed(final(store)@),
        res is Err && res->Err_0 == TrieError::StorageFailure ==> meets_collision(final(store)@),
        res is Ok ==> well_formed(res->Ok_0@),
        res is Ok ==> lookup_in(final(store)@, res->Ok_0@, rest) == Ok::<Option<Seq<u8>>, TrieError>(
            None,
        ),
        res is Ok ==> forall|q: Seq<u8>|
            #[trigger] lookup_in(old(store)@, branch_of(children@, value), q) is Ok ==> lookup_in(
                final(store)@,
                res->Ok_0@,
                q,
            ) == lookup_in(old(store)@, branch_of(children@, value), q),
{
    let ghost cs = children@.map_values(|c: Vec<u8>| c@);
    let ghost m_start = store@;
    assert(branch_of(children@, value) == NodeModel::Branch(cs, opt_view(value)));
    let ghost bn = NodeModel::Branch(cs, opt_view(value));
    let mut count: usize = 0;
    let mut last: usize = 0;
    let mut i: usize = 0;
    while i < 16
        invariant
            i <= 16,
            children.len() == 16,
            count <= i,
            count > 0 ==> last < 16,
            count == 0 ==> forall|k: int| 0 <= k < i ==> (#[trigger] children@[k])@.len() == 0,
            count == 1 ==> last < i && forall|k: int|
                0 <= k < i && k != last ==> (#[trigger] children@[k])@.len() == 0,
        decreases 16 - i,
    {
        if children[i].len() > 0 {
            count = count + 1;
            last = i;
        }
        i = i + 1;
    }
    proof {
        assert forall|k: int| 0 <= k < 16 implies #[trigger] cs[k] == children@[k]@ by {}
    }
    if count == 0 {
        proof {
            assert forall|q: Seq<u8>| #[trigger] lookup_in(m_start, bn, q) is Ok implies lookup_in(
                m_start,
                bn,
                q,
            ) == (if q.len() == 0 { Ok::<Option<Seq<u8>>, TrieError>(opt_view(value)) } else {
                Ok::<Option<Seq<u8>>, TrieError>(None)
            }) by {
                if q.len() > 0 {
                    lemma_lookup_resolved(m_start, cs[q[0] as int], NodeModel::Blank, q.skip(1));
                }
            }
        }
        match value {
            None => Ok(Node::Blank),
            Some(v) => {
                proof {
                    assert forall|q: Seq<u8>| #[trigger] lookup_in(m_start, bn, q) is Ok implies lookup_in(
                        store@,
                        NodeModel::Leaf(seq![], v@),
                        q,
                    ) == lookup_in(m_start, bn, q) by {
                        if q.len() == 0 {
                            assert(q =~= Seq::<u8>::empty());
                        }
                    }
                }
                Ok(Node::Leaf { path: Vec::new(), value: v })
            },
        }
    } else if count == 1 && value.is_none() {
        let ghost m0 = store@;
        let mut prefix: Vec<u8> = Vec::new();
        prefix.push(last as u8);
        let child = match read_node(store, &children[last]) {
            Ok(c) => c,
            Err(_) => {
                // The lone child cannot be read, so it cannot be merged: keep it
                // below a one-nibble extension, which holds the same values.
                let c = copy_slice(&children[last], 0, children[last].len());
                proof {
                    assert(cs[last as int] == children@[last as int]@);
                    if has_prefix(rest, prefix@) {
                        assert(rest.take(1)[0] == rest[0]);
                        assert(rest[0] == last as u8);
                    }
                    assert forall|q: Seq<u8>| #[trigger] lookup_in(m_start, bn, q) is Ok implies lookup_in(
                        store@,
                        NodeModel::Extension(prefix@, c@),
                        q,
                    ) == lookup_in(m_start, bn, q) by {
                        if q.len() > 0 {
                            assert(q.take(1)[0] == q[0]);
                            if q[0] != last as u8 {
                                lemma_lookup_resolved(m_start, cs[q[0] as int], NodeModel::Blank, q.skip(1));
                                assert(!has_prefix(q, prefix@));
                            } else {
                                assert(q.take(1) =~= prefix@);
                            }
                        }
                    }
                }
                return Ok(Node::Extension { path: prefix, child: c });
            },
        };
        proof {
            assert(cs[last as int] == children@[last as int]@);
            if has_prefix(rest, prefix@) {
                assert(rest.take(1)[0] == rest[0]);
                assert(rest[0] == last as u8);
                assert(rest.skip(1) == rest.skip(prefix@.len() as int));
                lemma_lookup_resolved(m0, children@[last as int]@, child@, rest.skip(1));
            }
        }
        let res = join_path(store, &prefix, child, Ghost(rest));
        proof {
            if res is Ok {
                let j = res->Ok_0@;
                assert forall|q: Seq<u8>| #[trigger] lookup_in(m_start, bn, q) is Ok implies lookup_in(
                    store@,
                    j,
                    q,
                ) == lookup_in(m_start, bn, q) by {
                    assert(lookup_in(store@, j, q) == lookup_in(store@, j, q));
                    if q.len() > 0 {
                        assert(q.take(1)[0] == q[0]);
                        if q[0] != last as u8 {
                            lemma_lookup_resolved(m_start, cs[q[0] as int], NodeModel::Blank, q.skip(1));
                            assert(!has_prefix(q, prefix@));
                        } else {
                            assert(q.take(1) =~= prefix@);
                            lemma_lookup_resolved(m_start, cs[last as int], child@, q.skip(1));
                        }
                    } else {
                        assert(!has_prefix(q, prefix@));
                    }
                }
            }
        }
        res
    } else {
        proof {
            lemma_lookup_in_mono(old(store)@, store@, bn, rest);
            assert forall|q: Seq<u8>| #[trigger] lookup_in(m_start, bn, q) is Ok implies lookup_in(
                store@,
                bn,
                q,
            ) == lookup_in(m_start, bn, q) by {
                lemma_lookup_in_mono(m_start, store@, bn, q);
            }
        }
        Ok(Node::Branch { children, value })
    }
}

/// Dropping a branch's own value changes nothing off the empty path.
proof fn lemma_delete_value_frame(
    m_start: Map<Seq<u8>, Seq<u8>>,
    mf: Map<Seq<u8>, Seq<u8>>,
    r: Seq<u8>,
    cs: Seq<Seq<u8>>,
    v: Option<Seq<u8>>,
    c: NodeModel,
    rest: Seq<u8>,
)
    requires
        resolve_ref(m_start, r) == Ok::<NodeModel, TrieError>(NodeModel::Branch(cs, v)),
        rest.len() == 0,
        forall|q: Seq<u8>|
            #[trigger] lookup_in(m_start, NodeModel::Branch(cs, None), q) is Ok ==> lookup_in(
                mf,
                c,
                q,
            ) == lookup_in(m_start, NodeModel::Branch(cs, None), q),
    ensures
        forall|q: Seq<u8>|
            q != rest && is_nibbles(q) && #[trigger] lookup(m_start, r, q) is Ok ==> lookup_in(mf, c, q)
                == lookup(m_start, r, q),
{
    assert forall|q: Seq<u8>|
        q != rest && is_nibbles(q) && #[trigger] lookup(m_start, r, q) is Ok implies lookup_in(mf, c, q)
            == lookup(m_start, r, q) by {
        lemma_lookup_resolved(m_start, r, NodeModel::Branch(cs, v), q);
        if q.len() == 0 {
            assert(q =~= rest);
        }
        assert(lookup_in(m_start, NodeModel::Branch(cs, None), q) == lookup(m_start, r, q));
    }
}

/// What a recursive removal under a branch child promised, lifted to the branch.
proof fn lemma_delete_branch_frame(
    m_start: Map<Seq<u8>, Seq<u8>>,
    m1: Map<Seq<u8>, Seq<u8>>,
    m2: Map<Seq<u8>, Seq<u8>>,
    r: Seq<u8>,
    cs0: Seq<Seq<u8>>,
    cs: Seq<Seq<u8>>,
    v: Option<Seq<u8>>,
    idx: int,
    nc: NodeModel,
    nr: Seq<u8>,
    rest: Seq<u8>,
)
    requires
        resolve_ref(m_start, r) == Ok::<NodeModel, TrieError>(NodeModel::Branch(cs0, v)),
        m_start.submap_of(m2),
        m1.submap_of(m2),
        cs0.len() == 16,
        cs.len() == 16,
        0 <= idx < 16,
        cs[idx] == nr,
        forall|i: int| 0 <= i < 16 && i != idx ==> #[trigger] cs[i] == cs0[i],
        rest.len() > 0,
        rest[0] == idx,
        resolve_ref(m2, nr) == Ok::<NodeModel, TrieError>(nc),
        forall|q: Seq<u8>|
            q != rest.skip(1) && is_nibbles(q) && #[trigger] lookup(m_start, cs0[idx], q) is Ok
                ==> lookup_in(m1, nc, q) == lookup(m_start, cs0[idx], q),
    ensures
        forall|q: Seq<u8>|
            q != rest && is_nibbles(q) && #[trigger] lookup(m_start, r, q) is Ok ==> lookup_in(
                m2,
                NodeModel::Branch(cs, v),
                q,
            ) == lookup(m_start, r, q),
{
    assert forall|q: Seq<u8>|
        q != rest && is_nibbles(q) && #[trigger] lookup(m_start, r, q) is Ok implies lookup_in(
            m2,
            NodeModel::Branch(cs, v),
            q,
        ) == lookup(m_start, r, q) by {
        lemma_lookup_resolved(m_start, r, NodeModel::Branch(cs0, v), q);
        if q.len() > 0 {
            let k = q[0] as int;
            if k == idx {
                let a = seq![q[0]];
                assert(q.take(1) =~= a);
                assert(rest.take(1) =~= a);
                lemma_skip_differs(a, q, rest);
                assert(lookup(m_start, cs0[idx], q.skip(1)) is Ok);
                lemma_lookup_resolved(m2, nr, nc, q.skip(1));
                lemma_lookup_in_mono(m1, m2, nc, q.skip(1));
            } else {
                lemma_lookup_mono(m_start, m2, cs0[k], q.skip(1));
            }
        }
    }
}

/// What a recursive removal below an extension promised, lifted through the
/// join.
proof fn lemma_delete_extension_frame(
    m_start: Map<Seq<u8>, Seq<u8>>,
    m1: Map<Seq<u8>, Seq<u8>>,
    mf: Map<Seq<u8>, Seq<u8>>,
    r: Seq<u8>,
    p: Seq<u8>,
    child: Seq<u8>,
    nc: NodeModel,
    joined: NodeModel,
    rest: Seq<u8>,
)
    requires
        resolve_ref(m_start, r) == Ok::<NodeModel, TrieError>(NodeModel::Extension(p, child)),
        p.len() > 0,
        has_prefix(rest, p),
        joins(m1, nc, mf, joined, p),
        forall|q: Seq<u8>|
            q != rest.skip(p.len() as int) && is_nibbles(q) && #[trigger] lookup(m_start, child, q)
                is Ok ==> lookup_in(m1, nc, q) == lookup(m_start, child, q),
    ensures
        forall|q: Seq<u8>|
            q != rest && is_nibbles(q) && #[trigger] lookup(m_start, r, q) is Ok ==> lookup_in(
                mf,
                joined,
                q,
            ) == lookup(m_start, r, q),
{
    assert forall|q: Seq<u8>|
        q != rest && is_nibbles(q) && #[trigger] lookup(m_start, r, q) is Ok implies lookup_in(
            mf,
            joined,
            q,
        ) == lookup(m_start, r, q) by {
        lemma_lookup_resolved(m_start, r, NodeModel::Extension(p, child), q);
        assert(lookup_in(mf, joined, q) == lookup_in(mf, joined, q));
        if has_prefix(q, p) {
            lemma_skip_differs(p, q, rest);
            assert(lookup(m_start, child, q.skip(p.len() as int)) is Ok);
        }
    }
}

/// Removes `path[pos..]` from the subtree at `r`: `None` when the subtree
/// holds no value there, else the node that replaces the subtree, which
/// holds none.
#[verifier::rlimit(100)]
fn delete_at(store: &mut NodeStore, r: &Vec<u8>, path: &Vec<u8>, pos: usize) -> (res: Result<
    Option<Node>,
    TrieError,
>)
    requires
        is_nibbles(path@),
        pos <= path.len(),
    ensures
        old(store)@.submap_of(final(store)@),
        content_addressed(old(store)@) ==> content_addressed(final(store)@),
        res is Err && res->Err_0 == TrieError::StorageFailure ==> meets_collision(final(store)@),
        res matches Ok(Some(n)) ==> well_formed(n@),
        res matches Ok(Some(n)) ==> lookup_in(final(store)@, n@, path@.skip(pos as int)) == Ok::<
            Option<Seq<u8>>,
            TrieError,
        >(None),
        res matches Ok(None) ==> lookup(final(store)@, r@, path@.skip(pos as int)) == Ok::<
            Option<Seq<u8>>,
            TrieError,
        >(None),
        res is Err && res->Err_0 != TrieError::StorageFailure ==> lookup(
            old(store)@,
            r@,
            path@.skip(pos as int),
        ) == Err::<Option<Seq<u8>>, TrieError>(res->Err_0),
        lookup(old(store)@, r@, path@.skip(pos as int)) is Err ==> res is Err && res->Err_0
            == lookup(old(store)@, r@, path@.skip(pos as int))->Err_0,
        lookup(old(store)@, r@, path@.skip(pos as int)) == Ok::<Option<Seq<u8>>, TrieError>(None)
            ==> res matches Ok(None),
        res is Ok && res->Ok_0 is Some ==> forall|q: Seq<u8>|
            q != path@.skip(pos as int) && is_nibbles(q) && #[trigger] lookup(old(store)@, r@, q)
                is Ok ==> lookup_in(final(store)@, res->Ok_0->Some_0@, q) == lookup(
                old(store)@,
                r@,
                q,
            ),
    decreases path.len() - pos,
{
    let ghost rest = path@.skip(pos as int);
    let ghost m_start = store@;
    let node = read_node(store, r)?;
    let ghost nv = node@;
    proof {
        lemma_lookup_resolved(store@, r@, node@, rest);
    }
    let len = path.len();
    match node {
        Node::Blank => Ok(None),
        Node::Leaf { path: p, value: _ } => {
            let hit = p.len() == len - pos && starts_with_at(path, pos, &p);
            proof {
                if p@ == rest {
                    assert(rest.take(p.len() as int) == rest);
                }
                if hit {
                    assert(rest.take(p.len() as int) == rest);
                }
            }
            if hit {
                proof {
                    assert forall|q: Seq<u8>|
                        q != rest && is_nibbles(q) && #[trigger] lookup(m_start, r@, q) is Ok implies lookup_in(
                        store@,
                        NodeModel::Blank,
                        q,
                    ) == lookup(m_start, r@, q) by {
                        lemma_lookup_resolved(m_start, r@, nv, q);
                    }
                }
                Ok(Some(Node::Blank))
            } else {
                Ok(None)
            }
        },
        Node::Extension { path: p, child } => {
            if p.len() == 0 {
                return Err(TrieError::CorruptNode);
            }
            if !starts_with_at(path, pos, &p) {
                return Ok(None);
            }
            proof {
                assert(rest.skip(p.len() as int) == path@.skip(pos + p.len()));
            }
            match delete_at(store, &child, path, pos + p.len())? {
                None => Ok(None),
                Some(nc) => {
                    let ghost m1 = store@;
                    let ghost ncv = nc@;
                    let ghost pv = p@;
                    let joined = join_path(store, &p, nc, Ghost(rest))?;
                    proof {
                        assert(has_prefix(rest, pv));
                        lemma_delete_extension_frame(m_start, m1, store@, r@, pv, child@, ncv, joined@, rest);
                    }
                    Ok(Some(joined))
                },
            }
        },
        Node::Branch { children, value } => {
            let mut children = children;
            if pos == len {
                return match value {
                    None => Ok(None),
                    Some(_) => {
                        proof {
                            assert(rest.len() == 0);
                        }
                        let ghost chv = children@;
                        let c = canon_branch(store, children, None, Ghost(rest))?;
                        proof {
                            assert(branch_of(chv, None) == NodeModel::Branch(
                                chv.map_values(|c: Vec<u8>| c@),
                                None,
                            ));
                            lemma_delete_value_frame(
                                m_start,
                                store@,
                                r@,
                                chv.map_values(|c: Vec<u8>| c@),
                                opt_view(value),
                                c@,
                                rest,
                            );
                        }
                        Ok(Some(c))
                    },
                };
            }
            let idx = path[pos] as usize;
            let ghost cs0 = children@;
            assert(cs0.map_values(|c: Vec<u8>| c@)[idx as int] == cs0[idx as int]@);
            assert(rest.skip(1) == path@.skip(pos + 1));
            match delete_at(store, &children[idx], path, pos + 1)? {
                None => Ok(None),
                Some(nc) => {
                    let ghost m1 = store@;
                    let nr = store_node(store, &nc)?;
                    proof {
                        lemma_lookup_resolved(store@, nr@, nc@, rest.skip(1));
                        lemma_lookup_in_mono(m1, store@, nc@, rest.skip(1));
                    }
                    children[idx] = nr;
                    assert forall|i: int| 0 <= i < 16 implies (#[trigger] children@[i])@.len()
                        <= INLINE_LIMIT by {
                        assert(cs0.map_values(|c: Vec<u8>| c@)[i] == cs0[i]@);
                    }
                    proof {
                        assert(children@.map_values(|c: Vec<u8>| c@)[idx as int] == nr@);
                    }
                    let ghost m2 = store@;
                    let ghost chv = children@;
                    let ghost vv = value;
                    let ghost bn2 = branch_of(chv, vv);
                    proof {
                        let csa = cs0.map_values(|c: Vec<u8>| c@);
                        let csb = chv.map_values(|c: Vec<u8>| c@);
                        assert forall|k: int| 0 <= k < 16 && k != idx implies #[trigger] csb[k] == csa[k] by {
                            assert(csb[k] == chv[k]@);
                            assert(csa[k] == cs0[k]@);
                            assert(chv[k] == cs0[k]);
                        }
                        assert(csb[idx as int] == nr@);
                        assert(csa[idx as int] == cs0[idx as int]@);
                        assert(bn2 == NodeModel::Branch(csb, opt_view(vv)));
                        lemma_delete_branch_frame(
                            m_start,
                            m1,
                            m2,
                            r@,
                            csa,
                            csb,
                            opt_view(vv),
                            idx as int,
                            nc@,
                            nr@,
                            rest,
                        );
                    }
                    let c = canon_branch(store, children, value, Ghost(rest))?;
                    proof {
                        assert forall|q: Seq<u8>|
                            q != rest && is_nibbles(q) && #[trigger] lookup(m_start, r@, q) is Ok implies lookup_in(
                            store@,
                            c@,
                            q,
                        ) == lookup(m_start, r@, q) by {
                            assert(lookup_in(m2, bn2, q) == lookup(m_start, r@, q));
                        }
                    }
                    Ok(Some(c))
                },
            }
        },
    }
}

/// A Merkle-Patricia trie: a node store and the reference of the current root.
pub struct Trie {
    store: NodeStore,
    root_hash: Vec<u8>,
}

impl Trie {
    /// The node store.
    pub closed spec fn store_view(&self) -> Map<Seq<u8>, Seq<u8>> {
        self.store@
    }

    /// The reference of the current root.
    pub closed spec fn root_view(&self) -> Seq<u8> {
        self.root_hash@
    }

    /// What the trie holds for `key`.
    pub open spec fn value_at(&self, key: Seq<u8>) -> Result<Option<Seq<u8>>, TrieError> {
        lookup(self.store_view(), self.root_view(), nibbles_of(key))
    }

    /// The trie's invariant: its store is content-addressed.
    pub open spec fn inv(&self) -> bool {
        content_addressed(self.store_view())
    }

    /// Every reference on the way to `key` is the one its node is stored
    /// under.
    pub open spec fn canonical_at(&self, key: Seq<u8>) -> bool {
        canonical_path(self.store_view(), self.root_view(), nibbles_of(key))
    }

    /// An empty trie over an empty store.
    pub fn new() -> (r: Trie)
        ensures
            r.store_view() == Map::<Seq<u8>, Seq<u8>>::empty(),
            r.root_view() == Seq::<u8>::empty(),
            r.inv(),
    {
        Trie { store: NodeStore::new(), root_hash: Vec::new() }
    }

    /// The reference of the current root.
    pub fn root_hash(&self) -> (r: Vec<u8>)
        ensures
            r@ == self.root_view(),
    {
        copy_slice(&self.root_hash, 0, self.root_hash.len())
    }

    /// Makes `root` the current root; the store is kept, so any earlier
    /// root can be taken up again.
    pub fn set_root(&mut self, root: Vec<u8>)
        ensures
            final(self).root_view() == root@,
            final(self).store_view() == old(self).store_view(),
    {
        self.root_hash = root;
    }

    /// The node at the root.
    pub fn get_root_node(&self) -> (r: Result<Node, TrieError>)
        ensures
            match r {
                Ok(n) => resolve_ref(self.store_view(), self.root_view()) == Ok::<NodeModel, TrieError>(n@),
                Err(e) => resolve_ref(self.store_view(), self.root_view()) == Err::<NodeModel, TrieError>(e),
            },
    {
        resolve(&self.store, &self.root_hash)
    }

    /// The value stored under `key`, if any.
    pub fn get(&self, key: &Vec<u8>) -> (r: Result<Option<Vec<u8>>, TrieError>)
        requires
            key.len() <= usize::MAX / 2,
        ensures
            found_view(r) == self.value_at(key@),
    {
        let path = to_nibbles(key);
        assert(path@.skip(0) == path@);
        get_at(&self.store, &self.root_hash, &path, 0)
    }

    /// Stores `value` under `key` and returns the new root reference. Nodes
    /// already stored are kept. Where the key ends at a branch, an empty
    /// value is held as absent: a branch writes an absent value as empty bytes.
    pub fn set(&mut self, key: &Vec<u8>, value: &Vec<u8>) -> (r: Result<Vec<u8>, TrieError>)
        requires
            key.len() <= usize::MAX / 2,
            old(self).inv(),
        ensures
            final(self).inv(),
            old(self).value_at(key@) is Ok ==> r is Ok || (r->Err_0 == TrieError::StorageFailure
                && meets_collision(final(self).store_view())),
            r is Err && r->Err_0 == TrieError::StorageFailure ==> meets_collision(
                final(self).store_view(),
            ),
            old(self).value_at(key@) is Err ==> r is Err && r->Err_0 == old(self).value_at(key@)->Err_0,
            r is Ok && resolve_ref(old(self).store_view(), old(self).root_view())
                == Ok::<NodeModel, TrieError>(NodeModel::Blank) ==> resolve_ref(
                final(self).store_view(),
                final(self).root_view(),
            ) == Ok::<NodeModel, TrieError>(NodeModel::Leaf(nibbles_of(key@), value@)),
            old(self).store_view().submap_of(final(self).store_view()),
            match r {
                Ok(root) => final(self).root_view() == root@,
                Err(_) => final(self).root_view() == old(self).root_view(),
            },
            r is Ok && value@.len() > 0 ==> final(self).value_at(key@) == Ok::<
                Option<Seq<u8>>,
                TrieError,
            >(Some(value@)),
            r is Ok && value@.len() == 0 ==> holds_value(final(self).value_at(key@), value@),
            r is Err && r->Err_0 != TrieError::StorageFailure ==> old(
                self,
            ).value_at(key@) == Err::<Option<Seq<u8>>, TrieError>(r->Err_0),
            r is Ok ==> final(self).canonical_at(key@),
            r is Ok ==> forall|k2: Seq<u8>|
                k2 != key@ && #[trigger] old(self).value_at(k2) is Ok ==> agrees(
                    final(self).value_at(k2),
                    old(self).value_at(k2),
                ),
            r is Ok && key@.len() > 0 && resolve_ref(
                old(self).store_view(),
                old(self).root_view(),
            ) is Ok && resolve_ref(old(self).store_view(), old(self).root_view())->Ok_0 is Branch
                ==> resolve_ref(final(self).store_view(), final(self).root_view()) is Ok
                && shares_siblings(
                resolve_ref(old(self).store_view(), old(self).root_view())->Ok_0,
                resolve_ref(final(self).store_view(), final(self).root_view())->Ok_0,
                nibbles_of(key@)[0] as int,
            ),
            old(self).value_at(key@) == Ok::<Option<Seq<u8>>, TrieError>(Some(value@))
                && old(self).canonical_at(key@) ==> r is Ok && r->Ok_0@ == old(self).root_view(),
    {
        let path = to_nibbles(key);
        assert(path@.skip(0) == path@);
        let ghost m0 = self.store@;
        let ghost r0 = self.root_hash@;
        let nr = insert_at(&mut self.store, &self.root_hash, &path, 0, value)?;
        proof {
            assert forall|k2: Seq<u8>|
                k2 != key@ && #[trigger] lookup(m0, r0, nibbles_of(k2)) is Ok implies agrees(
                lookup(self.store@, nr@, nibbles_of(k2)),
                lookup(m0, r0, nibbles_of(k2)),
            ) by {
                crate::nibbles::lemma_nibbles_of_injective(k2, key@);
            }
        }
        self.root_hash = copy_slice(&nr, 0, nr.len());
        assert(nr@.subrange(0, nr@.len() as int) == nr@);
        Ok(nr)
    }

    /// The same as `set`.
    pub fn update(&mut self, key: &Vec<u8>, new_val: &Vec<u8>) -> (r: Result<Vec<u8>, TrieError>)
        requires
            key.len() <= usize::MAX / 2,
            old(self).inv(),
        ensures
            final(self).inv(),
            old(self).value_at(key@) is Ok ==> r is Ok || (r->Err_0 == TrieError::StorageFailure
                && meets_collision(final(self).store_view())),
            r is Err && r->Err_0 == TrieError::StorageFailure ==> meets_collision(
                final(self).store_view(),
            ),
            old(self).value_at(key@) is Err ==> r is Err && r->Err_0 == old(self).value_at(key@)->Err_0,
            r is Ok && resolve_ref(old(self).store_view(), old(self).root_view())
                == Ok::<NodeModel, TrieError>(NodeModel::Blank) ==> resolve_ref(
                final(self).store_view(),
                final(self).root_view(),
            ) == Ok::<NodeModel, TrieError>(NodeModel::Leaf(nibbles_of(key@), new_val@)),
            old(self).store_view().submap_of(final(self).store_view()),
            match r {
                Ok(root) => final(self).root_view() == root@,
                Err(_) => final(self).root_view() == old(self).root_view(),
            },
            r is Ok && new_val@.len() > 0 ==> final(self).value_at(key@) == Ok::<
                Option<Seq<u8>>,
                TrieError,
            >(Some(new_val@)),
            r is Ok && new_val@.len() == 0 ==> holds_value(final(self).value_at(key@), new_val@),
            r is Err && r->Err_0 != TrieError::StorageFailure ==> old(
                self,
            ).value_at(key@) == Err::<Option<Seq<u8>>, TrieError>(r->Err_0),
            r is Ok ==> final(self).canonical_at(key@),
            r is Ok ==> forall|k2: Seq<u8>|
                k2 != key@ && #[trigger] old(self).value_at(k2) is Ok ==> agrees(
                    final(self).value_at(k2),
                    old(self).value_at(k2),
                ),
            old(self).value_at(key@) == Ok::<Option<Seq<u8>>, TrieError>(Some(new_val@))
                && old(self).canonical_at(key@) ==> r is Ok && r->Ok_0@ == old(self).root_view(),
    {
        self.set(key, new_val)
    }

    /// Removes `key` and returns the new root reference; the root is kept
    /// when the key is absent. Nodes already stored are kept.
    pub fn delete(&mut self, key: &Vec<u8>) -> (r: Result<Vec<u8>, TrieError>)
        requires
            key.len() <= usize::MAX / 2,
            old(self).inv(),
        ensures
            final(self).inv(),
            old(self).value_at(key@) is Ok ==> r is Ok || (r->Err_0 == TrieError::StorageFailure
                && meets_collision(final(self).store_view())),
            r is Err && r->Err_0 == TrieError::StorageFailure ==> meets_collision(
                final(self).store_view(),
            ),
            old(self).value_at(key@) is Err ==> r is Err && r->Err_0 == old(self).value_at(key@)->Err_0,
            old(self).value_at(key@) == Ok::<Option<Seq<u8>>, TrieError>(None) ==> r is Ok
                && r->Ok_0@ == old(self).root_view(),
            old(self).store_view().submap_of(final(self).store_view()),
            match r {
                Ok(root) => final(self).root_view() == root@,
                Err(_) => final(self).root_view() == old(self).root_view(),
            },
            r is Ok ==> final(self).value_at(key@) == Ok::<Option<Seq<u8>>, TrieError>(None),
            r is Ok ==> forall|k2: Seq<u8>|
                k2 != key@ && #[trigger] old(self).value_at(k2) is Ok ==> final(self).value_at(k2)
                    == old(self).value_at(k2),
    {
        let path = to_nibbles(key);
        assert(path@.skip(0) == path@);
        let ghost m0 = self.store@;
        let ghost r0 = self.root_hash@;
        match delete_at(&mut self.store, &self.root_hash, &path, 0)? {
            None => {
                proof {
                    assert forall|k2: Seq<u8>|
                        k2 != key@ && #[trigger] lookup(m0, r0, nibbles_of(k2)) is Ok implies lookup(
                        self.store@,
                        r0,
                        nibbles_of(k2),
                    ) == lookup(m0, r0, nibbles_of(k2)) by {
                        lemma_lookup_mono(m0, self.store@, r0, nibbles_of(k2));
                    }
                }
                let root = copy_slice(&self.root_hash, 0, self.root_hash.len());
                assert(self.root_hash@.subrange(0, self.root_hash@.len() as int) == self.root_hash@);
                Ok(root)
            },
            Some(n) => {
                let ghost m1 = self.store@;
                let nr = store_node(&mut self.store, &n)?;
                proof {
                    lemma_lookup_resolved(self.store@, nr@, n@, path@);
                    lemma_lookup_in_mono(m1, self.store@, n@, path@);
                    assert forall|k2: Seq<u8>|
                        k2 != key@ && #[trigger] lookup(m0, r0, nibbles_of(k2)) is Ok implies lookup(
                        self.store@,
                        nr@,
                        nibbles_of(k2),
                    ) == lookup(m0, r0, nibbles_of(k2)) by {
                        crate::nibbles::lemma_nibbles_of_injective(k2, key@);
                        lemma_lookup_resolved(self.store@, nr@, n@, nibbles_of(k2));
                        lemma_lookup_in_mono(m1, self.store@, n@, nibbles_of(k2));
                    }
                }
                self.root_hash = copy_slice(&nr, 0, nr.len());
                assert(nr@.subrange(0, nr@.len() as int) == nr@);
                Ok(nr)
            },
        }
    }
}

} // verus!
