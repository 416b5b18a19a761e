//! The flat engine: leaf writes, split points, dirty ancestors and the
//! rehash from the deepest node up.

use crate::bits::{bit_at, same_bits_before};
use crate::flat::ancestors::{ancestors, collect_ancestors};
use crate::flat::dirty::{keys_view, DirtySet};
use crate::flat::key::{key_le, lemma_key_asymmetric, KeySpec, NodeKey};
use crate::flat::path::{
    is_lcp_len, lcp_be, lemma_masked_all, lemma_masked_twice, mask_after_be, masked,
    prefix_match_be, set_bit_be, with_bit, Path,
};
use crate::flat::store::{
    is_greatest_le, is_least_ge, is_next_leaf, is_prev_leaf, key_valid, leaf_key, FlatStore,
};
use crate::hash::{h_pair, pair_hash, sha256_32, sha256_spec, zero32, zero_hash, Bytes32};
use vstd::prelude::*;

verus! {

/// The SHA-256 digest of `data`.
pub fn sha256(data: &[u8]) -> (out: Bytes32)
    ensures
        out@ == sha256_spec(data@),
{
    sha256_32(data)
}

/// The SHA-256 digest of `a` followed by `b`.
pub fn concat_and_hash(a: &[u8], b: &[u8]) -> (out: Bytes32)
    ensures
        out@ == sha256_spec(a@ + b@),
{
    let mut buf: Vec<u8> = Vec::new();
    crate::ser::append_bytes(&mut buf, a);
    crate::ser::append_bytes(&mut buf, b);
    assert(buf@ =~= a@ + b@);
    sha256_32(buf.as_slice())
}

/// The store and the dirty set, as the steps of an update change them.
pub type StateSpec = (Map<KeySpec, Seq<u8>>, Set<KeySpec>);

/// The least key of `m` at or behind `bound`, if there is one.
pub open spec fn least_ge_of(m: Map<KeySpec, Seq<u8>>, bound: KeySpec) -> Option<KeySpec> {
    if exists|k: KeySpec| is_least_ge(m, bound, k) {
        Some(choose|k: KeySpec| is_least_ge(m, bound, k))
    } else {
        None
    }
}

/// The last leaf of `m` before the leaf with path `path`, if there is one.
pub open spec fn prev_leaf_of(m: Map<KeySpec, Seq<u8>>, path: Seq<u8>) -> Option<KeySpec> {
    if exists|k: KeySpec| is_prev_leaf(m, path, k) {
        Some(choose|k: KeySpec| is_prev_leaf(m, path, k))
    } else {
        None
    }
}

/// The first leaf of `m` behind the leaf with path `path`, if there is one.
pub open spec fn next_leaf_of(m: Map<KeySpec, Seq<u8>>, path: Seq<u8>) -> Option<KeySpec> {
    if exists|k: KeySpec| is_next_leaf(m, path, k) {
        Some(choose|k: KeySpec| is_next_leaf(m, path, k))
    } else {
        None
    }
}

/// The least key at or behind a bound is unique.
pub proof fn lemma_least_ge_unique(m: Map<KeySpec, Seq<u8>>, bound: KeySpec, k: KeySpec)
    requires
        is_least_ge(m, bound, k),
    ensures
        least_ge_of(m, bound) == Some(k),
{
    let c = choose|c: KeySpec| is_least_ge(m, bound, c);
    assert(key_le(k, c) && key_le(c, k));
    if k != c {
        lemma_key_asymmetric(k, c);
    }
}

/// The last leaf before a path is unique.
pub proof fn lemma_prev_leaf_unique(m: Map<KeySpec, Seq<u8>>, path: Seq<u8>, k: KeySpec)
    requires
        is_prev_leaf(m, path, k),
    ensures
        prev_leaf_of(m, path) == Some(k),
{
    let c = choose|c: KeySpec| is_prev_leaf(m, path, c);
    assert(key_le(k, c) && key_le(c, k));
    if k != c {
        lemma_key_asymmetric(k, c);
    }
}

/// The first leaf behind a path is unique.
pub proof fn lemma_next_leaf_unique(m: Map<KeySpec, Seq<u8>>, path: Seq<u8>, k: KeySpec)
    requires
        is_next_leaf(m, path, k),
    ensures
        next_leaf_of(m, path) == Some(k),
{
    let c = choose|c: KeySpec| is_next_leaf(m, path, c);
    assert(key_le(k, c) && key_le(c, k));
    if k != c {
        lemma_key_asymmetric(k, c);
    }
}

/// The key under which the child of node `k` on side `bit` is looked for:
/// the bits of `k`, then `bit`.
pub open spec fn child_key(k: KeySpec, bit: bool) -> KeySpec {
    (masked(with_bit(k.0, k.1, bit), k.1 + 1), k.1 + 1)
}

/// The hash of the child of node `k` on side `bit`: the hash of the first
/// node at or behind the child's key, if it lies under the child's prefix;
/// zero where no node does.
pub open spec fn child_hash(m: Map<KeySpec, Seq<u8>>, k: KeySpec, bit: bool) -> Seq<u8> {
    match least_ge_of(m, child_key(k, bit)) {
        Some(c) => if same_bits_before(c.0, child_key(k, bit).0, k.1 + 1) {
            m[c]
        } else {
            zero32()
        },
        None => zero32(),
    }
}

/// The store after node `k` is rehashed: a leaf stays; a split point without
/// children leaves the store; any other gets the pair hash of its children.
pub open spec fn rehash_step(m: Map<KeySpec, Seq<u8>>, k: KeySpec) -> Map<KeySpec, Seq<u8>> {
    if k.1 >= 256 {
        m
    } else if child_hash(m, k, false) == zero32() && child_hash(m, k, true) == zero32() {
        m.remove(k)
    } else {
        m.insert(k, pair_hash(child_hash(m, k, false), child_hash(m, k, true)))
    }
}

/// The store after the nodes of `order` are rehashed, first to last.
pub open spec fn rehash_fold(m: Map<KeySpec, Seq<u8>>, order: Seq<KeySpec>) -> Map<KeySpec, Seq<u8>>
    decreases order.len(),
{
    if order.len() == 0 {
        m
    } else {
        rehash_step(rehash_fold(m, order.drop_last()), order.last())
    }
}

/// The state after node `k` is made to exist: where the store lacks it, it
/// gets it with a zero hash, and the dirty set gets its key.
pub open spec fn ensure_node(st: StateSpec, k: KeySpec) -> StateSpec {
    if st.0.contains_key(k) {
        st
    } else {
        (st.0.insert(k, zero32()), st.1.insert(k))
    }
}

/// The number of leading bits that two paths share.
pub open spec fn lcp_len(a: Seq<u8>, b: Seq<u8>) -> int {
    choose|l: int| is_lcp_len(a, b, l)
}

/// The key of the split point of two paths: their common prefix.
pub open spec fn lcp_key(a: Seq<u8>, b: Seq<u8>) -> KeySpec {
    (masked(a, lcp_len(a, b)), lcp_len(a, b))
}

/// The number of leading bits that two paths share is unique.
pub proof fn lemma_lcp_unique(a: Seq<u8>, b: Seq<u8>, l: int)
    requires
        is_lcp_len(a, b, l),
    ensures
        lcp_len(a, b) == l,
{
    let c = lcp_len(a, b);
    if c < l {
        assert(bit_at(a, c) == bit_at(b, c));
    } else if l < c {
        assert(bit_at(a, l) == bit_at(b, l));
    }
}

/// The state after the split point of `path` and a neighbouring leaf is made
/// to exist; the state as it is where there is no such leaf.
pub open spec fn split_with(st: StateSpec, path: Seq<u8>, neighbour: Option<KeySpec>) -> StateSpec {
    match neighbour {
        Some(k) => ensure_node(st, lcp_key(path, k.0)),
        None => st,
    }
}

/// The state after the split points of the leaf with path `path` and the
/// leaves next to it on both sides are made to exist.
pub open spec fn ensure_splits(st: StateSpec, path: Seq<u8>) -> StateSpec {
    let st1 = split_with(st, path, prev_leaf_of(st.0, path));
    split_with(st1, path, next_leaf_of(st1.0, path))
}

/// The keys of the stored nodes on the path of the leaf with path `t`.
pub open spec fn ancestor_set(m: Map<KeySpec, Seq<u8>>, t: Seq<u8>) -> Set<KeySpec> {
    Set::new(|k: KeySpec| ancestors(m, t).contains(k))
}

/// The state root of a store: the hash of its first node, zero for no node.
pub open spec fn is_root_of(m: Map<KeySpec, Seq<u8>>, root: Seq<u8>) -> bool {
    if m == Map::<KeySpec, Seq<u8>>::empty() {
        root == zero32()
    } else {
        exists|k: KeySpec|
            #[trigger] m.contains_key(k) && m[k] == root && forall|o: KeySpec|
                #[trigger] m.contains_key(o) ==> key_le(k, o)
    }
}

/// The flat engine over its ordered store of nodes.
pub struct RocksHubt {
    /// The nodes, by key.
    pub store: FlatStore,
}

impl View for RocksHubt {
    type V = Map<KeySpec, Seq<u8>>;

    open spec fn view(&self) -> Map<KeySpec, Seq<u8>> {
        self.store@
    }
}

impl RocksHubt {
    /// The store is in order and holds valid keys only.
    pub open spec fn wf(&self) -> bool {
        self.store.wf()
    }

    /// The engine over `store`.
    pub fn new(store: FlatStore) -> (out: Self)
        ensures
            out.store == store,
    {
        RocksHubt { store }
    }

    /// The state root: the hash of the first node of the store, zero for an
    /// empty store.
    pub fn root(&self) -> (out: Bytes32)
        requires
            self.wf(),
        ensures
            is_root_of(self@, out@),
    {
        match self.store.first() {
            Some((k, v)) => {
                proof {
                    assert(self@.contains_key(k@));
                    assert(self@ != Map::<KeySpec, Seq<u8>>::empty());
                }
                v
            },
            None => zero_hash(),
        }
    }

    /// Whether no hash of the store is zero.
    pub fn has_no_zero_hash(&self) -> (out: bool)
        requires
            self.wf(),
        ensures
            out == crate::flat::keeping::no_zero_hash(self@),
    {
        let ghost s = self.store.entries@;
        let zero = zero_hash();
        let mut i: usize = 0;
        while i < self.store.entries.len()
            invariant
                i <= s.len(),
                s == self.store.entries@,
                self.wf(),
                zero@ == zero32(),
                forall|j: int| 0 <= j < i ==> (#[trigger] s[j]).1@ != zero32(),
            decreases s.len() - i,
        {
            if crate::merkle_proof::hashes_equal(&self.store.entries[i].1, &zero) {
                proof {
                    crate::flat::store::lemma_entry_at(s, i as int);
                }
                return false;
            }
            i += 1;
        }
        proof {
            assert forall|k: KeySpec| #[trigger] self@.contains_key(k) implies self@[k] != zero32() by {
                let j = crate::flat::store::entry_pos(s, k);
                crate::flat::store::lemma_entry_at(s, j);
            }
        }
        true
    }

    /// Every hash of the store has 32 bytes.
    pub proof fn lemma_hashes_sized(&self)
        requires
            self.wf(),
        ensures
            crate::flat::rest::hashes_sized(self@),
    {
        let s = self.store.entries@;
        assert forall|k: KeySpec| #[trigger] self@.contains_key(k) implies self@[k].len() == 32 by {
            let j = crate::flat::store::entry_pos(s, k);
            crate::flat::store::lemma_entry_at(s, j);
        }
    }

    /// Puts the node with key `key` and hash `val`.
    pub fn insert_raw(&mut self, key: NodeKey, val: Bytes32)
        requires
            old(self).wf(),
            key_valid(key@),
        ensures
            final(self).wf(),
            final(self)@ == old(self)@.insert(key@, val@),
    {
        self.store.insert_raw(key, val);
    }

    /// Takes away the node with key `key`.
    pub fn remove_raw(&mut self, key: &NodeKey)
        requires
            old(self).wf(),
        ensures
            final(self).wf(),
            final(self)@ == old(self)@.remove(key@),
    {
        self.store.remove_raw(key);
    }

    /// Whether the store holds a node with key `key`.
    pub fn exists_raw(&self, key: &NodeKey) -> (out: bool)
        requires
            self.wf(),
        ensures
            out == self@.contains_key(key@),
    {
        self.store.exists_raw(key)
    }

    /// The last node at or before `key`.
    pub fn seek_prev(&self, key: &NodeKey) -> (out: Option<(NodeKey, Bytes32)>)
        requires
            self.wf(),
        ensures
            match out {
                Some((k, v)) => is_greatest_le(self@, key@, k@) && self@[k@] == v@,
                None => crate::flat::store::none_le(self@, key@),
            },
    {
        self.store.seek_prev(key)
    }

    /// The first node behind `key`.
    pub fn seek_next(&self, key: &NodeKey) -> (out: Option<(NodeKey, Bytes32)>)
        requires
            self.wf(),
        ensures
            match out {
                Some((k, v)) => crate::flat::store::is_least_gt(self@, key@, k@) && self@[k@] == v@,
                None => crate::flat::store::none_gt(self@, key@),
            },
    {
        self.store.seek_next(key)
    }

    /// Makes the node with key `key` exist: where the store lacks it, it is
    /// put with a zero hash, and its key joins the dirty set.
    pub fn ensure_node_exists(&mut self, key: NodeKey, dirty: &mut DirtySet)
        requires
            old(self).wf(),
            old(dirty).wf(),
            key_valid(key@),
        ensures
            final(self).wf(),
            final(dirty).wf(),
            (final(self)@, final(dirty)@) == ensure_node((old(self)@, old(dirty)@), key@),
    {
        if !self.exists_raw(&key) {
            let zero = zero_hash();
            self.insert_raw(key, zero);
            dirty.insert(key);
        }
    }

    /// The hash of the child of `node` on side `bit`.
    pub fn child_hash_of(&self, node: &NodeKey, bit: u8) -> (out: Bytes32)
        requires
            self.wf(),
            node.len < 256,
            bit == 0 || bit == 1,
        ensures
            out@ == child_hash(self@, node@, bit == 1),
    {
        let mut path: Path = node.path;
        set_bit_be(&mut path, node.len, bit);
        mask_after_be(&mut path, node.len + 1);
        let key = NodeKey { path, len: node.len + 1 };
        assert(key@ == child_key(node@, bit == 1));
        match self.store.seek(&key) {
            Some((k, h)) => {
                proof {
                    lemma_least_ge_unique(self@, key@, k@);
                    let i = crate::flat::store::entry_pos(self.store.entries@, k@);
                    assert(key_valid(self.store.entries@[i].0@));
                }
                if prefix_match_be(&k.path, &path, node.len + 1) {
                    h
                } else {
                    zero_hash()
                }
            },
            None => {
                proof {
                    if exists|c: KeySpec| is_least_ge(self@, key@, c) {
                        let c = choose|c: KeySpec| is_least_ge(self@, key@, c);
                        assert(self@.contains_key(c));
                    }
                }
                zero_hash()
            },
        }
    }
}

/// Every key of the set is one that the store may hold.
pub open spec fn keys_valid(d: Set<KeySpec>) -> bool {
    forall|k: KeySpec| #[trigger] d.contains(k) ==> key_valid(k)
}

/// The key of a leaf is one that the store may hold.
pub proof fn lemma_leaf_key_valid(path: Seq<u8>)
    requires
        path.len() == 32,
    ensures
        key_valid(leaf_key(path)),
{
    lemma_masked_all(path, 256);
}

impl RocksHubt {
    /// Makes the split point of two paths exist, where they differ.
    pub fn ensure_split(&mut self, a: &Path, b: &Path, dirty: &mut DirtySet)
        requires
            old(self).wf(),
            old(dirty).wf(),
            keys_valid(old(dirty)@),
        ensures
            final(self).wf(),
            final(dirty).wf(),
            keys_valid(final(dirty)@),
            (final(self)@, final(dirty)@) == if a@ == b@ {
                (old(self)@, old(dirty)@)
            } else {
                ensure_node((old(self)@, old(dirty)@), lcp_key(a@, b@))
            },
    {
        let (p, l) = lcp_be(a, b);
        proof {
            lemma_lcp_unique(a@, b@, l as int);
            lemma_masked_twice(a@, l as int, l as int);
            if l == 256 {
                crate::bits::lemma_path_from_bits(a@, b@);
            }
        }
        if l < 256 {
            self.ensure_node_exists(NodeKey { path: p, len: l }, dirty);
        }
    }

    /// Makes the split points of the leaf with path `path` and the leaves
    /// next to it on both sides exist.
    pub fn ensure_split_points(&mut self, path: Path, dirty: &mut DirtySet)
        requires
            old(self).wf(),
            old(dirty).wf(),
            keys_valid(old(dirty)@),
        ensures
            final(self).wf(),
            final(dirty).wf(),
            keys_valid(final(dirty)@),
            (final(self)@, final(dirty)@) == ensure_splits((old(self)@, old(dirty)@), path@),
    {
        let ghost st0: StateSpec = (self@, dirty@);
        match self.store.prev_leaf(&path) {
            Some(n_key) => {
                proof {
                    lemma_prev_leaf_unique(self@, path@, n_key@);
                    lemma_key_asymmetric(n_key@, leaf_key(path@));
                }
                self.ensure_split(&path, &n_key.path, dirty);
            },
            None => {
                proof {
                    if exists|k: KeySpec| is_prev_leaf(self@, path@, k) {
                        let k = choose|k: KeySpec| is_prev_leaf(self@, path@, k);
                        assert(self@.contains_key(k));
                    }
                }
            },
        }
        let ghost st1: StateSpec = (self@, dirty@);
        assert(st1 == split_with(st0, path@, prev_leaf_of(st0.0, path@)));
        match self.store.next_leaf(&path) {
            Some(n_key) => {
                proof {
                    lemma_next_leaf_unique(self@, path@, n_key@);
                    lemma_key_asymmetric(leaf_key(path@), n_key@);
                }
                self.ensure_split(&path, &n_key.path, dirty);
            },
            None => {
                proof {
                    if exists|k: KeySpec| is_next_leaf(self@, path@, k) {
                        let k = choose|k: KeySpec| is_next_leaf(self@, path@, k);
                        assert(self@.contains_key(k));
                    }
                }
            },
        }
    }

    /// Adds to the dirty set the key of every stored node on the path of
    /// the leaf with path `target_path`.
    pub fn collect_dirty_ancestors(&self, target_path: Path, dirty: &mut DirtySet)
        requires
            self.wf(),
            old(dirty).wf(),
            keys_valid(old(dirty)@),
        ensures
            final(dirty).wf(),
            keys_valid(final(dirty)@),
            final(dirty)@ == old(dirty)@.union(ancestor_set(self@, target_path@)),
    {
        let found = collect_ancestors(&self.store, &target_path);
        let ghost anc = ancestors(self@, target_path@);
        let ghost d0 = dirty@;
        let mut i: usize = 0;
        while i < found.len()
            invariant
                i <= found@.len(),
                self.wf(),
                keys_view(found@) == anc,
                anc == ancestors(self@, target_path@),
                dirty.wf(),
                keys_valid(dirty@),
                dirty@ == d0.union(Set::new(|k: KeySpec| anc.take(i as int).contains(k))),
            decreases found@.len() - i,
        {
            let ghost before = dirty@;
            let k = found[i];
            proof {
                assert(anc[i as int] == k@);
                assert(anc.contains(k@));
                crate::flat::ancestors::lemma_anc_contains(self@, target_path@, 256, 0, k@);
                let j = crate::flat::store::entry_pos(self.store.entries@, k@);
                assert(key_valid(self.store.entries@[j].0@));
            }
            dirty.insert(k);
            proof {
                let t0 = anc.take(i as int);
                let t1 = anc.take(i + 1);
                assert(t1 =~= t0.push(k@));
                assert forall|x: KeySpec| t1.contains(x) <==> (t0.contains(x) || x == k@) by {
                    if t1.contains(x) {
                        let a = choose|a: int| 0 <= a < t1.len() && t1[a] == x;
                        if a < i {
                            assert(t0[a] == x);
                        }
                    }
                    if t0.contains(x) {
                        let a = choose|a: int| 0 <= a < t0.len() && t0[a] == x;
                        assert(t1[a] == x);
                    }
                    assert(t1[i as int] == k@);
                }
                assert(dirty@ =~= d0.union(Set::new(|x: KeySpec| t1.contains(x))));
            }
            i += 1;
        }
        proof {
            assert(anc.take(found@.len() as int) =~= anc);
            assert(dirty@ =~= d0.union(ancestor_set(self@, target_path@)));
        }
    }

    /// Rehashes the dirty nodes, deepest first: each split point gets the
    /// pair hash of its two children, or leaves the store where both are zero.
    pub fn rehash_and_prune(&mut self, dirty_nodes: DirtySet)
        requires
            old(self).wf(),
            dirty_nodes.wf(),
            keys_valid(dirty_nodes@),
        ensures
            final(self).wf(),
            final(self)@ == rehash_fold(old(self)@, dirty_nodes.order()),
    {
        let ghost m0 = self@;
        let ghost order = dirty_nodes.order();
        let zero = zero_hash();
        let mut i: usize = 0;
        assert(order.take(0) =~= Seq::<KeySpec>::empty());
        while i < dirty_nodes.nodes.len()
            invariant
                i <= order.len(),
                order == dirty_nodes.order(),
                keys_valid(dirty_nodes@),
                zero@ == zero32(),
                self.wf(),
                self@ == rehash_fold(m0, order.take(i as int)),
            decreases order.len() - i,
        {
            let node = dirty_nodes.nodes[i];
            proof {
                assert(order[i as int] == node@);
                assert(order.contains(node@));
                assert(dirty_nodes@.contains(node@));
                assert(order.take(i + 1).drop_last() =~= order.take(i as int));
                assert(order.take(i + 1).last() == node@);
            }
            if node.len < 256 {
                let l_hash = self.child_hash_of(&node, 0);
                let r_hash = self.child_hash_of(&node, 1);
                if crate::merkle_proof::hashes_equal(&l_hash, &zero) && crate::merkle_proof::hashes_equal(
                    &r_hash,
                    &zero,
                ) {
                    self.remove_raw(&node);
                } else {
                    self.insert_raw(node, h_pair(&l_hash, &r_hash));
                }
            }
            i += 1;
        }
        assert(order.take(order.len() as int) =~= order);
    }
}

} // verus!
