//! A batch of inserts and deletes on the flat engine.

use crate::flat::dirty::{is_deep_order, DirtySet};
use crate::flat::hubt::{
    ancestor_set, concat_and_hash, ensure_node, ensure_splits, keys_valid, lcp_key,
    lemma_leaf_key_valid, rehash_fold, sha256, RocksHubt, StateSpec,
};
use crate::flat::key::{KeySpec, NodeKey};
use crate::flat::store::leaf_key;
use crate::hash::{sha256_spec, zero32, zero_hash};
use crate::sorting::{keyed_le, par_sort_keyed, Keyed};
use rayon::iter::{IndexedParallelIterator, IntoParallelRefIterator, ParallelIterator};
use vstd::prelude::*;

verus! {

/// One write of a batch.
#[derive(Debug, Clone)]
pub enum Op {
    /// Binds the second part to the first.
    Insert(Vec<u8>, Vec<u8>),
    /// Takes away the binding of the key.
    Delete(Vec<u8>),
}

/// A write made ready: the path of its leaf, its position in the batch,
/// whether it is an insert, and the hash of its leaf.
pub type Prepared = Keyed;

/// A write made ready, in specifications: path, insert or not, leaf hash.
pub type PrepSpec = (Seq<u8>, bool, Seq<u8>);

/// The key that a write is about.
pub open spec fn op_key(op: Op) -> Seq<u8> {
    match op {
        Op::Insert(k, _) => k@,
        Op::Delete(k) => k@,
    }
}

/// The path of the leaf of a write: the digest of its key.
pub open spec fn op_path(op: Op) -> Seq<u8> {
    sha256_spec(op_key(op))
}

/// The hash of the leaf that a write leaves: for an insert the digest of the
/// key followed by the value, for a delete zero.
pub open spec fn op_leaf(op: Op) -> Seq<u8> {
    match op {
        Op::Insert(k, v) => sha256_spec(k@ + v@),
        Op::Delete(_) => zero32(),
    }
}

/// `p` is write number `p.1` of the batch, made ready.
pub open spec fn is_prepared_of(p: Prepared, ops: Seq<Op>) -> bool {
    &&& p.1 < ops.len()
    &&& p.0@ == op_path(ops[p.1 as int])
    &&& p.2 == (ops[p.1 as int] is Insert)
    &&& p.3@ == op_leaf(ops[p.1 as int])
}

/// The order of prepared writes: by path, then by position in the batch.
pub open spec fn prepared_le(x: Prepared, y: Prepared) -> bool {
    keyed_le(x, y)
}

/// Some prepared write of the list has position `n` of the batch.
pub open spec fn has_position(s: Seq<Prepared>, n: int) -> bool {
    exists|i: int| 0 <= i < s.len() && (#[trigger] s[i]).1 == n
}

/// `s` holds the writes of the batch, each once, made ready and in order.
pub open spec fn sorted_prepared_of(s: Seq<Prepared>, ops: Seq<Op>) -> bool {
    &&& s.len() == ops.len()
    &&& forall|i: int, j: int| 0 <= i < j < s.len() ==> prepared_le(s[i], s[j])
    &&& forall|i: int| 0 <= i < s.len() ==> is_prepared_of(#[trigger] s[i], ops)
    &&& forall|n: int| 0 <= n < ops.len() ==> #[trigger] has_position(s, n)
    &&& forall|i: int, j: int| 0 <= i < s.len() && 0 <= j < s.len() && i != j ==> s[i].1 != s[j].1
}

/// The prepared writes in specifications.
pub open spec fn prep_view(s: Seq<Prepared>) -> Seq<PrepSpec> {
    Seq::new(s.len(), |i: int| (s[i].0@, s[i].2, s[i].3@))
}

/// Makes write number `seq` of a batch ready: hashes its key to the path of
/// its leaf, and for an insert its key and value to the hash of the leaf.
pub fn prepare_op(seq: usize, op: &Op) -> (out: Prepared)
    ensures
        out.1 == seq,
        out.0@ == op_path(*op),
        out.2 == (*op is Insert),
        out.3@ == op_leaf(*op),
{
    match op {
        Op::Insert(k, v) => (sha256(k.as_slice()), seq, true, concat_and_hash(k.as_slice(), v.as_slice())),
        Op::Delete(k) => (sha256(k.as_slice()), seq, false, zero_hash()),
    }
}

/// Runs `prepare_op` on every write of the batch through rayon's `par_iter`,
/// `enumerate`, `map` and `collect`, which may work on the writes on
/// different threads and hand back the results in the order of the batch.
#[verifier::external_body]
fn prepare_in_parallel(ops: &Vec<Op>) -> (out: Vec<Prepared>)
    ensures
        out@.len() == ops@.len(),
        forall|i: int| 0 <= i < out@.len() ==> (#[trigger] out@[i]).1 == i && is_prepared_of(out@[i], ops@),
{
    ops.par_iter().enumerate().map(|(i, op)| prepare_op(i, op)).collect()
}

/// The writes of a batch made ready, in the order of their paths; writes to
/// one path keep the order of the batch.
pub fn prepare_batch(ops: &Vec<Op>) -> (out: Vec<Prepared>)
    ensures
        sorted_prepared_of(out@, ops@),
{
    let mut list = prepare_in_parallel(ops);
    let ghost f0 = list@;
    par_sort_keyed(&mut list);
    proof {
        let s = list@;
        broadcast use vstd::seq_lib::group_to_multiset_ensures;

        assert(s.len() == f0.len()) by {
            assert(s.to_multiset().len() == f0.to_multiset().len());
        }
        assert(f0.no_duplicates()) by {
            assert forall|a: int, b: int| 0 <= a < f0.len() && 0 <= b < f0.len() && a != b implies f0[a]
                != f0[b] by {
                assert(f0[a].1 != f0[b].1);
            }
        }
        f0.lemma_multiset_has_no_duplicates();
        s.lemma_multiset_has_no_duplicates_conv();
        assert forall|i: int| 0 <= i < s.len() implies is_prepared_of(#[trigger] s[i], ops@) && exists|
            a: int,
        | 0 <= a < f0.len() && f0[a] == s[i] by {
            assert(s.contains(s[i]));
            assert(f0.to_multiset().count(s[i]) > 0);
            assert(f0.contains(s[i]));
            let a = choose|a: int| 0 <= a < f0.len() && f0[a] == s[i];
            assert(is_prepared_of(f0[a], ops@));
        }
        assert forall|n: int| 0 <= n < ops@.len() implies #[trigger] has_position(s, n) by {
            assert(f0.contains(f0[n]));
            assert(s.to_multiset().count(f0[n]) > 0);
            assert(s.contains(f0[n]));
            let p = choose|p: int| 0 <= p < s.len() && s[p] == f0[n];
            assert(s[p].1 == n);
        }
        assert forall|i: int, j: int| 0 <= i < s.len() && 0 <= j < s.len() && i != j implies s[i].1
            != s[j].1 by {
            if s[i].1 == s[j].1 {
                let a = choose|a: int| 0 <= a < f0.len() && f0[a] == s[i];
                let b = choose|b: int| 0 <= b < f0.len() && f0[b] == s[j];
                assert(f0[a].1 == f0[b].1);
                assert(a == b);
            }
        }
    }
    list
}

/// The store after the deletes of the batch.
pub open spec fn apply_deletes(m: Map<KeySpec, Seq<u8>>, p: Seq<PrepSpec>) -> Map<KeySpec, Seq<u8>>
    decreases p.len(),
{
    if p.len() == 0 {
        m
    } else if p.last().1 {
        apply_deletes(m, p.drop_last())
    } else {
        apply_deletes(m, p.drop_last()).remove(leaf_key(p.last().0))
    }
}

/// The state after the inserts of the batch: each leaf is put, and its key
/// joins the dirty set.
pub open spec fn apply_inserts(st: StateSpec, p: Seq<PrepSpec>) -> StateSpec
    decreases p.len(),
{
    if p.len() == 0 {
        st
    } else if p.last().1 {
        let before = apply_inserts(st, p.drop_last());
        (before.0.insert(leaf_key(p.last().0), p.last().2), before.1.insert(leaf_key(p.last().0)))
    } else {
        apply_inserts(st, p.drop_last())
    }
}

/// The state after the split point of two paths is made to exist, where
/// they differ.
pub open spec fn ensure_split_of(st: StateSpec, a: Seq<u8>, b: Seq<u8>) -> StateSpec {
    if a == b {
        st
    } else {
        ensure_node(st, lcp_key(a, b))
    }
}

/// The state after the split points of all neighbours in the batch are made
/// to exist.
pub open spec fn pair_splits(st: StateSpec, p: Seq<PrepSpec>) -> StateSpec
    decreases p.len(),
{
    if p.len() < 2 {
        st
    } else {
        ensure_split_of(pair_splits(st, p.drop_last()), p[p.len() - 2].0, p.last().0)
    }
}

/// The state after the split points of every inserted leaf and the leaves
/// next to it are made to exist.
pub open spec fn neighbour_splits(st: StateSpec, p: Seq<PrepSpec>) -> StateSpec
    decreases p.len(),
{
    if p.len() == 0 {
        st
    } else if p.last().1 {
        ensure_splits(neighbour_splits(st, p.drop_last()), p.last().0)
    } else {
        neighbour_splits(st, p.drop_last())
    }
}

/// The dirty set after the stored nodes on the paths of all leaves of the
/// batch have joined it.
pub open spec fn with_ancestors(m: Map<KeySpec, Seq<u8>>, d: Set<KeySpec>, p: Seq<PrepSpec>) -> Set<
    KeySpec,
>
    decreases p.len(),
{
    if p.len() == 0 {
        d
    } else {
        with_ancestors(m, d, p.drop_last()).union(ancestor_set(m, p.last().0))
    }
}

/// The state of a batch before the rehash: leaves written, split points in
/// place, and every node on the path of a written leaf in the dirty set.
pub open spec fn batch_state(m: Map<KeySpec, Seq<u8>>, p: Seq<PrepSpec>) -> StateSpec {
    let written = apply_inserts((apply_deletes(m, p), Set::<KeySpec>::empty()), p);
    let split = neighbour_splits(pair_splits(written, p), p);
    (split.0, with_ancestors(split.0, split.1, p))
}

/// `after` is the store `before` after the batch `ops`: the state before the
/// rehash is that of the writes made ready and in order, and the dirty nodes
/// are rehashed in their order.
pub open spec fn is_batch_result(
    before: Map<KeySpec, Seq<u8>>,
    ops: Seq<Op>,
    after: Map<KeySpec, Seq<u8>>,
) -> bool {
    exists|s: Seq<Prepared>, order: Seq<KeySpec>| #[trigger]
        sorted_prepared_of(s, ops) && #[trigger] is_deep_order(
            order,
            batch_state(before, prep_view(s)).1,
        ) && after == rehash_fold(batch_state(before, prep_view(s)).0, order)
}

impl RocksHubt {
    /// Applies a batch of writes: removes the leaves of the deletes and puts
    /// those of the inserts, makes the split points exist, gathers the nodes
    /// on the paths of all written leaves, and rehashes them deepest first.
    pub fn batch_update(&mut self, ops: Vec<Op>)
        requires
            old(self).wf(),
        ensures
            final(self).wf(),
            is_batch_result(old(self)@, ops@, final(self)@),
            crate::flat::leaves::leaves_follow(old(self)@, ops@, final(self)@),
            crate::flat::consistency::hash_consistent(old(self)@)
                ==> crate::flat::consistency::hash_consistent(final(self)@),
            crate::flat::soundness::sound_store(old(self)@) && crate::flat::keeping::no_zero_hash(
                final(self)@,
            ) ==> crate::flat::soundness::sound_store(final(self)@),
            crate::flat::canonical::tight(old(self)@) && crate::flat::canonical::inserts_only(ops@)
                ==> crate::flat::canonical::tight(final(self)@),
            crate::flat::rest::at_rest(old(self)@) && crate::flat::rest::digests_sound()
                ==> crate::flat::rest::at_rest(final(self)@),
    {
        let ghost m0 = self@;
        proof {
            assert forall|k: KeySpec| #[trigger] m0.contains_key(k) implies crate::flat::store::key_valid(
                k,
            ) by {
                let i = crate::flat::store::entry_pos(self.store.entries@, k);
                assert(crate::flat::store::key_valid(self.store.entries@[i].0@));
            }
            assert forall|k: KeySpec| #[trigger] m0.contains_key(k) implies k.0.len() == 32 by {
                let i = crate::flat::store::entry_pos(self.store.entries@, k);
                assert(crate::flat::store::key_valid(self.store.entries@[i].0@));
            }
        }
        let prepared = prepare_batch(&ops);
        let ghost s = prepared@;
        let ghost p = prep_view(s);
        let n = prepared.len();
        let mut dirty_set = DirtySet::new();

        // Remove the leaves of the deletes.
        let mut i: usize = 0;
        assert(p.take(0) =~= Seq::<PrepSpec>::empty());
        while i < n
            invariant
                i <= n,
                n == s.len(),
                s == prepared@,
                p == prep_view(s),
                self.wf(),
                self@ == apply_deletes(m0, p.take(i as int)),
            decreases n - i,
        {
            proof {
                assert(p.take(i + 1).drop_last() =~= p.take(i as int));
                assert(p.take(i + 1).last() == p[i as int]);
            }
            if !prepared[i].2 {
                let key = NodeKey { path: prepared[i].0, len: 256 };
                self.remove_raw(&key);
            }
            i += 1;
        }
        assert(p.take(n as int) =~= p);
        let ghost m_a = self@;

        // Put the leaves of the inserts.
        let mut i: usize = 0;
        while i < n
            invariant
                i <= n,
                n == s.len(),
                s == prepared@,
                p == prep_view(s),
                self.wf(),
                dirty_set.wf(),
                keys_valid(dirty_set@),
                (self@, dirty_set@) == apply_inserts((m_a, Set::<KeySpec>::empty()), p.take(i as int)),
            decreases n - i,
        {
            proof {
                assert(p.take(i + 1).drop_last() =~= p.take(i as int));
                assert(p.take(i + 1).last() == p[i as int]);
            }
            if prepared[i].2 {
                let key = NodeKey { path: prepared[i].0, len: 256 };
                proof {
                    lemma_leaf_key_valid(key.path@);
                }
                self.insert_raw(key, prepared[i].3);
                dirty_set.insert(key);
            }
            i += 1;
        }
        let ghost st_b: StateSpec = (self@, dirty_set@);

        // Make the split points of neighbours in the batch exist.
        let mut i: usize = 1;
        proof {
            if n >= 1 {
                assert(p.take(1).len() < 2);
            }
        }
        while i < n
            invariant
                1 <= i,
                n == s.len(),
                s == prepared@,
                p == prep_view(s),
                self.wf(),
                dirty_set.wf(),
                keys_valid(dirty_set@),
                n >= 1 ==> i <= n,
                i <= n ==> (self@, dirty_set@) == pair_splits(st_b, p.take(i as int)),
                n == 0 ==> (self@, dirty_set@) == st_b,
            decreases n - i,
        {
            proof {
                let t = p.take(i + 1);
                assert(t.drop_last() =~= p.take(i as int));
                assert(t.last() == p[i as int]);
                assert(t[t.len() - 2] == p[i - 1]);
            }
            self.ensure_split(&prepared[i - 1].0, &prepared[i].0, &mut dirty_set);
            i += 1;
        }
        let ghost st_c: StateSpec = (self@, dirty_set@);
        assert(st_c == pair_splits(st_b, p)) by {
            if n >= 1 {
                assert(p.take(n as int) =~= p);
            }
        }

        // Make the split points of each inserted leaf and its neighbours exist.
        let mut i: usize = 0;
        while i < n
            invariant
                i <= n,
                n == s.len(),
                s == prepared@,
                p == prep_view(s),
                self.wf(),
                dirty_set.wf(),
                keys_valid(dirty_set@),
                (self@, dirty_set@) == neighbour_splits(st_c, p.take(i as int)),
            decreases n - i,
        {
            proof {
                assert(p.take(i + 1).drop_last() =~= p.take(i as int));
                assert(p.take(i + 1).last() == p[i as int]);
            }
            if prepared[i].2 {
                self.ensure_split_points(prepared[i].0, &mut dirty_set);
            }
            i += 1;
        }
        let ghost st_d: StateSpec = (self@, dirty_set@);

        // Gather the nodes on the paths of all written leaves.
        let mut i: usize = 0;
        while i < n
            invariant
                i <= n,
                n == s.len(),
                s == prepared@,
                p == prep_view(s),
                self.wf(),
                self@ == st_d.0,
                dirty_set.wf(),
                keys_valid(dirty_set@),
                dirty_set@ == with_ancestors(st_d.0, st_d.1, p.take(i as int)),
            decreases n - i,
        {
            proof {
                assert(p.take(i + 1).drop_last() =~= p.take(i as int));
                assert(p.take(i + 1).last() == p[i as int]);
            }
            self.collect_dirty_ancestors(prepared[i].0, &mut dirty_set);
            i += 1;
        }
        proof {
            assert((self@, dirty_set@) == batch_state(m0, p));
            dirty_set.lemma_order();
        }
        let ghost order = dirty_set.order();
        self.rehash_and_prune(dirty_set);
        proof {
            assert(sorted_prepared_of(s, ops@) && is_deep_order(order, batch_state(m0, prep_view(s)).1)
                && self@ == rehash_fold(batch_state(m0, prep_view(s)).0, order));
            assert forall|x: Seq<u8>| #[trigger]
                crate::flat::leaves::leaf_after(m0, ops@, self@, x) by {
                crate::flat::leaves::lemma_batch_leaves(m0, ops@, self@, x);
            }
            if crate::flat::consistency::hash_consistent(m0) {
                crate::flat::consistency::lemma_batch_consistent(m0, ops@, self@);
            }
            if crate::flat::soundness::sound_store(m0) && crate::flat::keeping::no_zero_hash(self@) {
                crate::flat::keeping::lemma_batch_sound(m0, ops@, self@);
            }
            if crate::flat::canonical::tight(m0) && crate::flat::canonical::inserts_only(ops@) {
                crate::flat::canonical::lemma_batch_tight(m0, ops@, self@);
            }
            if crate::flat::rest::at_rest(m0) {
                crate::flat::rest::lemma_batch_at_rest(m0, ops@, self@);
            }
        }
    }
}

} // verus!
