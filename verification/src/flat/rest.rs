//! The store at rest holds no zero hash: a batch on a store without zero
//! hashes leaves none, as long as no SHA-256 digest is zero.

use crate::flat::batch::{
    apply_deletes, apply_inserts, batch_state, ensure_split_of, is_batch_result, is_prepared_of,
    neighbour_splits, op_leaf, pair_splits, prep_view, sorted_prepared_of, with_ancestors, Op,
    PrepSpec, Prepared,
};
use crate::flat::canonical::lemma_last_insert_exists;
use crate::flat::consistency::{
    hash_consistent, lemma_batch_consistent, lemma_with_ancestors, map_valid,
};
use crate::flat::dirty::is_deep_order;
use crate::flat::hubt::{
    child_hash, ensure_node, ensure_splits, next_leaf_of, prev_leaf_of, rehash_fold, rehash_step,
    split_with, StateSpec,
};
use crate::flat::keeping::no_zero_hash;
use crate::flat::key::KeySpec;
use crate::flat::leaves::{inserts_at, keys_sized, lemma_apply_deletes, lemma_batch_leaves};
use crate::flat::soundness::sound_store;
use crate::flat::store::{key_valid, leaf_key};
use crate::hash::{all_zero, pair_hash, sha256_spec, zero32};
use vstd::prelude::*;

verus! {

/// Every SHA-256 digest has 32 bytes, and none is the zero hash.
pub open spec fn digests_sound() -> bool {
    forall|x: Seq<u8>| (#[trigger] sha256_spec(x)).len() == 32 && sha256_spec(x) != zero32()
}

/// Every stored hash has 32 bytes.
pub open spec fn hashes_sized(m: Map<KeySpec, Seq<u8>>) -> bool {
    forall|k: KeySpec| #[trigger] m.contains_key(k) ==> m[k].len() == 32
}

/// The state of a batch in the making holds hashes of 32 bytes, and a zero
/// hash under dirty keys alone.
pub open spec fn zeros_dirty(st: StateSpec) -> bool {
    &&& hashes_sized(st.0)
    &&& forall|k: KeySpec| #[trigger] st.0.contains_key(k) && st.0[k] == zero32() ==> st.1.contains(k)
}

/// The hash of every prepared write has 32 bytes.
pub open spec fn leaves_sized(p: Seq<PrepSpec>) -> bool {
    forall|i: int| 0 <= i < p.len() ==> (#[trigger] p[i]).2.len() == 32
}

/// The pair hash of two hashes that are not both zero is a digest.
pub proof fn lemma_pair_is_digest(l: Seq<u8>, r: Seq<u8>)
    requires
        l.len() == 32,
        r.len() == 32,
        !(l == zero32() && r == zero32()),
    ensures
        pair_hash(l, r) == sha256_spec(l + r),
{
    let both = l + r;
    if all_zero(both) {
        assert forall|i: int| 0 <= i < 32 implies l[i] == 0u8 && r[i] == 0u8 by {
            assert(both[i] == l[i]);
            assert(both[32 + i] == r[i]);
        }
        assert(l =~= zero32());
        assert(r =~= zero32());
    }
}

/// The inserts of a batch keep zero hashes under dirty keys.
proof fn lemma_inserts_zeros(st: StateSpec, p: Seq<PrepSpec>)
    requires
        zeros_dirty(st),
        leaves_sized(p),
    ensures
        zeros_dirty(apply_inserts(st, p)),
    decreases p.len(),
{
    if p.len() > 0 {
        let d = p.drop_last();
        assert(leaves_sized(d)) by {
            assert forall|i: int| 0 <= i < d.len() implies (#[trigger] d[i]).2.len() == 32 by {
                assert(d[i] == p[i]);
            }
        }
        lemma_inserts_zeros(st, d);
        assert(p[p.len() - 1] == p.last());
    }
}

/// The split points of neighbours in the batch keep zero hashes under dirty keys.
proof fn lemma_pair_splits_zeros(st: StateSpec, p: Seq<PrepSpec>)
    requires
        zeros_dirty(st),
    ensures
        zeros_dirty(pair_splits(st, p)),
    decreases p.len(),
{
    if p.len() >= 2 {
        lemma_pair_splits_zeros(st, p.drop_last());
        let inner = pair_splits(st, p.drop_last());
        assert(zeros_dirty(ensure_split_of(inner, p[p.len() - 2].0, p.last().0)));
    }
}

/// The split points of a leaf and its neighbours keep zero hashes under dirty keys.
proof fn lemma_ensure_splits_zeros(st: StateSpec, t: Seq<u8>)
    requires
        zeros_dirty(st),
    ensures
        zeros_dirty(ensure_splits(st, t)),
{
    let st1 = split_with(st, t, prev_leaf_of(st.0, t));
    assert(zeros_dirty(st1));
    assert(zeros_dirty(split_with(st1, t, next_leaf_of(st1.0, t))));
}

/// The split points of all inserted leaves keep zero hashes under dirty keys.
proof fn lemma_neighbour_splits_zeros(st: StateSpec, p: Seq<PrepSpec>)
    requires
        zeros_dirty(st),
    ensures
        zeros_dirty(neighbour_splits(st, p)),
    decreases p.len(),
{
    if p.len() > 0 {
        lemma_neighbour_splits_zeros(st, p.drop_last());
        if p.last().1 {
            lemma_ensure_splits_zeros(neighbour_splits(st, p.drop_last()), p.last().0);
        }
    }
}

/// Before the rehash of a batch on a store without zero hashes, every zero
/// hash stands under a dirty key.
proof fn lemma_state_zeros(before: Map<KeySpec, Seq<u8>>, p: Seq<PrepSpec>)
    requires
        hashes_sized(before),
        no_zero_hash(before),
        leaves_sized(p),
    ensures
        zeros_dirty(batch_state(before, p)),
{
    let deleted = apply_deletes(before, p);
    let start: StateSpec = (deleted, Set::<KeySpec>::empty());
    assert(zeros_dirty(start)) by {
        assert forall|k: KeySpec| #[trigger] deleted.contains_key(k) implies deleted[k].len() == 32
            && deleted[k] != zero32() by {
            lemma_apply_deletes(before, p, k);
        }
    }
    lemma_inserts_zeros(start, p);
    let written = apply_inserts(start, p);
    lemma_pair_splits_zeros(written, p);
    let paired = pair_splits(written, p);
    lemma_neighbour_splits_zeros(paired, p);
    let split = neighbour_splits(paired, p);
    let dirty = with_ancestors(split.0, split.1, p);
    assert(batch_state(before, p) == (split.0, dirty));
    assert forall|k: KeySpec| #[trigger] split.0.contains_key(k) && split.0[k] == zero32() implies dirty.contains(
        k,
    ) by {
        lemma_with_ancestors(split.0, split.1, p, k);
    }
}

/// After the first `i` nodes of its order the rehash has left hashes of 32
/// bytes, and a zero hash under split points that are still to come alone.
proof fn lemma_rehash_zeros(m: Map<KeySpec, Seq<u8>>, order: Seq<KeySpec>, i: int)
    requires
        digests_sound(),
        hashes_sized(m),
        forall|k: KeySpec|
            #[trigger] m.contains_key(k) && k.1 < 256 && m[k] == zero32() ==> order.contains(k),
        0 <= i <= order.len(),
    ensures
        hashes_sized(rehash_fold(m, order.take(i))),
        forall|k: KeySpec|
            #[trigger] rehash_fold(m, order.take(i)).contains_key(k) && k.1 < 256 && rehash_fold(
                m,
                order.take(i),
            )[k] == zero32() ==> order.skip(i).contains(k),
    decreases i,
{
    if i == 0 {
        assert(order.take(0) =~= Seq::<KeySpec>::empty());
        assert(order.skip(0) =~= order);
    } else {
        lemma_rehash_zeros(m, order, i - 1);
        let r = rehash_fold(m, order.take(i - 1));
        let n = order[i - 1];
        assert(order.take(i).drop_last() =~= order.take(i - 1));
        assert(order.take(i).last() == n);
        let after = rehash_step(r, n);
        assert(rehash_fold(m, order.take(i)) == after);
        let l = child_hash(r, n, false);
        let h = child_hash(r, n, true);
        assert(l.len() == 32 && h.len() == 32);
        if n.1 < 256 && !(l == zero32() && h == zero32()) {
            lemma_pair_is_digest(l, h);
        }
        assert forall|k: KeySpec| #[trigger]
            after.contains_key(k) && k.1 < 256 && after[k] == zero32() implies order.skip(
            i,
        ).contains(k) by {
            if k != n {
                assert(r.contains_key(k) && r[k] == zero32());
                let tail = order.skip(i - 1);
                assert(tail.contains(k));
                let a = choose|a: int| 0 <= a < tail.len() && tail[a] == k;
                assert(order.skip(i)[a - 1] == k);
            }
        }
    }
}

/// A batch leaves no zero hash in a store that held none, as long as no
/// SHA-256 digest is zero: the leaves that it writes hold digests, and the
/// rehash gives every split point the digest of its children or takes it
/// out of the store.
pub proof fn lemma_batch_no_zero(before: Map<KeySpec, Seq<u8>>, ops: Seq<Op>, after: Map<KeySpec, Seq<u8>>)
    requires
        map_valid(before),
        hash_consistent(before),
        hashes_sized(before),
        no_zero_hash(before),
        is_batch_result(before, ops, after),
    ensures
        digests_sound() ==> no_zero_hash(after) && hashes_sized(after),
{
    if digests_sound() {
        let (s, order): (Seq<Prepared>, Seq<KeySpec>) = choose|s: Seq<Prepared>, order: Seq<KeySpec>|
         #[trigger]
            sorted_prepared_of(s, ops) && #[trigger] is_deep_order(
                order,
                batch_state(before, prep_view(s)).1,
            ) && after == rehash_fold(batch_state(before, prep_view(s)).0, order);
        let p = prep_view(s);
        assert(leaves_sized(p)) by {
            assert forall|i: int| 0 <= i < p.len() implies (#[trigger] p[i]).2.len() == 32 by {
                assert(is_prepared_of(s[i], ops));
                let op = ops[s[i].1 as int];
                assert(p[i].2 == op_leaf(op));
                match op {
                    Op::Insert(k, v) => {
                        assert(op_leaf(op) == sha256_spec(k@ + v@));
                    },
                    Op::Delete(_) => {},
                }
            }
        }
        lemma_state_zeros(before, p);
        let m = batch_state(before, p).0;
        let len = order.len() as int;
        lemma_rehash_zeros(m, order, len);
        assert(order.take(len) =~= order);
        assert(keys_sized(before)) by {
            assert forall|k: KeySpec| #[trigger] before.contains_key(k) implies k.0.len() == 32 by {
                assert(key_valid(k));
            }
        }
        lemma_batch_consistent(before, ops, after);
        assert forall|k: KeySpec| #[trigger] after.contains_key(k) implies after[k] != zero32() by {
            assert(key_valid(k));
            if k.1 < 256 {
                if after[k] == zero32() {
                    assert(order.skip(len).contains(k));
                }
            } else {
                let x = k.0;
                assert(k == leaf_key(x));
                lemma_batch_leaves(before, ops, after, x);
                if exists|i: int| inserts_at(ops, i, x) {
                    let i0 = choose|i: int| inserts_at(ops, i, x);
                    let i = lemma_last_insert_exists(ops, x, i0);
                    match ops[i] {
                        Op::Insert(key, v) => {
                            assert(op_leaf(ops[i]) == sha256_spec(key@ + v@));
                        },
                        Op::Delete(_) => {},
                    }
                }
            }
        }
    }
}

/// The store at rest: sound, and without a zero hash.
pub open spec fn at_rest(m: Map<KeySpec, Seq<u8>>) -> bool {
    sound_store(m) && hashes_sized(m) && no_zero_hash(m)
}

/// Invariant at rest: a batch takes a store at rest to a store at rest, as
/// long as no SHA-256 digest is zero.
pub proof fn lemma_batch_at_rest(before: Map<KeySpec, Seq<u8>>, ops: Seq<Op>, after: Map<KeySpec, Seq<u8>>)
    requires
        at_rest(before),
        is_batch_result(before, ops, after),
    ensures
        digests_sound() ==> at_rest(after),
{
    lemma_batch_no_zero(before, ops, after);
    if digests_sound() {
        crate::flat::keeping::lemma_batch_sound(before, ops, after);
    }
}

} // verus!
