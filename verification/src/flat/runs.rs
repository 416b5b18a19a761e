//! Runs of batches: the store after several batches of inserts, one after
//! the other, is fixed by what the batches leave at every path.

use crate::flat::batch::{is_batch_result, op_key, op_leaf, op_path, Op};
use crate::flat::canonical::{
    canonical_store, inserted, inserts_only, lemma_batch_canonical, lemma_canonical,
    lemma_last_insert_exists, lemma_no_deletes, same_last_writes,
};
use crate::flat::consistency::agree_at;
use crate::flat::keeping::no_zero_hash;
use crate::flat::rest::{at_rest, digests_sound, lemma_batch_at_rest};
use crate::flat::key::KeySpec;
use crate::flat::leaves::{
    inserts_at, is_last_insert, keys_sized, leaf_after, leaves_follow, lemma_batch_leaves,
};
use crate::flat::store::{key_valid, leaf_key};
use crate::merkle_proof::{collides, collision_free};
use vstd::prelude::*;

verus! {

/// The writes of all the batches, in the order in which they are made.
pub open spec fn all_writes(batches: Seq<Seq<Op>>) -> Seq<Op>
    decreases batches.len(),
{
    if batches.len() == 0 {
        Seq::empty()
    } else {
        all_writes(batches.drop_last()) + batches.last()
    }
}

/// Batch number `i` holds inserts only and takes store number `i` to the
/// next store.
pub open spec fn run_step(stores: Seq<Map<KeySpec, Seq<u8>>>, batches: Seq<Seq<Op>>, i: int) -> bool {
    &&& inserts_only(batches[i])
    &&& is_batch_result(stores[i], batches[i], stores[i + 1])
}

/// No store of the run behind the first holds a zero hash.
pub open spec fn none_zero(stores: Seq<Map<KeySpec, Seq<u8>>>) -> bool {
    forall|i: int| 0 < i < stores.len() ==> no_zero_hash(#[trigger] stores[i])
}

/// `stores` are the stores of a run of batches of inserts: the first is the
/// store at the start, and each batch takes one store to the next.
pub open spec fn is_run(stores: Seq<Map<KeySpec, Seq<u8>>>, batches: Seq<Seq<Op>>) -> bool {
    &&& stores.len() == batches.len() + 1
    &&& forall|i: int| 0 <= i < batches.len() ==> #[trigger] run_step(stores, batches, i)
}

/// What two batches of inserts, one after the other, do to a leaf is what
/// the one batch of all their writes does to it.
pub proof fn lemma_leaves_compose(
    before: Map<KeySpec, Seq<u8>>,
    base: Seq<Op>,
    mid: Map<KeySpec, Seq<u8>>,
    delta: Seq<Op>,
    after: Map<KeySpec, Seq<u8>>,
    x: Seq<u8>,
)
    requires
        inserts_only(base),
        inserts_only(delta),
        leaf_after(before, base, mid, x),
        leaf_after(mid, delta, after, x),
    ensures
        inserts_only(base + delta),
        leaf_after(before, base + delta, after, x),
{
    let all = base + delta;
    let n = base.len() as int;
    assert(inserts_only(all)) by {
        assert forall|i: int| 0 <= i < all.len() implies #[trigger] all[i] is Insert by {
            if i < n {
                assert(all[i] == base[i]);
            } else {
                assert(all[i] == delta[i - n]);
            }
        }
    }
    lemma_no_deletes(base, x);
    lemma_no_deletes(delta, x);
    lemma_no_deletes(all, x);
    assert forall|i: int| inserts_at(all, i, x) <==> (inserts_at(base, i, x) || inserts_at(
        delta,
        i - n,
        x,
    )) by {
        if 0 <= i < n {
            assert(all[i] == base[i]);
        } else if n <= i < all.len() {
            assert(all[i] == delta[i - n]);
        }
    }
    let q = leaf_key(x);
    if exists|j: int| inserts_at(delta, j, x) {
        let j0 = choose|j: int| inserts_at(delta, j, x);
        assert(inserts_at(all, j0 + n, x));
        assert forall|i: int| #[trigger] is_last_insert(all, i, x) implies after[q] == op_leaf(
            all[i],
        ) by {
            if inserts_at(base, i, x) {
                assert(i < j0 + n);
            } else {
                assert(inserts_at(delta, i - n, x));
                assert(is_last_insert(delta, i - n, x)) by {
                    assert forall|k: int| i - n < k implies !#[trigger] inserts_at(delta, k, x) by {
                        if inserts_at(delta, k, x) {
                            assert(inserts_at(all, k + n, x));
                        }
                    }
                }
                assert(all[i] == delta[i - n]);
            }
        }
    } else if exists|i: int| inserts_at(base, i, x) {
        let i0 = choose|i: int| inserts_at(base, i, x);
        assert(inserts_at(all, i0, x));
        assert forall|i: int| #[trigger] is_last_insert(all, i, x) implies after[q] == op_leaf(
            all[i],
        ) by {
            if !inserts_at(base, i, x) {
                assert(inserts_at(delta, i - n, x));
            }
            assert(is_last_insert(base, i, x)) by {
                assert forall|k: int| i < k implies !#[trigger] inserts_at(base, k, x) by {
                    if inserts_at(base, k, x) {
                        assert(inserts_at(all, k, x));
                    }
                }
            }
            assert(all[i] == base[i]);
        }
    } else {
        assert(!exists|i: int| inserts_at(all, i, x)) by {
            if exists|i: int| inserts_at(all, i, x) {
                let i = choose|i: int| inserts_at(all, i, x);
                if !inserts_at(base, i, x) {
                    assert(inserts_at(delta, i - n, x));
                }
            }
        }
    }
}

/// A run of batches of inserts on a canonical store ends in a canonical
/// store, whose leaves are those that the one batch of all the writes of the
/// run would leave, where the run leaves no zero hash.
pub proof fn lemma_run_canonical(stores: Seq<Map<KeySpec, Seq<u8>>>, batches: Seq<Seq<Op>>)
    requires
        is_run(stores, batches),
        none_zero(stores),
        canonical_store(stores[0]),
    ensures
        canonical_store(stores.last()),
        inserts_only(all_writes(batches)),
        leaves_follow(stores[0], all_writes(batches), stores.last()),
    decreases batches.len(),
{
    let before = stores[0];
    if batches.len() == 0 {
        let none = all_writes(batches);
        assert(stores.last() == before);
        assert forall|x: Seq<u8>| #[trigger] leaf_after(before, none, before, x) by {
            lemma_no_deletes(none, x);
        }
    } else {
        let n = batches.len() as int;
        let s0 = stores.drop_last();
        let b0 = batches.drop_last();
        assert(is_run(s0, b0)) by {
            assert forall|i: int| 0 <= i < b0.len() implies #[trigger] run_step(s0, b0, i) by {
                assert(run_step(stores, batches, i));
            }
        }
        assert(none_zero(s0)) by {
            assert forall|i: int| 0 < i < s0.len() implies no_zero_hash(#[trigger] s0[i]) by {
                assert(s0[i] == stores[i]);
            }
        }
        lemma_run_canonical(s0, b0);
        let mid = stores[n - 1];
        let after = stores[n];
        let base = all_writes(b0);
        let delta = batches[n - 1];
        assert(s0.last() == mid && s0[0] == before && stores.last() == after);
        assert(batches.last() == delta);
        assert(run_step(stores, batches, n - 1));
        assert(no_zero_hash(stores[n]));
        lemma_batch_canonical(mid, delta, after);
        assert(keys_sized(mid)) by {
            assert forall|k: KeySpec| #[trigger] mid.contains_key(k) implies k.0.len() == 32 by {
                assert(key_valid(k));
            }
        }
        assert forall|x: Seq<u8>| #[trigger] leaf_after(before, base + delta, after, x) by {
            assert(leaf_after(before, base, mid, x));
            lemma_batch_leaves(mid, delta, after, x);
            lemma_leaves_compose(before, base, mid, delta, after, x);
        }
        let any = Seq::<u8>::empty();
        assert(leaf_after(before, base, mid, any));
        lemma_batch_leaves(mid, delta, after, any);
        lemma_leaves_compose(before, base, mid, delta, after, any);
    }
}

/// Two runs of batches of inserts from one canonical store, whose writes
/// taken together leave the same at every path, end in the same store, and
/// so in the same state root, however the writes are ordered and wherever
/// the runs are cut into batches, where the runs leave no zero hash.
pub proof fn lemma_flat_runs_agree(
    stores: Seq<Map<KeySpec, Seq<u8>>>,
    batches: Seq<Seq<Op>>,
    other_stores: Seq<Map<KeySpec, Seq<u8>>>,
    other_batches: Seq<Seq<Op>>,
)
    requires
        is_run(stores, batches),
        is_run(other_stores, other_batches),
        none_zero(stores),
        none_zero(other_stores),
        stores[0] == other_stores[0],
        canonical_store(stores[0]),
        same_last_writes(all_writes(batches), all_writes(other_batches)),
    ensures
        stores.last() == other_stores.last(),
{
    let before = stores[0];
    let one = all_writes(batches);
    let other = all_writes(other_batches);
    let r1 = stores.last();
    let r2 = other_stores.last();
    lemma_run_canonical(stores, batches);
    lemma_run_canonical(other_stores, other_batches);
    assert forall|q: KeySpec| q.1 == 256 implies #[trigger] agree_at(r1, r2, q) by {
        let x = q.0;
        assert(q == leaf_key(x));
        assert(leaf_after(before, one, r1, x));
        assert(leaf_after(before, other, r2, x));
        lemma_no_deletes(one, x);
        lemma_no_deletes(other, x);
        if exists|i: int| inserts_at(one, i, x) {
            let i0 = choose|i: int| inserts_at(one, i, x);
            let i = lemma_last_insert_exists(one, x, i0);
            assert(inserted(other, x));
            let j0 = choose|k: int| inserts_at(other, k, x);
            let j = lemma_last_insert_exists(other, x, j0);
            assert(op_leaf(one[i]) == op_leaf(other[j]));
        } else if exists|j: int| inserts_at(other, j, x) {
            let j = choose|j: int| inserts_at(other, j, x);
            assert(inserted(one, x));
        }
    }
    lemma_canonical(r1, r2);
}

/// Every store of a run from a store at rest is at rest, as long as no
/// SHA-256 digest is zero.
pub proof fn lemma_run_at_rest(stores: Seq<Map<KeySpec, Seq<u8>>>, batches: Seq<Seq<Op>>, i: int)
    requires
        is_run(stores, batches),
        at_rest(stores[0]),
        0 <= i < stores.len(),
    ensures
        digests_sound() ==> at_rest(stores[i]),
    decreases i,
{
    if i > 0 {
        lemma_run_at_rest(stores, batches, i - 1);
        assert(run_step(stores, batches, i - 1));
        if digests_sound() {
            lemma_batch_at_rest(stores[i - 1], batches[i - 1], stores[i]);
        }
    }
}

/// Determinism of the flat engine: two runs of batches of inserts from one
/// canonical store at rest, whose writes taken together leave the same at
/// every path, end in the same store, and so in the same state root,
/// however the writes are ordered and wherever the runs are cut into
/// batches. This holds as long as no SHA-256 digest is zero: a split point
/// over two zero hashes leaves the store, and a later batch need not bring
/// it back.
pub proof fn lemma_flat_deterministic(
    stores: Seq<Map<KeySpec, Seq<u8>>>,
    batches: Seq<Seq<Op>>,
    other_stores: Seq<Map<KeySpec, Seq<u8>>>,
    other_batches: Seq<Seq<Op>>,
)
    requires
        is_run(stores, batches),
        is_run(other_stores, other_batches),
        stores[0] == other_stores[0],
        canonical_store(stores[0]),
        at_rest(stores[0]),
        same_last_writes(all_writes(batches), all_writes(other_batches)),
    ensures
        digests_sound() ==> stores.last() == other_stores.last(),
{
    if digests_sound() {
        assert(none_zero(stores)) by {
            assert forall|i: int| 0 < i < stores.len() implies no_zero_hash(#[trigger] stores[i]) by {
                lemma_run_at_rest(stores, batches, i);
            }
        }
        assert(none_zero(other_stores)) by {
            assert forall|i: int| 0 < i < other_stores.len() implies no_zero_hash(
                #[trigger] other_stores[i],
            ) by {
                lemma_run_at_rest(other_stores, other_batches, i);
            }
        }
        lemma_flat_runs_agree(stores, batches, other_stores, other_batches);
    }
}

/// The store without nodes is canonical and at rest: every run may start
/// from it.
pub proof fn lemma_empty_store_at_rest()
    ensures
        canonical_store(Map::<KeySpec, Seq<u8>>::empty()),
        at_rest(Map::<KeySpec, Seq<u8>>::empty()),
{
}

/// No two writes of the list are at the same leaf.
pub open spec fn distinct_paths(ops: Seq<Op>) -> bool {
    forall|i: int, j: int| 0 <= i < j < ops.len() ==> op_path(ops[i]) != op_path(ops[j])
}

/// No two writes of the list are about the same key.
pub open spec fn distinct_keys(ops: Seq<Op>) -> bool {
    forall|i: int, j: int| 0 <= i < j < ops.len() ==> op_key(ops[i]) != op_key(ops[j])
}

/// Writes about distinct keys are at distinct leaves, as long as SHA-256
/// has no collision.
pub proof fn lemma_distinct_keys_paths(ops: Seq<Op>)
    requires
        distinct_keys(ops),
    ensures
        collision_free() ==> distinct_paths(ops),
{
    if collision_free() {
        assert forall|i: int, j: int| 0 <= i < j < ops.len() implies op_path(ops[i]) != op_path(
            ops[j],
        ) by {
            assert(!collides(op_key(ops[i]), op_key(ops[j])));
        }
    }
}

/// Every write of `one` is a write of `other`.
pub open spec fn writes_among(one: Seq<Op>, other: Seq<Op>) -> bool {
    forall|i: int| 0 <= i < one.len() ==> other.contains(#[trigger] one[i])
}

/// Two lists of inserts at distinct leaves that hold the same writes, in
/// whatever order, leave the same at every path.
pub proof fn lemma_reordered_writes(one: Seq<Op>, other: Seq<Op>)
    requires
        inserts_only(one),
        inserts_only(other),
        distinct_paths(one),
        distinct_paths(other),
        writes_among(one, other),
        writes_among(other, one),
    ensures
        same_last_writes(one, other),
{
    assert forall|x: Seq<u8>, i: int| #[trigger] inserts_at(one, i, x) implies inserted(other, x) by {
        assert(other.contains(one[i]));
        let j = choose|j: int| 0 <= j < other.len() && other[j] == one[i];
        assert(inserts_at(other, j, x));
    }
    assert forall|x: Seq<u8>, j: int| #[trigger] inserts_at(other, j, x) implies inserted(one, x) by {
        assert(one.contains(other[j]));
        let i = choose|i: int| 0 <= i < one.len() && one[i] == other[j];
        assert(inserts_at(one, i, x));
    }
    assert forall|x: Seq<u8>, i: int, j: int| #[trigger]
        is_last_insert(one, i, x) && #[trigger] is_last_insert(other, j, x) implies op_leaf(one[i])
        == op_leaf(other[j]) by {
        assert(other.contains(one[i]));
        let k = choose|k: int| 0 <= k < other.len() && other[k] == one[i];
        if k < j {
            assert(op_path(other[k]) != op_path(other[j]));
        } else if j < k {
            assert(op_path(other[j]) != op_path(other[k]));
        }
    }
}

} // verus!
