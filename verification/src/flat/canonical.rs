//! The canonical form of the flat store: where every split point is the
//! split point of two leaves, the store is fixed by its leaves.

use crate::flat::batch::{
    apply_deletes, apply_inserts, batch_state, is_batch_result, neighbour_splits, op_leaf,
    pair_splits, prep_view, sorted_prepared_of, Op, PrepSpec, Prepared,
};
use crate::flat::consistency::{
    agree_at, consistent_at, hash_consistent, lemma_child_hash_local, lemma_under_child_is_deeper,
    map_valid, under_child,
};
use crate::flat::dirty::is_deep_order;
use crate::flat::hubt::{
    child_hash, ensure_splits, lcp_key, next_leaf_of, prev_leaf_of, rehash_fold, split_with,
    StateSpec,
};
use crate::flat::keeping::{lemma_batch_sound, no_zero_hash};
use crate::flat::key::{lemma_key_asymmetric, KeySpec};
use crate::flat::leaves::{
    deletes_at, inserts_at, is_last_insert, keys_sized, lemma_apply_deletes, lemma_apply_inserts,
    lemma_batch_leaves, lemma_lcp_key_is_short, lemma_rehash_keeps_leaves, paths_sized,
    prep_deletes,
};
use crate::flat::soundness::sound_store;
use crate::flat::splits::{grown, lemma_neighbour_splits_grow, lemma_pair_splits_grow, same_leaves};
use crate::flat::store::{is_next_leaf, is_prev_leaf, key_valid, leaf_key};
use vstd::prelude::*;

verus! {

/// `n` is the split point of two leaves of the store.
pub open spec fn splits_leaves(m: Map<KeySpec, Seq<u8>>, n: KeySpec) -> bool {
    exists|x: Seq<u8>, y: Seq<u8>|
        #[trigger] m.contains_key(leaf_key(x)) && #[trigger] m.contains_key(leaf_key(y)) && x != y
            && n == lcp_key(x, y)
}

/// Every split point of the store is the split point of two of its leaves.
pub open spec fn tight(m: Map<KeySpec, Seq<u8>>) -> bool {
    forall|n: KeySpec| #[trigger] m.contains_key(n) && n.1 < 256 ==> splits_leaves(m, n)
}

/// The two stores hold the same leaves with the same hashes.
pub open spec fn equal_leaves(a: Map<KeySpec, Seq<u8>>, b: Map<KeySpec, Seq<u8>>) -> bool {
    forall|q: KeySpec| q.1 == 256 ==> #[trigger] agree_at(a, b, q)
}

/// The two stores hold split points under the same keys.
pub open spec fn same_split_points(a: Map<KeySpec, Seq<u8>>, b: Map<KeySpec, Seq<u8>>) -> bool {
    forall|n: KeySpec| n.1 < 256 ==> (#[trigger] a.contains_key(n) <==> b.contains_key(n))
}

/// Two hash consistent stores with the same leaves and split points under
/// the same keys hold the same under every key with at least `depth` bits.
proof fn lemma_fixed_by_keys_from(a: Map<KeySpec, Seq<u8>>, b: Map<KeySpec, Seq<u8>>, depth: int)
    requires
        map_valid(a),
        map_valid(b),
        hash_consistent(a),
        hash_consistent(b),
        equal_leaves(a, b),
        same_split_points(a, b),
        0 <= depth <= 256,
    ensures
        forall|k: KeySpec| k.1 >= depth ==> #[trigger] agree_at(a, b, k),
    decreases 256 - depth,
{
    if depth == 256 {
        assert forall|k: KeySpec| k.1 >= depth implies #[trigger] agree_at(a, b, k) by {
            if k.1 > 256 {
                if a.contains_key(k) {
                    assert(key_valid(k));
                }
                if b.contains_key(k) {
                    assert(key_valid(k));
                }
            } else {
                assert(agree_at(a, b, k));
            }
        }
    } else {
        lemma_fixed_by_keys_from(a, b, depth + 1);
        assert forall|k: KeySpec| k.1 >= depth implies #[trigger] agree_at(a, b, k) by {
            if k.1 == depth {
                assert(a.contains_key(k) <==> b.contains_key(k));
                if a.contains_key(k) {
                    assert(key_valid(k));
                    assert forall|bit: bool| #[trigger] child_hash(a, k, bit) == child_hash(b, k, bit) by {
                        assert forall|o: KeySpec| #[trigger] under_child(k, bit, o) implies agree_at(
                            a,
                            b,
                            o,
                        ) by {
                            if a.contains_key(o) || b.contains_key(o) {
                                assert(key_valid(o));
                                lemma_under_child_is_deeper(k, bit, o);
                            }
                        }
                        lemma_child_hash_local(a, b, k, bit);
                    }
                    assert(child_hash(a, k, false) == child_hash(b, k, false));
                    assert(child_hash(a, k, true) == child_hash(b, k, true));
                    assert(consistent_at(a, k));
                    assert(consistent_at(b, k));
                }
            }
        }
    }
}

/// The hashes of a store follow from its keys and its leaves: two hash
/// consistent stores with the same leaves, and with split points under the
/// same keys, are the same store.
pub proof fn lemma_fixed_by_keys(a: Map<KeySpec, Seq<u8>>, b: Map<KeySpec, Seq<u8>>)
    requires
        map_valid(a),
        map_valid(b),
        hash_consistent(a),
        hash_consistent(b),
        equal_leaves(a, b),
        same_split_points(a, b),
    ensures
        a == b,
{
    lemma_fixed_by_keys_from(a, b, 0);
    assert forall|k: KeySpec| #[trigger] a.contains_key(k) <==> b.contains_key(k) by {
        if a.contains_key(k) {
            assert(key_valid(k));
        }
        if b.contains_key(k) {
            assert(key_valid(k));
        }
        if k.1 >= 0 {
            assert(agree_at(a, b, k));
        }
    }
    assert forall|k: KeySpec| #[trigger] a.contains_key(k) implies a[k] == b[k] by {
        assert(key_valid(k));
        assert(agree_at(a, b, k));
    }
    assert(a =~= b);
}

/// A split point of a tight store is a split point of every sound store
/// with the same leaves.
proof fn lemma_same_split_points(a: Map<KeySpec, Seq<u8>>, b: Map<KeySpec, Seq<u8>>, n: KeySpec)
    requires
        sound_store(b),
        tight(a),
        equal_leaves(a, b),
        a.contains_key(n),
        n.1 < 256,
    ensures
        b.contains_key(n),
{
    assert(splits_leaves(a, n));
    let (x, y): (Seq<u8>, Seq<u8>) = choose|x: Seq<u8>, y: Seq<u8>|
        #[trigger] a.contains_key(leaf_key(x)) && #[trigger] a.contains_key(leaf_key(y)) && x != y
            && n == lcp_key(x, y);
    assert(agree_at(a, b, leaf_key(x)));
    assert(agree_at(a, b, leaf_key(y)));
}

/// Canonical form: two sound and tight stores with the same leaves are the
/// same store, so they have the same state root.
pub proof fn lemma_canonical(a: Map<KeySpec, Seq<u8>>, b: Map<KeySpec, Seq<u8>>)
    requires
        sound_store(a),
        sound_store(b),
        tight(a),
        tight(b),
        equal_leaves(a, b),
    ensures
        a == b,
{
    assert(equal_leaves(b, a)) by {
        assert forall|q: KeySpec| q.1 == 256 implies #[trigger] agree_at(b, a, q) by {
            assert(agree_at(a, b, q));
        }
    }
    assert forall|n: KeySpec| n.1 < 256 implies (#[trigger] a.contains_key(n) <==> b.contains_key(
        n,
    )) by {
        if a.contains_key(n) {
            lemma_same_split_points(a, b, n);
        }
        if b.contains_key(n) {
            lemma_same_split_points(b, a, n);
        }
    }
    lemma_fixed_by_keys(a, b);
}

/// Every prepared write of the list is an insert.
pub open spec fn all_inserts(p: Seq<PrepSpec>) -> bool {
    forall|i: int| 0 <= i < p.len() ==> (#[trigger] p[i]).1
}

/// Every write of the batch is an insert.
pub open spec fn inserts_only(ops: Seq<Op>) -> bool {
    forall|i: int| 0 <= i < ops.len() ==> #[trigger] ops[i] is Insert
}

/// Every key of `m` is a key of `base` or the split point of two leaves of `base`.
pub open spec fn grown_by_splits(base: Map<KeySpec, Seq<u8>>, m: Map<KeySpec, Seq<u8>>) -> bool {
    forall|k: KeySpec| #[trigger] m.contains_key(k) ==> base.contains_key(k) || splits_leaves(base, k)
}

/// The leaves of every insert of the list stand in the store.
pub open spec fn leaves_written(m: Map<KeySpec, Seq<u8>>, p: Seq<PrepSpec>) -> bool {
    forall|i: int| 0 <= i < p.len() && (#[trigger] p[i]).1 ==> m.contains_key(leaf_key(p[i].0))
}

/// Whether a key is the split point of two leaves depends on the leaves alone.
pub proof fn lemma_splits_by_leaves(a: Map<KeySpec, Seq<u8>>, b: Map<KeySpec, Seq<u8>>, n: KeySpec)
    requires
        same_leaves(a, b),
        splits_leaves(a, n),
    ensures
        splits_leaves(b, n),
{
    let (x, y): (Seq<u8>, Seq<u8>) = choose|x: Seq<u8>, y: Seq<u8>|
        #[trigger] a.contains_key(leaf_key(x)) && #[trigger] a.contains_key(leaf_key(y)) && x != y
            && n == lcp_key(x, y);
    assert(b.contains_key(leaf_key(x)) && b.contains_key(leaf_key(y)));
}

/// The split points of neighbours in a batch of inserts are split points of
/// two leaves.
pub proof fn lemma_pair_splits_tight(st: StateSpec, q: Seq<PrepSpec>)
    requires
        paths_sized(q),
        keys_sized(st.0),
        all_inserts(q),
        leaves_written(st.0, q),
    ensures
        grown_by_splits(st.0, pair_splits(st, q).0),
    decreases q.len(),
{
    if q.len() >= 2 {
        let d = q.drop_last();
        assert forall|j: int| 0 <= j < d.len() implies (#[trigger] d[j]).0.len() == 32 && d[j].1
            && st.0.contains_key(leaf_key(d[j].0)) by {
            assert(d[j] == q[j]);
        }
        lemma_pair_splits_tight(st, d);
        let a = q[q.len() - 2].0;
        let b = q.last().0;
        assert(q[q.len() - 1] == q.last());
        if a != b {
            assert(st.0.contains_key(leaf_key(a)) && st.0.contains_key(leaf_key(b)));
            assert(splits_leaves(st.0, lcp_key(a, b)));
        }
    }
}

/// The split points of a leaf and the leaves next to it are split points of
/// two leaves.
pub proof fn lemma_ensure_splits_tight(st: StateSpec, t: Seq<u8>)
    requires
        t.len() == 32,
        keys_sized(st.0),
        st.0.contains_key(leaf_key(t)),
    ensures
        grown_by_splits(st.0, ensure_splits(st, t).0),
{
    let st1 = split_with(st, t, prev_leaf_of(st.0, t));
    match prev_leaf_of(st.0, t) {
        Some(k) => {
            assert(is_prev_leaf(st.0, t, k));
            if k.0 == t {
                lemma_key_asymmetric(k, leaf_key(t));
            }
            assert(leaf_key(k.0) == k);
            assert(splits_leaves(st.0, lcp_key(t, k.0)));
            lemma_lcp_key_is_short(t, k.0);
        },
        None => {},
    }
    match next_leaf_of(st1.0, t) {
        Some(k) => {
            assert(is_next_leaf(st1.0, t, k));
            if k.0 == t {
                lemma_key_asymmetric(leaf_key(t), k);
            }
            assert(leaf_key(k.0) == k);
            assert(st.0.contains_key(k));
            assert(splits_leaves(st.0, lcp_key(t, k.0)));
        },
        None => {},
    }
}

/// The split points of the inserted leaves are split points of two leaves.
pub proof fn lemma_neighbour_splits_tight(st: StateSpec, q: Seq<PrepSpec>)
    requires
        paths_sized(q),
        keys_sized(st.0),
        leaves_written(st.0, q),
    ensures
        grown_by_splits(st.0, neighbour_splits(st, q).0),
    decreases q.len(),
{
    if q.len() > 0 {
        let d = q.drop_last();
        assert forall|j: int| 0 <= j < d.len() implies (#[trigger] d[j]).0.len() == 32 && (d[j].1
            ==> st.0.contains_key(leaf_key(d[j].0))) by {
            assert(d[j] == q[j]);
        }
        lemma_neighbour_splits_tight(st, d);
        lemma_neighbour_splits_grow(st, d);
        assert(q[q.len() - 1] == q.last());
        if q.last().1 {
            let mid = neighbour_splits(st, d);
            let t = q.last().0;
            assert(mid.0.contains_key(leaf_key(t)));
            lemma_ensure_splits_tight(mid, t);
            assert forall|k: KeySpec| #[trigger] ensure_splits(mid, t).0.contains_key(k) implies st.0.contains_key(
                k,
            ) || splits_leaves(st.0, k) by {
                if !mid.0.contains_key(k) {
                    lemma_splits_by_leaves(mid.0, st.0, k);
                }
            }
        }
    }
}

/// A batch of inserts keeps the store tight: every split point stays the
/// split point of two leaves.
pub proof fn lemma_batch_tight(before: Map<KeySpec, Seq<u8>>, ops: Seq<Op>, after: Map<KeySpec, Seq<u8>>)
    requires
        map_valid(before),
        tight(before),
        inserts_only(ops),
        is_batch_result(before, ops, after),
    ensures
        tight(after),
{
    let (s, order): (Seq<Prepared>, Seq<KeySpec>) = choose|s: Seq<Prepared>, order: Seq<KeySpec>|
     #[trigger]
        sorted_prepared_of(s, ops) && #[trigger] is_deep_order(order, batch_state(before, prep_view(s)).1)
            && after == rehash_fold(batch_state(before, prep_view(s)).0, order);
    let p = prep_view(s);
    assert(paths_sized(p)) by {
        assert forall|i: int| 0 <= i < p.len() implies (#[trigger] p[i]).0.len() == 32 by {}
    }
    assert(all_inserts(p)) by {
        assert forall|i: int| 0 <= i < p.len() implies (#[trigger] p[i]).1 by {
            assert(crate::flat::batch::is_prepared_of(s[i], ops));
        }
    }
    let none = Set::<KeySpec>::empty();
    let deleted = apply_deletes(before, p);
    let start: StateSpec = (deleted, none);
    let written = apply_inserts(start, p);
    let paired = pair_splits(written, p);
    let split = neighbour_splits(paired, p);
    let m = split.0;
    assert(batch_state(before, p).0 == m);
    assert(keys_sized(before)) by {
        assert forall|k: KeySpec| #[trigger] before.contains_key(k) implies k.0.len() == 32 by {
            assert(key_valid(k));
        }
    }
    // Nothing is deleted, and the leaves of the inserts are written.
    assert(grown(before, written.0) && keys_sized(written.0) && leaves_written(written.0, p)) by {
        assert forall|k: KeySpec| #[trigger] before.contains_key(k) implies written.0.contains_key(k) by {
            lemma_apply_deletes(before, p, k);
            lemma_apply_inserts(start, p, k);
            if k.1 == 256 && prep_deletes(p, k.0) {
                let i = choose|i: int| 0 <= i < p.len() && !(#[trigger] p[i]).1 && p[i].0 == k.0;
            }
        }
        assert forall|k: KeySpec| #[trigger] written.0.contains_key(k) implies k.0.len() == 32 by {
            lemma_apply_deletes(before, p, k);
            lemma_apply_inserts(start, p, k);
            if !deleted.contains_key(k) {
                let j = choose|j: int| 0 <= j < p.len() && (#[trigger] p[j]).1 && p[j].0 == k.0;
                assert(p[j].0.len() == 32);
            }
        }
        assert forall|i: int| 0 <= i < p.len() && (#[trigger] p[i]).1 implies written.0.contains_key(
            leaf_key(p[i].0),
        ) by {
            lemma_apply_inserts(start, p, leaf_key(p[i].0));
        }
    }
    lemma_pair_splits_tight(written, p);
    lemma_pair_splits_grow(written, p);
    assert(leaves_written(paired.0, p));
    lemma_neighbour_splits_tight(paired, p);
    lemma_neighbour_splits_grow(paired, p);
    crate::flat::consistency::lemma_batch_state_ready(before, p);
    assert forall|n: KeySpec| #[trigger] after.contains_key(n) && n.1 < 256 implies splits_leaves(
        after,
        n,
    ) by {
        // The node stood in the store before the rehash.
        if !m.contains_key(n) {
            if !order.contains(n) {
                crate::flat::keeping::lemma_rehash_touches_order(m, order, n);
            }
        }
        assert(m.contains_key(n));
        // It is a split point of two leaves of the written store.
        assert(splits_leaves(written.0, n)) by {
            if !paired.0.contains_key(n) {
                lemma_splits_by_leaves(paired.0, written.0, n);
            } else if !written.0.contains_key(n) {
            } else {
                // A node of the store before the batch, or an inserted leaf.
                lemma_apply_deletes(before, p, n);
                lemma_apply_inserts(start, p, n);
                assert(before.contains_key(n));
                assert(splits_leaves(before, n));
                let (x, y): (Seq<u8>, Seq<u8>) = choose|x: Seq<u8>, y: Seq<u8>|
                    #[trigger] before.contains_key(leaf_key(x)) && #[trigger] before.contains_key(
                        leaf_key(y),
                    ) && x != y && n == lcp_key(x, y);
                assert(written.0.contains_key(leaf_key(x)) && written.0.contains_key(leaf_key(y)));
            }
        }
        let (x, y): (Seq<u8>, Seq<u8>) = choose|x: Seq<u8>, y: Seq<u8>|
            #[trigger] written.0.contains_key(leaf_key(x)) && #[trigger] written.0.contains_key(
                leaf_key(y),
            ) && x != y && n == lcp_key(x, y);
        assert(m.contains_key(leaf_key(x)) && m.contains_key(leaf_key(y)));
        lemma_rehash_keeps_leaves(m, order, leaf_key(x));
        lemma_rehash_keeps_leaves(m, order, leaf_key(y));
    }
}

/// Where a batch inserts at a path, one of its inserts at the path is the last.
pub proof fn lemma_last_insert_exists(ops: Seq<Op>, x: Seq<u8>, upto: int) -> (i: int)
    requires
        inserts_at(ops, upto, x),
    ensures
        is_last_insert(ops, i, x),
    decreases ops.len() - upto,
{
    if forall|j: int| upto < j ==> !#[trigger] inserts_at(ops, j, x) {
        upto
    } else {
        let j = choose|j: int| upto < j && #[trigger] inserts_at(ops, j, x);
        lemma_last_insert_exists(ops, x, j)
    }
}

/// The batch inserts at the leaf with path `x`.
pub open spec fn inserted(ops: Seq<Op>, x: Seq<u8>) -> bool {
    exists|k: int| inserts_at(ops, k, x)
}

/// The two batches leave the same at every path: they insert at the same
/// paths, and their last inserts at a path put the same leaf.
pub open spec fn same_last_writes(one: Seq<Op>, other: Seq<Op>) -> bool {
    &&& forall|x: Seq<u8>, i: int| #[trigger] inserts_at(one, i, x) ==> inserted(other, x)
    &&& forall|x: Seq<u8>, j: int| #[trigger] inserts_at(other, j, x) ==> inserted(one, x)
    &&& forall|x: Seq<u8>, i: int, j: int|
        #[trigger] is_last_insert(one, i, x) && #[trigger] is_last_insert(other, j, x) ==> op_leaf(
            one[i],
        ) == op_leaf(other[j])
}

/// The store is sound and tight: it is the canonical store of its leaves.
pub open spec fn canonical_store(m: Map<KeySpec, Seq<u8>>) -> bool {
    sound_store(m) && tight(m)
}

/// A batch of inserts keeps the store canonical, where it leaves no zero
/// hash in it.
pub proof fn lemma_batch_canonical(before: Map<KeySpec, Seq<u8>>, ops: Seq<Op>, after: Map<KeySpec, Seq<u8>>)
    requires
        canonical_store(before),
        inserts_only(ops),
        is_batch_result(before, ops, after),
        no_zero_hash(after),
    ensures
        canonical_store(after),
{
    lemma_batch_sound(before, ops, after);
    lemma_batch_tight(before, ops, after);
}

/// No write of a batch of inserts is a delete.
pub proof fn lemma_no_deletes(ops: Seq<Op>, x: Seq<u8>)
    requires
        inserts_only(ops),
    ensures
        !exists|i: int| deletes_at(ops, i, x),
{
    if exists|i: int| deletes_at(ops, i, x) {
        let i = choose|i: int| deletes_at(ops, i, x);
        assert(ops[i] is Insert);
    }
}

/// Determinism of the flat engine: two batches of inserts that leave the
/// same at every path give the same store, and so the same state root, in
/// whatever order they hold their writes.
pub proof fn lemma_flat_order_independent(
    before: Map<KeySpec, Seq<u8>>,
    one: Seq<Op>,
    other: Seq<Op>,
    r1: Map<KeySpec, Seq<u8>>,
    r2: Map<KeySpec, Seq<u8>>,
)
    requires
        canonical_store(before),
        inserts_only(one),
        inserts_only(other),
        same_last_writes(one, other),
        is_batch_result(before, one, r1),
        is_batch_result(before, other, r2),
        no_zero_hash(r1),
        no_zero_hash(r2),
    ensures
        r1 == r2,
{
    lemma_batch_canonical(before, one, r1);
    lemma_batch_canonical(before, other, r2);
    assert(keys_sized(before)) by {
        assert forall|k: KeySpec| #[trigger] before.contains_key(k) implies k.0.len() == 32 by {
            assert(key_valid(k));
        }
    }
    assert forall|q: KeySpec| q.1 == 256 implies #[trigger] agree_at(r1, r2, q) by {
        let x = q.0;
        assert(q == leaf_key(x));
        lemma_batch_leaves(before, one, r1, x);
        lemma_batch_leaves(before, other, r2, x);
        lemma_no_deletes(one, x);
        lemma_no_deletes(other, x);
        if exists|i: int| inserts_at(one, i, x) {
            let i0 = choose|i: int| inserts_at(one, i, x);
            let i = lemma_last_insert_exists(one, x, i0);
            assert(inserted(other, x));
            let j0 = choose|k: int| inserts_at(other, k, x);
            let j = lemma_last_insert_exists(other, x, j0);
            assert(op_leaf(one[i]) == op_leaf(other[j]));
        } else if exists|j: int| inserts_at(other, j, x) {
            let j = choose|j: int| inserts_at(other, j, x);
            assert(inserted(one, x));
        }
    }
    lemma_canonical(r1, r2);
}

/// Incrementality of the flat engine: a batch of inserts in two parts, one
/// after the other, gives the store of the whole batch at once.
pub proof fn lemma_flat_incremental(
    before: Map<KeySpec, Seq<u8>>,
    base: Seq<Op>,
    delta: Seq<Op>,
    mid: Map<KeySpec, Seq<u8>>,
    in_parts: Map<KeySpec, Seq<u8>>,
    at_once: Map<KeySpec, Seq<u8>>,
)
    requires
        canonical_store(before),
        inserts_only(base),
        inserts_only(delta),
        is_batch_result(before, base, mid),
        is_batch_result(mid, delta, in_parts),
        is_batch_result(before, base + delta, at_once),
        no_zero_hash(mid),
        no_zero_hash(in_parts),
        no_zero_hash(at_once),
    ensures
        in_parts == at_once,
{
    let all = base + delta;
    assert(inserts_only(all)) by {
        assert forall|i: int| 0 <= i < all.len() implies #[trigger] all[i] is Insert by {
            if i < base.len() {
                assert(all[i] == base[i]);
            } else {
                assert(all[i] == delta[i - base.len()]);
            }
        }
    }
    lemma_batch_canonical(before, base, mid);
    lemma_batch_canonical(mid, delta, in_parts);
    lemma_batch_canonical(before, all, at_once);
    assert(keys_sized(before) && keys_sized(mid)) by {
        assert forall|k: KeySpec| #[trigger] before.contains_key(k) implies k.0.len() == 32 by {
            assert(key_valid(k));
        }
        assert forall|k: KeySpec| #[trigger] mid.contains_key(k) implies k.0.len() == 32 by {
            assert(key_valid(k));
        }
    }
    let n = base.len() as int;
    assert forall|q: KeySpec| q.1 == 256 implies #[trigger] agree_at(in_parts, at_once, q) by {
        let x = q.0;
        assert(q == leaf_key(x));
        lemma_batch_leaves(before, base, mid, x);
        lemma_batch_leaves(mid, delta, in_parts, x);
        lemma_batch_leaves(before, all, at_once, x);
        lemma_no_deletes(base, x);
        lemma_no_deletes(delta, x);
        lemma_no_deletes(all, x);
        // The inserts of the whole batch are those of its parts.
        assert forall|i: int| inserts_at(all, i, x) <==> (inserts_at(base, i, x) || inserts_at(
            delta,
            i - n,
            x,
        )) by {
            if 0 <= i < n {
                assert(all[i] == base[i]);
            } else if n <= i < all.len() {
                assert(all[i] == delta[i - n]);
            }
        }
        if exists|j: int| inserts_at(delta, j, x) {
            let j0 = choose|j: int| inserts_at(delta, j, x);
            let j = lemma_last_insert_exists(delta, x, j0);
            assert(inserts_at(all, j + n, x));
            assert(is_last_insert(all, j + n, x)) by {
                assert forall|k: int| j + n < k implies !#[trigger] inserts_at(all, k, x) by {
                    if inserts_at(all, k, x) {
                        assert(inserts_at(delta, k - n, x));
                    }
                }
            }
            assert(all[j + n] == delta[j]);
        } else if exists|i: int| inserts_at(base, i, x) {
            let i0 = choose|i: int| inserts_at(base, i, x);
            let i = lemma_last_insert_exists(base, x, i0);
            assert(inserts_at(all, i, x));
            assert(is_last_insert(all, i, x)) by {
                assert forall|k: int| i < k implies !#[trigger] inserts_at(all, k, x) by {
                    if inserts_at(all, k, x) {
                        if !inserts_at(base, k, x) {
                            assert(inserts_at(delta, k - n, x));
                        }
                    }
                }
            }
            assert(all[i] == base[i]);
        } else {
            assert(!exists|i: int| inserts_at(all, i, x)) by {
                if exists|i: int| inserts_at(all, i, x) {
                    let i = choose|i: int| inserts_at(all, i, x);
                    if inserts_at(base, i, x) {
                    } else {
                        assert(inserts_at(delta, i - n, x));
                    }
                }
            }
        }
    }
    lemma_canonical(in_parts, at_once);
}

} // verus!
