//! Insert and delete of one key: on the store without nodes, and on a store
//! at rest that already holds the split points of the key.

use crate::bits::same_bits_before;
use crate::flat::ancestors::{ancestors, cand, lemma_anc_contains};
use crate::flat::batch::{
    apply_deletes, apply_inserts, batch_state, is_batch_result, is_prepared_of, neighbour_splits,
    op_key, op_leaf, op_path, pair_splits, prep_view, sorted_prepared_of, with_ancestors, Op,
    PrepSpec, Prepared,
};
use crate::flat::canonical::{equal_leaves, lemma_fixed_by_keys, same_split_points};
use crate::flat::consistency::{
    agree_at, hash_consistent, lemma_batch_consistent, lemma_batch_state_ready,
    lemma_clean_nodes_consistent, lemma_rehash_consistent, lemma_with_ancestors, map_valid,
    paths_of,
};
use crate::flat::keeping::{lemma_rehash_keeps_split, no_zero_hash};
use crate::flat::rest::{at_rest, digests_sound, lemma_batch_at_rest};
use crate::flat::leaves::{lemma_batch_leaves, lemma_rehash_keeps_leaves, paths_sized, keys_sized};
use crate::flat::path::lemma_prefix_is_mask;
use crate::flat::soundness::{has_leaf_under, sound_store};
use crate::flat::dirty::is_deep_order;
use crate::flat::hubt::{
    ensure_splits, is_root_of, lcp_key, next_leaf_of, prev_leaf_of, rehash_fold, split_with,
    StateSpec,
};
use crate::flat::key::{key_le, key_lt, lemma_key_asymmetric, KeySpec};
use crate::flat::leaves::lemma_apply_deletes;
use crate::flat::store::key_valid;
use crate::flat::store::{is_next_leaf, is_prev_leaf, leaf_key};
use crate::hash::zero32;
use vstd::prelude::*;

verus! {

/// The rehash of leaves changes nothing.
pub proof fn lemma_rehash_of_leaves(m: Map<KeySpec, Seq<u8>>, order: Seq<KeySpec>)
    requires
        forall|i: int| 0 <= i < order.len() ==> (#[trigger] order[i]).1 >= 256,
    ensures
        rehash_fold(m, order) == m,
    decreases order.len(),
{
    if order.len() > 0 {
        let d = order.drop_last();
        assert forall|i: int| 0 <= i < d.len() implies (#[trigger] d[i]).1 >= 256 by {
            assert(d[i] == order[i]);
        }
        lemma_rehash_of_leaves(m, d);
        assert(order[order.len() - 1] == order.last());
    }
}

/// A batch of one insert on the store without nodes gives the store with
/// the leaf of the insert and nothing else.
pub proof fn lemma_insert_into_empty(ins: Op, mid: Map<KeySpec, Seq<u8>>)
    requires
        ins is Insert,
        is_batch_result(Map::<KeySpec, Seq<u8>>::empty(), seq![ins], mid),
    ensures
        mid == Map::<KeySpec, Seq<u8>>::empty().insert(leaf_key(op_path(ins)), op_leaf(ins)),
{
    let empty = Map::<KeySpec, Seq<u8>>::empty();
    let none = Set::<KeySpec>::empty();
    let ops = seq![ins];
    let (s, order): (Seq<Prepared>, Seq<KeySpec>) = choose|s: Seq<Prepared>, order: Seq<KeySpec>|
     #[trigger]
        sorted_prepared_of(s, ops) && #[trigger] is_deep_order(order, batch_state(empty, prep_view(s)).1)
            && mid == rehash_fold(batch_state(empty, prep_view(s)).0, order);
    let p = prep_view(s);
    assert(is_prepared_of(s[0], ops));
    let t = op_path(ins);
    let leaf = leaf_key(t);
    assert(p.len() == 1 && p[0] == (t, true, op_leaf(ins)));
    assert(p.last() == p[0]);
    assert(p.drop_last() =~= Seq::<PrepSpec>::empty());
    let deleted = apply_deletes(empty, p);
    assert(deleted =~= empty) by {
        assert forall|q: KeySpec| !deleted.contains_key(q) by {
            lemma_apply_deletes(empty, p, q);
        }
    }
    let start: StateSpec = (deleted, none);
    assert(apply_inserts(start, p.drop_last()) == start);
    let written = apply_inserts(start, p);
    let one = empty.insert(leaf, op_leaf(ins));
    assert(written == (one, none.insert(leaf)));
    assert(pair_splits(written, p) == written);
    assert(neighbour_splits(written, p.drop_last()) == written);
    // The one leaf has no leaf next to it.
    assert(prev_leaf_of(one, t) is None) by {
        if exists|k: KeySpec| is_prev_leaf(one, t, k) {
            let k = choose|k: KeySpec| is_prev_leaf(one, t, k);
            lemma_key_asymmetric(k, leaf);
        }
    }
    assert(next_leaf_of(one, t) is None) by {
        if exists|k: KeySpec| is_next_leaf(one, t, k) {
            let k = choose|k: KeySpec| is_next_leaf(one, t, k);
            lemma_key_asymmetric(leaf, k);
        }
    }
    assert(ensure_splits(written, t) == written);
    assert(neighbour_splits(written, p) == written);
    let dirty = with_ancestors(one, none.insert(leaf), p);
    assert(batch_state(empty, p) == (one, dirty));
    assert forall|i: int| 0 <= i < order.len() implies (#[trigger] order[i]).1 >= 256 by {
        let k = order[i];
        assert(order.contains(k));
        assert(dirty.contains(k));
        lemma_with_ancestors(one, none.insert(leaf), p, k);
        if k != leaf {
            let j = choose|j: int| 0 <= j < p.len() && ancestors(one, (#[trigger] p[j]).0).contains(k);
            lemma_anc_contains(one, p[j].0, 256, 0, k);
        }
    }
    lemma_rehash_of_leaves(one, order);
}

/// Delete inverts insert on the store without nodes: a batch that inserts a
/// key and a batch that deletes it leave the store without nodes, so the
/// state root is zero as before.
pub proof fn lemma_delete_inverts_insert_on_empty(
    ins: Op,
    del: Op,
    mid: Map<KeySpec, Seq<u8>>,
    after: Map<KeySpec, Seq<u8>>,
)
    requires
        ins is Insert,
        del is Delete,
        op_key(ins) == op_key(del),
        is_batch_result(Map::<KeySpec, Seq<u8>>::empty(), seq![ins], mid),
        is_batch_result(mid, seq![del], after),
    ensures
        after == Map::<KeySpec, Seq<u8>>::empty(),
        is_root_of(after, zero32()),
{
    let empty = Map::<KeySpec, Seq<u8>>::empty();
    let none = Set::<KeySpec>::empty();
    lemma_insert_into_empty(ins, mid);
    let ops = seq![del];
    let (s, order): (Seq<Prepared>, Seq<KeySpec>) = choose|s: Seq<Prepared>, order: Seq<KeySpec>|
     #[trigger]
        sorted_prepared_of(s, ops) && #[trigger] is_deep_order(order, batch_state(mid, prep_view(s)).1)
            && after == rehash_fold(batch_state(mid, prep_view(s)).0, order);
    let p = prep_view(s);
    assert(is_prepared_of(s[0], ops));
    let t = op_path(del);
    let leaf = leaf_key(t);
    assert(t == op_path(ins));
    assert(p.len() == 1 && p[0] == (t, false, op_leaf(del)));
    assert(p.last() == p[0]);
    assert(p.drop_last() =~= Seq::<PrepSpec>::empty());
    assert(apply_deletes(mid, p.drop_last()) == mid);
    let deleted = apply_deletes(mid, p);
    assert(deleted == mid.remove(leaf));
    assert(deleted =~= empty);
    let start: StateSpec = (deleted, none);
    assert(apply_inserts(start, p.drop_last()) == start);
    assert(apply_inserts(start, p) == start);
    assert(pair_splits(start, p) == start);
    assert(neighbour_splits(start, p.drop_last()) == start);
    assert(neighbour_splits(start, p) == start);
    let dirty = with_ancestors(empty, none, p);
    assert(batch_state(mid, p) == (empty, dirty));
    assert(order.len() == 0) by {
        if order.len() > 0 {
            let k = order[0];
            assert(order.contains(k));
            assert(dirty.contains(k));
            lemma_with_ancestors(empty, none, p, k);
            let j = choose|j: int| 0 <= j < p.len() && ancestors(empty, (#[trigger] p[j]).0).contains(k);
            lemma_anc_contains(empty, p[j].0, 256, 0, k);
        }
    }
}

/// The rehash of a batch puts no node under a key that the store did not
/// hold before the rehash.
pub proof fn lemma_rehash_adds_no_key(
    before: Map<KeySpec, Seq<u8>>,
    p: Seq<PrepSpec>,
    order: Seq<KeySpec>,
    k: KeySpec,
)
    requires
        map_valid(before),
        hash_consistent(before),
        paths_sized(p),
        is_deep_order(order, batch_state(before, p).1),
        rehash_fold(batch_state(before, p).0, order).contains_key(k),
    ensures
        batch_state(before, p).0.contains_key(k),
{
    let m = batch_state(before, p).0;
    let dirty = batch_state(before, p).1;
    let len = order.len() as int;
    lemma_batch_state_ready(before, p);
    lemma_clean_nodes_consistent(before, p);
    lemma_rehash_consistent(m, dirty, paths_of(p), order, len);
    assert(order.take(len) =~= order);
    if !agree_at(m, rehash_fold(m, order), k) {
        assert(order.contains(k));
        assert(dirty.contains(k));
    }
}

/// The rehash of a batch keeps every split point with a leaf under it,
/// where it leaves no zero hash in the store.
pub proof fn lemma_rehash_keeps_rooted(
    before: Map<KeySpec, Seq<u8>>,
    p: Seq<PrepSpec>,
    order: Seq<KeySpec>,
    n: KeySpec,
    y: Seq<u8>,
)
    requires
        map_valid(before),
        hash_consistent(before),
        paths_sized(p),
        is_deep_order(order, batch_state(before, p).1),
        no_zero_hash(rehash_fold(batch_state(before, p).0, order)),
        n.1 < 256,
        batch_state(before, p).0.contains_key(n),
        batch_state(before, p).0.contains_key(leaf_key(y)),
        same_bits_before(y, n.0, n.1),
    ensures
        rehash_fold(batch_state(before, p).0, order).contains_key(n),
{
    let m = batch_state(before, p).0;
    let dirty = batch_state(before, p).1;
    lemma_batch_state_ready(before, p);
    lemma_clean_nodes_consistent(before, p);
    assert(key_valid(n) && key_valid(leaf_key(y)));
    lemma_prefix_is_mask(y, n.0, n.1);
    assert(n == cand(y, n.1));
    lemma_rehash_keeps_split(m, dirty, paths_of(p), order, y, n.1);
}

/// The state of a batch of one insert before the rehash holds all that the
/// store held, and the leaf of the insert.
proof fn lemma_state_of_insert(m: Map<KeySpec, Seq<u8>>, t: Seq<u8>, h: Seq<u8>, k: KeySpec)
    requires
        m.contains_key(k) || k == leaf_key(t),
    ensures
        batch_state(m, seq![(t, true, h)]).0.contains_key(k),
{
    let p: Seq<PrepSpec> = seq![(t, true, h)];
    let none = Set::<KeySpec>::empty();
    assert(p.last() == p[0]);
    assert(p.drop_last() =~= Seq::<PrepSpec>::empty());
    let deleted = apply_deletes(m, p);
    assert(apply_deletes(m, p.drop_last()) == m);
    assert(deleted == m);
    let start: StateSpec = (deleted, none);
    assert(apply_inserts(start, p.drop_last()) == start);
    let written = apply_inserts(start, p);
    assert(written.0 == m.insert(leaf_key(t), h));
    assert(pair_splits(written, p) == written);
    assert(neighbour_splits(written, p.drop_last()) == written);
    assert(neighbour_splits(written, p) == ensure_splits(written, t));
    assert(ensure_splits(written, t).0.contains_key(k));
}

/// The state of a batch of one delete before the rehash is the store
/// without the leaf of the delete.
proof fn lemma_state_of_delete(m: Map<KeySpec, Seq<u8>>, t: Seq<u8>, h: Seq<u8>)
    ensures
        batch_state(m, seq![(t, false, h)]).0 == m.remove(leaf_key(t)),
{
    let p: Seq<PrepSpec> = seq![(t, false, h)];
    let none = Set::<KeySpec>::empty();
    assert(p.last() == p[0]);
    assert(p.drop_last() =~= Seq::<PrepSpec>::empty());
    assert(apply_deletes(m, p.drop_last()) == m);
    let deleted = apply_deletes(m, p);
    assert(deleted == m.remove(leaf_key(t)));
    let start: StateSpec = (deleted, none);
    assert(apply_inserts(start, p.drop_last()) == start);
    assert(apply_inserts(start, p) == start);
    assert(pair_splits(start, p) == start);
    assert(neighbour_splits(start, p.drop_last()) == start);
    assert(neighbour_splits(start, p) == start);
}

/// The store holds the split points of the leaf with path `t` and the
/// leaves next to it on both sides, so that an insert at `t` makes none.
pub open spec fn holds_splits_of(m: Map<KeySpec, Seq<u8>>, t: Seq<u8>) -> bool {
    &&& forall|k: KeySpec| #[trigger] is_prev_leaf(m, t, k) ==> m.contains_key(lcp_key(t, k.0))
    &&& forall|k: KeySpec| #[trigger] is_next_leaf(m, t, k) ==> m.contains_key(lcp_key(t, k.0))
}

/// Where the store holds the split points of a leaf, the state of a batch
/// of one insert of the leaf, before the rehash, is the store with the leaf.
proof fn lemma_state_of_insert_at_rest(m: Map<KeySpec, Seq<u8>>, t: Seq<u8>, h: Seq<u8>)
    requires
        holds_splits_of(m, t),
    ensures
        batch_state(m, seq![(t, true, h)]).0 == m.insert(leaf_key(t), h),
{
    let p: Seq<PrepSpec> = seq![(t, true, h)];
    let none = Set::<KeySpec>::empty();
    let leaf = leaf_key(t);
    assert(p.last() == p[0]);
    assert(p.drop_last() =~= Seq::<PrepSpec>::empty());
    assert(apply_deletes(m, p.drop_last()) == m);
    let start: StateSpec = (apply_deletes(m, p), none);
    assert(apply_inserts(start, p.drop_last()) == start);
    let written = apply_inserts(start, p);
    let w = m.insert(leaf, h);
    assert(written.0 == w);
    assert(pair_splits(written, p) == written);
    assert(neighbour_splits(written, p.drop_last()) == written);
    assert(neighbour_splits(written, p) == ensure_splits(written, t));
    let st1 = split_with(written, t, prev_leaf_of(w, t));
    assert(st1 == written) by {
        if exists|k: KeySpec| is_prev_leaf(w, t, k) {
            let k = choose|k: KeySpec| is_prev_leaf(w, t, k);
            lemma_key_asymmetric(k, leaf);
            assert(k != leaf);
            assert(m.contains_key(k));
            assert forall|o: KeySpec| #[trigger]
                m.contains_key(o) && o.1 == 256 && key_lt(o, leaf) implies key_le(o, k) by {
                assert(w.contains_key(o));
            }
            assert(is_prev_leaf(m, t, k));
            assert(w.contains_key(lcp_key(t, k.0)));
        }
    }
    assert(split_with(st1, t, next_leaf_of(w, t)) == written) by {
        if exists|k: KeySpec| is_next_leaf(w, t, k) {
            let k = choose|k: KeySpec| is_next_leaf(w, t, k);
            lemma_key_asymmetric(leaf, k);
            assert(k != leaf);
            assert(m.contains_key(k));
            assert forall|o: KeySpec| #[trigger]
                m.contains_key(o) && o.1 == 256 && key_lt(leaf, o) implies key_le(k, o) by {
                assert(w.contains_key(o));
            }
            assert(is_next_leaf(m, t, k));
            assert(w.contains_key(lcp_key(t, k.0)));
        }
    }
}

/// Delete inverts insert on a sound store that has no leaf for the key and
/// already holds the split points of the key with the leaves next to it,
/// where the two batches leave no zero hash: the batch that inserts the key
/// and the batch that deletes it leave the store as it was, node for node.
pub proof fn lemma_delete_restores(
    before: Map<KeySpec, Seq<u8>>,
    ins: Op,
    del: Op,
    mid: Map<KeySpec, Seq<u8>>,
    after: Map<KeySpec, Seq<u8>>,
)
    requires
        sound_store(before),
        ins is Insert,
        del is Delete,
        op_key(ins) == op_key(del),
        !before.contains_key(leaf_key(op_path(ins))),
        is_batch_result(before, seq![ins], mid),
        is_batch_result(mid, seq![del], after),
        holds_splits_of(before, op_path(ins)),
        no_zero_hash(mid),
        no_zero_hash(after),
    ensures
        after == before,
{
    let t = op_path(ins);
    let leaf = leaf_key(t);
    let one = seq![ins];
    let two = seq![del];
    lemma_batch_consistent(before, one, mid);
    lemma_batch_consistent(mid, two, after);
    assert(keys_sized(before) && keys_sized(mid)) by {
        assert forall|k: KeySpec| #[trigger] before.contains_key(k) implies k.0.len() == 32 by {
            assert(key_valid(k));
        }
        assert forall|k: KeySpec| #[trigger] mid.contains_key(k) implies k.0.len() == 32 by {
            assert(key_valid(k));
        }
    }
    // The leaves are those of the store before.
    assert forall|q: KeySpec| q.1 == 256 implies #[trigger] agree_at(after, before, q) by {
        let x = q.0;
        assert(q == leaf_key(x));
        lemma_batch_leaves(before, one, mid, x);
        lemma_batch_leaves(mid, two, after, x);
        if x == t {
            assert(crate::flat::leaves::deletes_at(two, 0, x));
        }
    }
    // The prepared writes of the two batches.
    let (ins_s, ins_order): (Seq<Prepared>, Seq<KeySpec>) = choose|s: Seq<Prepared>, order: Seq<KeySpec>|
     #[trigger]
        sorted_prepared_of(s, one) && #[trigger] is_deep_order(order, batch_state(before, prep_view(s)).1)
            && mid == rehash_fold(batch_state(before, prep_view(s)).0, order);
    let ins_p = prep_view(ins_s);
    assert(is_prepared_of(ins_s[0], one));
    assert(ins_p =~= seq![(t, true, op_leaf(ins))]);
    let (del_s, del_order): (Seq<Prepared>, Seq<KeySpec>) = choose|s: Seq<Prepared>, order: Seq<KeySpec>|
     #[trigger]
        sorted_prepared_of(s, two) && #[trigger] is_deep_order(order, batch_state(mid, prep_view(s)).1)
            && after == rehash_fold(batch_state(mid, prep_view(s)).0, order);
    let del_p = prep_view(del_s);
    assert(is_prepared_of(del_s[0], two));
    assert(op_path(del) == t);
    assert(del_p =~= seq![(t, false, op_leaf(del))]);
    assert(paths_sized(ins_p) && paths_sized(del_p)) by {
        assert forall|i: int| 0 <= i < ins_p.len() implies (#[trigger] ins_p[i]).0.len() == 32 by {}
        assert forall|i: int| 0 <= i < del_p.len() implies (#[trigger] del_p[i]).0.len() == 32 by {}
    }
    let ins_m = batch_state(before, ins_p).0;
    let del_m = batch_state(mid, del_p).0;
    lemma_state_of_delete(mid, t, op_leaf(del));
    // The split points are those of the store before.
    assert forall|n: KeySpec| n.1 < 256 implies (#[trigger] after.contains_key(n)
        <==> before.contains_key(n)) by {
        if after.contains_key(n) {
            lemma_rehash_adds_no_key(mid, del_p, del_order, n);
            assert(mid.contains_key(n));
            lemma_rehash_adds_no_key(before, ins_p, ins_order, n);
            lemma_state_of_insert_at_rest(before, t, op_leaf(ins));
        }
        if before.contains_key(n) {
            assert(has_leaf_under(before, n));
            let y = choose|y: Seq<u8>| #[trigger]
                before.contains_key(leaf_key(y)) && same_bits_before(y, n.0, n.1);
            lemma_state_of_insert(before, t, op_leaf(ins), n);
            lemma_state_of_insert(before, t, op_leaf(ins), leaf_key(y));
            lemma_rehash_keeps_rooted(before, ins_p, ins_order, n, y);
            lemma_rehash_keeps_leaves(ins_m, ins_order, leaf_key(y));
            assert(del_m.contains_key(n));
            assert(del_m.contains_key(leaf_key(y)));
            lemma_rehash_keeps_rooted(mid, del_p, del_order, n, y);
        }
    }
    assert(equal_leaves(after, before));
    assert(same_split_points(after, before));
    lemma_fixed_by_keys(after, before);
}

/// Delete inverts insert on a store at rest that has no leaf for the key
/// and already holds the split points of the key with the leaves next to
/// it: the batch that inserts the key and the batch that deletes it leave
/// the store as it was, node for node, and so with the state root that it
/// had. This holds as long as no SHA-256 digest is zero. (An insert that
/// has to make a split point leaves it behind: the delete keeps a split
/// point that still has one child.)
pub proof fn lemma_delete_inverts_insert(
    before: Map<KeySpec, Seq<u8>>,
    ins: Op,
    del: Op,
    mid: Map<KeySpec, Seq<u8>>,
    after: Map<KeySpec, Seq<u8>>,
)
    requires
        at_rest(before),
        ins is Insert,
        del is Delete,
        op_key(ins) == op_key(del),
        !before.contains_key(leaf_key(op_path(ins))),
        holds_splits_of(before, op_path(ins)),
        is_batch_result(before, seq![ins], mid),
        is_batch_result(mid, seq![del], after),
    ensures
        digests_sound() ==> after == before,
        digests_sound() ==> forall|root: Seq<u8>| is_root_of(after, root) <==> is_root_of(before, root),
{
    if digests_sound() {
        lemma_batch_at_rest(before, seq![ins], mid);
        lemma_batch_at_rest(mid, seq![del], after);
        lemma_delete_restores(before, ins, del, mid, after);
    }
}

} // verus!
