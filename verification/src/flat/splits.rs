//! The split point of every two leaves is in the store before the rehash of
//! a batch: those of old leaves from before, those of new leaves by way of
//! the leaves next to them.

use crate::bits::{
    bit_at, lemma_lex_asymmetric, lemma_lex_between, lemma_path_from_bits, lex_lt, same_bits_before,
};
use crate::flat::ancestors::lemma_same_prefix_mask;
use crate::flat::batch::{
    apply_deletes, apply_inserts, batch_state, neighbour_splits, pair_splits, PrepSpec,
};
use crate::flat::consistency::map_valid;
use crate::flat::hubt::{
    ensure_splits, lcp_key, lcp_len, lemma_lcp_unique, lemma_next_leaf_unique,
    lemma_prev_leaf_unique, prev_leaf_of, split_with, StateSpec,
};
use crate::flat::key::{key_le, key_lt, lemma_key_asymmetric, KeySpec};
use crate::flat::leaves::{
    keys_sized, lemma_apply_deletes, lemma_apply_inserts, lemma_ensure_splits_keeps_leaves,
    lemma_lcp_exists, lemma_lcp_key_is_short, paths_sized, prep_inserts,
};
use crate::flat::path::is_lcp_len;
use crate::flat::rank::{lemma_next_leaf_exists, lemma_prev_leaf_exists, lemma_rank_grows, rank};
use crate::flat::soundness::pairs_split;
use crate::flat::store::{is_next_leaf, is_prev_leaf, key_valid, leaf_key};
use vstd::prelude::*;

verus! {

/// The split point of two paths does not depend on their order.
pub proof fn lemma_lcp_symmetric(a: Seq<u8>, b: Seq<u8>)
    requires
        a.len() == 32,
        b.len() == 32,
    ensures
        lcp_key(a, b) == lcp_key(b, a),
        is_lcp_len(a, b, lcp_len(a, b)),
{
    let l0 = lemma_lcp_exists(a, b, 0);
    let l = lcp_len(a, b);
    assert(is_lcp_len(a, b, l));
    assert(is_lcp_len(b, a, l)) by {
        assert forall|j: int| 0 <= j < l implies bit_at(b, j) == bit_at(a, j) by {
            assert(bit_at(a, j) == bit_at(b, j));
        }
    }
    lemma_lcp_unique(b, a, l);
    lemma_same_prefix_mask(a, b, l, l);
}

/// The split point of two paths is that of one of them and any path between them.
pub proof fn lemma_lcp_between(x: Seq<u8>, z: Seq<u8>, y: Seq<u8>)
    requires
        x.len() == 32,
        z.len() == 32,
        y.len() == 32,
        lex_lt(x, z),
        lex_lt(z, y),
    ensures
        lcp_key(x, y) == lcp_key(x, z) || lcp_key(x, y) == lcp_key(z, y),
{
    lemma_lcp_symmetric(x, y);
    lemma_lcp_symmetric(x, z);
    lemma_lcp_symmetric(z, y);
    let c = lcp_len(x, y);
    let a = lcp_len(x, z);
    let b = lcp_len(z, y);
    lemma_lex_between(x, z, y, c);
    assert(same_bits_before(x, z, c));
    assert(same_bits_before(z, y, c)) by {
        assert forall|j: int| 0 <= j < c implies bit_at(z, j) == bit_at(y, j) by {
            assert(bit_at(x, j) == bit_at(z, j));
            assert(bit_at(x, j) == bit_at(y, j));
        }
    }
    assert(c < 256) by {
        if c == 256 {
            lemma_path_from_bits(x, y);
            crate::bits::lemma_lex_transitive(x, z, y);
            lemma_lex_asymmetric(x, y);
        }
    }
    if bit_at(x, c) != bit_at(z, c) {
        assert(is_lcp_len(x, z, c));
        lemma_lcp_unique(x, z, c);
    } else {
        assert(is_lcp_len(z, y, c));
        lemma_lcp_unique(z, y, c);
        lemma_same_prefix_mask(x, z, c, c);
    }
}

/// The two stores hold the same leaves.
pub open spec fn same_leaves(a: Map<KeySpec, Seq<u8>>, b: Map<KeySpec, Seq<u8>>) -> bool {
    forall|q: KeySpec| q.1 == 256 ==> (#[trigger] a.contains_key(q) <==> b.contains_key(q))
}

/// Every key of the first store is a key of the second.
pub open spec fn grown(a: Map<KeySpec, Seq<u8>>, b: Map<KeySpec, Seq<u8>>) -> bool {
    forall|k: KeySpec| #[trigger] a.contains_key(k) ==> b.contains_key(k)
}

/// The leaves next to a path depend on the leaves alone.
pub proof fn lemma_neighbours_by_leaves(a: Map<KeySpec, Seq<u8>>, b: Map<KeySpec, Seq<u8>>, t: Seq<u8>, k: KeySpec)
    requires
        same_leaves(a, b),
    ensures
        is_prev_leaf(a, t, k) ==> is_prev_leaf(b, t, k),
        is_next_leaf(a, t, k) ==> is_next_leaf(b, t, k),
{
    if is_prev_leaf(a, t, k) {
        assert(b.contains_key(k));
        assert forall|o: KeySpec|
            #[trigger] b.contains_key(o) && o.1 == 256 && key_lt(o, leaf_key(t)) implies key_le(o, k) by {
            assert(a.contains_key(o));
        }
    }
    if is_next_leaf(a, t, k) {
        assert(b.contains_key(k));
        assert forall|o: KeySpec|
            #[trigger] b.contains_key(o) && o.1 == 256 && key_lt(leaf_key(t), o) implies key_le(k, o) by {
            assert(a.contains_key(o));
        }
    }
}

/// The split points of a leaf and the leaves next to it are in the store
/// once they have been made to exist, and nothing leaves the store.
pub proof fn lemma_ensure_splits_holds(st: StateSpec, t: Seq<u8>)
    requires
        t.len() == 32,
        keys_sized(st.0),
    ensures
        grown(st.0, ensure_splits(st, t).0),
        same_leaves(st.0, ensure_splits(st, t).0),
        keys_sized(ensure_splits(st, t).0),
        forall|k: KeySpec|
            #[trigger] is_prev_leaf(st.0, t, k) ==> ensure_splits(st, t).0.contains_key(
                lcp_key(t, k.0),
            ),
        forall|k: KeySpec|
            #[trigger] is_next_leaf(st.0, t, k) ==> ensure_splits(st, t).0.contains_key(
                lcp_key(t, k.0),
            ),
{
    let st1 = split_with(st, t, prev_leaf_of(st.0, t));
    let st2 = ensure_splits(st, t);
    assert forall|q: KeySpec| q.1 == 256 implies (#[trigger] st.0.contains_key(q) <==> st2.0.contains_key(
        q,
    )) by {
        lemma_ensure_splits_keeps_leaves(st, t, q);
    }
    lemma_ensure_splits_keeps_leaves(st, t, leaf_key(t));
    // The first split keeps the leaves.
    assert(same_leaves(st.0, st1.0)) by {
        match prev_leaf_of(st.0, t) {
            Some(k) => {
                assert(is_prev_leaf(st.0, t, k));
                if k.0 == t {
                    lemma_key_asymmetric(k, leaf_key(t));
                }
                lemma_lcp_key_is_short(t, k.0);
            },
            None => {},
        }
    }
    assert forall|k: KeySpec| #[trigger] is_prev_leaf(st.0, t, k) implies st2.0.contains_key(
        lcp_key(t, k.0),
    ) by {
        lemma_prev_leaf_unique(st.0, t, k);
        assert(st1.0.contains_key(lcp_key(t, k.0)));
    }
    assert forall|k: KeySpec| #[trigger] is_next_leaf(st.0, t, k) implies st2.0.contains_key(
        lcp_key(t, k.0),
    ) by {
        lemma_neighbours_by_leaves(st.0, st1.0, t, k);
        lemma_next_leaf_unique(st1.0, t, k);
    }
}

/// After the split points of the inserted leaves are made to exist, the
/// store holds, for every inserted leaf, its split points with the leaves
/// next to it.
pub proof fn lemma_neighbour_splits_hold(st: StateSpec, q: Seq<PrepSpec>, i: int)
    requires
        paths_sized(q),
        keys_sized(st.0),
        0 <= i < q.len(),
        q[i].1,
    ensures
        grown(st.0, neighbour_splits(st, q).0),
        same_leaves(st.0, neighbour_splits(st, q).0),
        forall|k: KeySpec|
            #[trigger] is_prev_leaf(st.0, q[i].0, k) ==> neighbour_splits(st, q).0.contains_key(
                lcp_key(q[i].0, k.0),
            ),
        forall|k: KeySpec|
            #[trigger] is_next_leaf(st.0, q[i].0, k) ==> neighbour_splits(st, q).0.contains_key(
                lcp_key(q[i].0, k.0),
            ),
    decreases q.len(),
{
    let d = q.drop_last();
    let t = q[i].0;
    assert forall|j: int| 0 <= j < d.len() implies (#[trigger] d[j]).0.len() == 32 by {
        assert(d[j] == q[j]);
    }
    let mid = neighbour_splits(st, d);
    lemma_neighbour_splits_grow(st, d);
    assert(q[q.len() - 1] == q.last());
    if q.last().1 {
        lemma_ensure_splits_holds(mid, q.last().0);
    }
    let fin = neighbour_splits(st, q);
    assert(grown(mid.0, fin.0));
    assert(same_leaves(mid.0, fin.0));
    if i < q.len() - 1 {
        assert(d[i] == q[i]);
        lemma_neighbour_splits_hold(st, d, i);
    } else {
        assert forall|k: KeySpec| #[trigger] is_prev_leaf(st.0, t, k) implies fin.0.contains_key(
            lcp_key(t, k.0),
        ) by {
            lemma_neighbours_by_leaves(st.0, mid.0, t, k);
        }
        assert forall|k: KeySpec| #[trigger] is_next_leaf(st.0, t, k) implies fin.0.contains_key(
            lcp_key(t, k.0),
        ) by {
            lemma_neighbours_by_leaves(st.0, mid.0, t, k);
        }
    }
}

/// Making the split points of the inserted leaves exist takes nothing from
/// the store and leaves its leaves as they are.
pub proof fn lemma_neighbour_splits_grow(st: StateSpec, q: Seq<PrepSpec>)
    requires
        paths_sized(q),
        keys_sized(st.0),
    ensures
        grown(st.0, neighbour_splits(st, q).0),
        same_leaves(st.0, neighbour_splits(st, q).0),
        keys_sized(neighbour_splits(st, q).0),
    decreases q.len(),
{
    if q.len() > 0 {
        let d = q.drop_last();
        assert forall|j: int| 0 <= j < d.len() implies (#[trigger] d[j]).0.len() == 32 by {
            assert(d[j] == q[j]);
        }
        lemma_neighbour_splits_grow(st, d);
        assert(q[q.len() - 1] == q.last());
        if q.last().1 {
            lemma_ensure_splits_holds(neighbour_splits(st, d), q.last().0);
        }
    }
}

/// Making the split points of neighbours in the batch exist takes nothing
/// from the store and leaves its leaves as they are.
pub proof fn lemma_pair_splits_grow(st: StateSpec, q: Seq<PrepSpec>)
    requires
        paths_sized(q),
        keys_sized(st.0),
    ensures
        grown(st.0, pair_splits(st, q).0),
        same_leaves(st.0, pair_splits(st, q).0),
        keys_sized(pair_splits(st, q).0),
    decreases q.len(),
{
    if q.len() >= 2 {
        let d = q.drop_last();
        assert forall|j: int| 0 <= j < d.len() implies (#[trigger] d[j]).0.len() == 32 by {
            assert(d[j] == q[j]);
        }
        lemma_pair_splits_grow(st, d);
        let a = q[q.len() - 2].0;
        let b = q.last().0;
        assert(q[q.len() - 1] == q.last());
        if a != b {
            lemma_lcp_key_is_short(a, b);
        }
    }
}

/// Before the rehash of a batch the store holds the split point of every
/// two of its leaves.
pub proof fn lemma_pairs_in_state(before: Map<KeySpec, Seq<u8>>, p: Seq<PrepSpec>, x: Seq<u8>, y: Seq<u8>)
    requires
        map_valid(before),
        pairs_split(before),
        paths_sized(p),
        x.len() == 32,
        y.len() == 32,
        lex_lt(x, y),
        batch_state(before, p).0.contains_key(leaf_key(x)),
        batch_state(before, p).0.contains_key(leaf_key(y)),
    ensures
        batch_state(before, p).0.contains_key(lcp_key(x, y)),
    decreases rank(leaf_key(y)) - rank(leaf_key(x)),
{
    let none = Set::<KeySpec>::empty();
    let deleted = apply_deletes(before, p);
    let start: StateSpec = (deleted, none);
    let written = apply_inserts(start, p);
    let paired = pair_splits(written, p);
    let split = neighbour_splits(paired, p);
    let m = split.0;
    assert(batch_state(before, p).0 == m);
    assert(keys_sized(before)) by {
        assert forall|k: KeySpec| #[trigger] before.contains_key(k) implies k.0.len() == 32 by {
            assert(key_valid(k));
        }
    }
    assert(keys_sized(deleted)) by {
        assert forall|k: KeySpec| #[trigger] deleted.contains_key(k) implies k.0.len() == 32 by {
            lemma_apply_deletes(before, p, k);
        }
    }
    assert(keys_sized(written.0)) by {
        assert forall|k: KeySpec| #[trigger] written.0.contains_key(k) implies k.0.len() == 32 by {
            lemma_apply_inserts(start, p, k);
            if !deleted.contains_key(k) {
                let j = choose|j: int| 0 <= j < p.len() && (#[trigger] p[j]).1 && p[j].0 == k.0;
                assert(p[j].0.len() == 32);
            }
        }
    }
    lemma_pair_splits_grow(written, p);
    lemma_neighbour_splits_grow(paired, p);
    crate::flat::consistency::lemma_batch_state_ready(before, p);
    assert(map_valid(m));
    crate::flat::path::lemma_masked_all(x, 256);
    crate::flat::path::lemma_masked_all(y, 256);
    assert(key_valid(leaf_key(x)) && key_valid(leaf_key(y)));
    assert(key_lt(leaf_key(x), leaf_key(y)));
    lemma_rank_grows(leaf_key(x), leaf_key(y));
    if prep_inserts(p, y) {
        let i = choose|i: int| 0 <= i < p.len() && (#[trigger] p[i]).1 && p[i].0 == y;
        let k = lemma_prev_leaf_exists(m, y, leaf_key(x));
        lemma_neighbours_by_leaves(m, paired.0, y, k);
        lemma_neighbour_splits_hold(paired, p, i);
        assert(m.contains_key(lcp_key(y, k.0)));
        assert(key_valid(k));
        lemma_lcp_symmetric(y, k.0);
        assert(key_le(leaf_key(x), k));
        if k.0 == x {
        } else {
            assert(lex_lt(x, k.0));
            assert(lex_lt(k.0, y));
            lemma_lcp_between(x, k.0, y);
            assert(leaf_key(k.0) == k);
            lemma_rank_grows(k, leaf_key(y));
            lemma_rank_grows(leaf_key(x), k);
            if lcp_key(x, y) == lcp_key(x, k.0) {
                lemma_pairs_in_state(before, p, x, k.0);
            }
        }
    } else if prep_inserts(p, x) {
        let i = choose|i: int| 0 <= i < p.len() && (#[trigger] p[i]).1 && p[i].0 == x;
        let k = lemma_next_leaf_exists(m, x, leaf_key(y));
        lemma_neighbours_by_leaves(m, paired.0, x, k);
        lemma_neighbour_splits_hold(paired, p, i);
        assert(m.contains_key(lcp_key(x, k.0)));
        assert(key_valid(k));
        assert(key_le(k, leaf_key(y)));
        if k.0 == y {
        } else {
            assert(lex_lt(x, k.0));
            assert(lex_lt(k.0, y));
            lemma_lcp_between(x, k.0, y);
            assert(leaf_key(k.0) == k);
            lemma_rank_grows(leaf_key(x), k);
            lemma_rank_grows(k, leaf_key(y));
            if lcp_key(x, y) == lcp_key(k.0, y) {
                lemma_pairs_in_state(before, p, k.0, y);
            }
        }
    } else {
        // Both leaves stood in the store before the batch.
        lemma_apply_inserts(start, p, leaf_key(x));
        lemma_apply_inserts(start, p, leaf_key(y));
        lemma_apply_deletes(before, p, leaf_key(x));
        lemma_apply_deletes(before, p, leaf_key(y));
        lemma_lex_asymmetric(x, y);
        let n = lcp_key(x, y);
        assert(before.contains_key(n));
        lemma_lcp_key_is_short(x, y);
        lemma_apply_deletes(before, p, n);
        lemma_apply_inserts(start, p, n);
    }
}

} // verus!
