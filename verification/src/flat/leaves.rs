//! What a batch does to the leaves of the store.

use crate::bits::{lemma_lex_asymmetric, lemma_path_from_bits, lex_lt};
use crate::flat::batch::{
    apply_deletes, apply_inserts, batch_state, has_position, is_batch_result, is_prepared_of,
    neighbour_splits, op_leaf, op_path, pair_splits, prep_view, prepared_le, sorted_prepared_of, Op,
    PrepSpec, Prepared,
};
use crate::flat::hubt::{
    ensure_splits, lcp_key, lcp_len, next_leaf_of, prev_leaf_of, rehash_fold, split_with, StateSpec,
};
use crate::flat::key::KeySpec;
use crate::flat::path::is_lcp_len;
use crate::flat::store::{is_next_leaf, is_prev_leaf, leaf_key};
use vstd::prelude::*;

verus! {

/// Write number `i` of the batch inserts at the leaf with path `x`.
pub open spec fn inserts_at(ops: Seq<Op>, i: int, x: Seq<u8>) -> bool {
    0 <= i < ops.len() && ops[i] is Insert && op_path(ops[i]) == x
}

/// Write number `i` of the batch deletes the leaf with path `x`.
pub open spec fn deletes_at(ops: Seq<Op>, i: int, x: Seq<u8>) -> bool {
    0 <= i < ops.len() && ops[i] is Delete && op_path(ops[i]) == x
}

/// Write number `i` is the last insert of the batch at the leaf with path `x`.
pub open spec fn is_last_insert(ops: Seq<Op>, i: int, x: Seq<u8>) -> bool {
    inserts_at(ops, i, x) && forall|j: int| i < j ==> !#[trigger] inserts_at(ops, j, x)
}

/// The leaf with path `x` after the batch: the leaf of the last insert at
/// `x`, if the batch has one; else no leaf, if the batch deletes at `x`;
/// else the leaf as it was.
pub open spec fn leaf_after(
    before: Map<KeySpec, Seq<u8>>,
    ops: Seq<Op>,
    after: Map<KeySpec, Seq<u8>>,
    x: Seq<u8>,
) -> bool {
    let q = leaf_key(x);
    if exists|i: int| inserts_at(ops, i, x) {
        after.contains_key(q) && forall|i: int| #[trigger]
            is_last_insert(ops, i, x) ==> after[q] == op_leaf(ops[i])
    } else if exists|i: int| deletes_at(ops, i, x) {
        !after.contains_key(q)
    } else {
        after.contains_key(q) == before.contains_key(q) && (after.contains_key(q) ==> after[q]
            == before[q])
    }
}

/// Some prepared insert of the list is at path `x`.
pub open spec fn prep_inserts(p: Seq<PrepSpec>, x: Seq<u8>) -> bool {
    exists|i: int| 0 <= i < p.len() && (#[trigger] p[i]).1 && p[i].0 == x
}

/// Some prepared delete of the list is at path `x`.
pub open spec fn prep_deletes(p: Seq<PrepSpec>, x: Seq<u8>) -> bool {
    exists|i: int| 0 <= i < p.len() && !(#[trigger] p[i]).1 && p[i].0 == x
}

/// Position `i` is the last prepared insert of the list at path `x`.
pub open spec fn is_last_prep_insert(p: Seq<PrepSpec>, i: int, x: Seq<u8>) -> bool {
    &&& 0 <= i < p.len()
    &&& p[i].1
    &&& p[i].0 == x
    &&& forall|j: int| i < j < p.len() ==> !((#[trigger] p[j]).1 && p[j].0 == x)
}

/// The deletes of a batch take away the leaves at their paths, and nothing else.
pub proof fn lemma_apply_deletes(m: Map<KeySpec, Seq<u8>>, p: Seq<PrepSpec>, q: KeySpec)
    ensures
        apply_deletes(m, p).contains_key(q) <==> (m.contains_key(q) && !(q.1 == 256 && prep_deletes(
            p,
            q.0,
        ))),
        apply_deletes(m, p).contains_key(q) ==> apply_deletes(m, p)[q] == m[q],
    decreases p.len(),
{
    if p.len() > 0 {
        let d = p.drop_last();
        lemma_apply_deletes(m, d, q);
        if prep_deletes(d, q.0) {
            let i = choose|i: int| 0 <= i < d.len() && !(#[trigger] d[i]).1 && d[i].0 == q.0;
            assert(p[i] == d[i]);
        }
        if prep_deletes(p, q.0) {
            let i = choose|i: int| 0 <= i < p.len() && !(#[trigger] p[i]).1 && p[i].0 == q.0;
            if i < d.len() {
                assert(d[i] == p[i]);
            }
        }
        if !p.last().1 && p.last().0 == q.0 {
            assert(p[p.len() - 1] == p.last());
        }
    }
}

/// The inserts of a batch put the leaves at their paths, each with the hash
/// of the last insert at its path, and change nothing else.
pub proof fn lemma_apply_inserts(st: StateSpec, p: Seq<PrepSpec>, q: KeySpec)
    ensures
        apply_inserts(st, p).0.contains_key(q) <==> (st.0.contains_key(q) || (q.1 == 256
            && prep_inserts(p, q.0))),
        !(q.1 == 256 && prep_inserts(p, q.0)) && st.0.contains_key(q) ==> apply_inserts(st, p).0[q]
            == st.0[q],
        forall|i: int|
            q.1 == 256 && #[trigger] is_last_prep_insert(p, i, q.0) ==> apply_inserts(st, p).0[q]
                == p[i].2,
    decreases p.len(),
{
    if p.len() > 0 {
        let d = p.drop_last();
        lemma_apply_inserts(st, d, q);
        if prep_inserts(d, q.0) {
            let i = choose|i: int| 0 <= i < d.len() && (#[trigger] d[i]).1 && d[i].0 == q.0;
            assert(p[i] == d[i]);
        }
        if prep_inserts(p, q.0) {
            let i = choose|i: int| 0 <= i < p.len() && (#[trigger] p[i]).1 && p[i].0 == q.0;
            if i < d.len() {
                assert(d[i] == p[i]);
            }
        }
        if p.last().1 && p.last().0 == q.0 {
            assert(p[p.len() - 1] == p.last());
        }
        assert forall|i: int| q.1 == 256 && #[trigger] is_last_prep_insert(p, i, q.0) implies apply_inserts(
            st,
            p,
        ).0[q] == p[i].2 by {
            if i < d.len() {
                assert(d[i] == p[i]);
                assert(!(p[p.len() - 1].1 && p[p.len() - 1].0 == q.0));
                assert(is_last_prep_insert(d, i, q.0)) by {
                    assert forall|j: int| i < j < d.len() implies !((#[trigger] d[j]).1 && d[j].0
                        == q.0) by {
                        assert(d[j] == p[j]);
                    }
                }
            }
        }
    }
}

/// Two paths of one length share a number of leading bits.
pub proof fn lemma_lcp_exists(a: Seq<u8>, b: Seq<u8>, upto: int) -> (l: int)
    requires
        0 <= upto <= 256,
        crate::bits::same_bits_before(a, b, upto),
    ensures
        is_lcp_len(a, b, l),
    decreases 256 - upto,
{
    if upto == 256 {
        256
    } else if crate::bits::bit_at(a, upto) != crate::bits::bit_at(b, upto) {
        upto
    } else {
        lemma_lcp_exists(a, b, upto + 1)
    }
}

/// The split point of two different paths has fewer than 256 bits.
pub proof fn lemma_lcp_key_is_short(a: Seq<u8>, b: Seq<u8>)
    requires
        a.len() == 32,
        b.len() == 32,
        a != b,
    ensures
        0 <= lcp_key(a, b).1 < 256,
{
    let l = lemma_lcp_exists(a, b, 0);
    let c = lcp_len(a, b);
    assert(is_lcp_len(a, b, c));
    if c == 256 {
        lemma_path_from_bits(a, b);
    }
}

/// Making the split points of a leaf and its neighbours exist leaves the
/// leaves of the store as they are.
pub proof fn lemma_ensure_splits_keeps_leaves(st: StateSpec, path: Seq<u8>, q: KeySpec)
    requires
        path.len() == 32,
        q.1 == 256,
        forall|k: KeySpec| #[trigger] st.0.contains_key(k) ==> k.0.len() == 32,
    ensures
        ensure_splits(st, path).0.contains_key(q) == st.0.contains_key(q),
        st.0.contains_key(q) ==> ensure_splits(st, path).0[q] == st.0[q],
        forall|k: KeySpec| #[trigger] ensure_splits(st, path).0.contains_key(k) ==> k.0.len() == 32,
{
    let st1 = split_with(st, path, prev_leaf_of(st.0, path));
    match prev_leaf_of(st.0, path) {
        Some(k) => {
            assert(is_prev_leaf(st.0, path, k));
            if k.0 == path {
                crate::flat::key::lemma_key_asymmetric(k, leaf_key(path));
            }
            lemma_lcp_key_is_short(path, k.0);
        },
        None => {},
    }
    assert forall|k: KeySpec| #[trigger] st1.0.contains_key(k) implies k.0.len() == 32 by {}
    match next_leaf_of(st1.0, path) {
        Some(k) => {
            assert(is_next_leaf(st1.0, path, k));
            if k.0 == path {
                crate::flat::key::lemma_key_asymmetric(leaf_key(path), k);
            }
            lemma_lcp_key_is_short(path, k.0);
        },
        None => {},
    }
}

/// The paths of prepared writes have 32 bytes.
pub open spec fn paths_sized(p: Seq<PrepSpec>) -> bool {
    forall|i: int| 0 <= i < p.len() ==> (#[trigger] p[i]).0.len() == 32
}

/// Every key of the map has a path of 32 bytes.
pub open spec fn keys_sized(m: Map<KeySpec, Seq<u8>>) -> bool {
    forall|k: KeySpec| #[trigger] m.contains_key(k) ==> k.0.len() == 32
}

/// The split points of neighbours in the batch leave the leaves as they are.
pub proof fn lemma_pair_splits_keeps_leaves(st: StateSpec, p: Seq<PrepSpec>, q: KeySpec)
    requires
        paths_sized(p),
        q.1 == 256,
        keys_sized(st.0),
    ensures
        pair_splits(st, p).0.contains_key(q) == st.0.contains_key(q),
        st.0.contains_key(q) ==> pair_splits(st, p).0[q] == st.0[q],
        keys_sized(pair_splits(st, p).0),
    decreases p.len(),
{
    if p.len() >= 2 {
        let d = p.drop_last();
        assert forall|i: int| 0 <= i < d.len() implies (#[trigger] d[i]).0.len() == 32 by {
            assert(d[i] == p[i]);
        }
        lemma_pair_splits_keeps_leaves(st, d, q);
        let a = p[p.len() - 2].0;
        let b = p.last().0;
        assert(p[p.len() - 1] == p.last());
        if a != b {
            lemma_lcp_key_is_short(a, b);
        }
    }
}

/// The split points of the inserted leaves leave the leaves as they are.
pub proof fn lemma_neighbour_splits_keeps_leaves(st: StateSpec, p: Seq<PrepSpec>, q: KeySpec)
    requires
        paths_sized(p),
        q.1 == 256,
        keys_sized(st.0),
    ensures
        neighbour_splits(st, p).0.contains_key(q) == st.0.contains_key(q),
        st.0.contains_key(q) ==> neighbour_splits(st, p).0[q] == st.0[q],
        keys_sized(neighbour_splits(st, p).0),
    decreases p.len(),
{
    if p.len() > 0 {
        let d = p.drop_last();
        assert forall|i: int| 0 <= i < d.len() implies (#[trigger] d[i]).0.len() == 32 by {
            assert(d[i] == p[i]);
        }
        lemma_neighbour_splits_keeps_leaves(st, d, q);
        assert(p[p.len() - 1] == p.last());
        if p.last().1 {
            lemma_ensure_splits_keeps_leaves(neighbour_splits(st, d), p.last().0, q);
        }
    }
}

/// The rehash leaves the leaves as they are.
pub proof fn lemma_rehash_keeps_leaves(m: Map<KeySpec, Seq<u8>>, order: Seq<KeySpec>, q: KeySpec)
    requires
        q.1 == 256,
    ensures
        rehash_fold(m, order).contains_key(q) == m.contains_key(q),
        m.contains_key(q) ==> rehash_fold(m, order)[q] == m[q],
    decreases order.len(),
{
    if order.len() > 0 {
        lemma_rehash_keeps_leaves(m, order.drop_last(), q);
    }
}

/// The prepared inserts at a path are the inserts of the batch at that path.
proof fn lemma_prep_inserts(s: Seq<Prepared>, ops: Seq<Op>, x: Seq<u8>)
    requires
        sorted_prepared_of(s, ops),
    ensures
        prep_inserts(prep_view(s), x) <==> exists|i: int| inserts_at(ops, i, x),
        prep_deletes(prep_view(s), x) <==> exists|i: int| deletes_at(ops, i, x),
        paths_sized(prep_view(s)),
{
    let p = prep_view(s);
    if prep_inserts(p, x) {
        let j = choose|j: int| 0 <= j < p.len() && (#[trigger] p[j]).1 && p[j].0 == x;
        assert(is_prepared_of(s[j], ops));
        assert(inserts_at(ops, s[j].1 as int, x));
    }
    if prep_deletes(p, x) {
        let j = choose|j: int| 0 <= j < p.len() && !(#[trigger] p[j]).1 && p[j].0 == x;
        assert(is_prepared_of(s[j], ops));
        assert(deletes_at(ops, s[j].1 as int, x));
    }
    if exists|i: int| inserts_at(ops, i, x) {
        let i = choose|i: int| inserts_at(ops, i, x);
        assert(has_position(s, i));
        let j = choose|j: int| 0 <= j < s.len() && (#[trigger] s[j]).1 == i;
        assert(is_prepared_of(s[j], ops));
        assert(p[j].1 && p[j].0 == x);
    }
    if exists|i: int| deletes_at(ops, i, x) {
        let i = choose|i: int| deletes_at(ops, i, x);
        assert(has_position(s, i));
        let j = choose|j: int| 0 <= j < s.len() && (#[trigger] s[j]).1 == i;
        assert(is_prepared_of(s[j], ops));
        assert(!p[j].1 && p[j].0 == x);
    }
    assert forall|i: int| 0 <= i < p.len() implies (#[trigger] p[i]).0.len() == 32 by {}
}

/// The last insert of the batch at a path stands last among the prepared
/// inserts at that path.
proof fn lemma_last_insert_position(s: Seq<Prepared>, ops: Seq<Op>, i: int, x: Seq<u8>) -> (j: int)
    requires
        sorted_prepared_of(s, ops),
        is_last_insert(ops, i, x),
    ensures
        is_last_prep_insert(prep_view(s), j, x),
        prep_view(s)[j].2 == op_leaf(ops[i]),
{
    let p = prep_view(s);
    assert(has_position(s, i));
    let j = choose|j: int| 0 <= j < s.len() && (#[trigger] s[j]).1 == i;
    assert(is_prepared_of(s[j], ops));
    assert forall|k: int| j < k < p.len() implies !((#[trigger] p[k]).1 && p[k].0 == x) by {
        if p[k].1 && p[k].0 == x {
            assert(is_prepared_of(s[k], ops));
            assert(prepared_le(s[j], s[k]));
            if lex_lt(s[j].0@, s[k].0@) {
                lemma_lex_asymmetric(s[j].0@, s[k].0@);
            }
            assert(s[j].1 != s[k].1);
            assert(inserts_at(ops, s[k].1 as int, x));
        }
    }
    j
}

/// What a batch does to the leaves: every leaf of an insert is put, with the
/// hash of the last insert at its path; the leaf of a delete that no insert
/// of the batch puts again is taken away; every other leaf stays.
pub proof fn lemma_batch_leaves(
    before: Map<KeySpec, Seq<u8>>,
    ops: Seq<Op>,
    after: Map<KeySpec, Seq<u8>>,
    x: Seq<u8>,
)
    requires
        keys_sized(before),
        is_batch_result(before, ops, after),
    ensures
        leaf_after(before, ops, after, x),
{
    let (s, order): (Seq<Prepared>, Seq<KeySpec>) = choose|s: Seq<Prepared>, order: Seq<KeySpec>|
     #[trigger]
        sorted_prepared_of(s, ops) && #[trigger] crate::flat::dirty::is_deep_order(
            order,
            batch_state(before, prep_view(s)).1,
        ) && after == rehash_fold(batch_state(before, prep_view(s)).0, order);
    let p = prep_view(s);
    let q = leaf_key(x);
    lemma_prep_inserts(s, ops, x);
    let deleted = apply_deletes(before, p);
    let start: StateSpec = (deleted, Set::<KeySpec>::empty());
    let written = apply_inserts(start, p);
    let paired = pair_splits(written, p);
    let split = neighbour_splits(paired, p);
    assert(batch_state(before, p).0 == split.0);
    assert(keys_sized(deleted)) by {
        assert forall|k: KeySpec| #[trigger] deleted.contains_key(k) implies k.0.len() == 32 by {
            lemma_apply_deletes(before, p, k);
        }
    }
    assert(keys_sized(written.0)) by {
        assert forall|k: KeySpec| #[trigger] written.0.contains_key(k) implies k.0.len() == 32 by {
            lemma_apply_inserts(start, p, k);
            if !deleted.contains_key(k) {
                let j = choose|j: int| 0 <= j < p.len() && (#[trigger] p[j]).1 && p[j].0 == k.0;
                assert(p[j].0.len() == 32);
            }
        }
    }
    lemma_apply_deletes(before, p, q);
    lemma_apply_inserts(start, p, q);
    lemma_pair_splits_keeps_leaves(written, p, q);
    lemma_neighbour_splits_keeps_leaves(paired, p, q);
    lemma_rehash_keeps_leaves(split.0, order, q);
    if exists|i: int| inserts_at(ops, i, x) {
        assert forall|i: int| #[trigger] is_last_insert(ops, i, x) implies after[q] == op_leaf(
            ops[i],
        ) by {
            let j = lemma_last_insert_position(s, ops, i, x);
        }
    }
}

/// Every leaf of `after` is what the batch makes of it.
pub open spec fn leaves_follow(
    before: Map<KeySpec, Seq<u8>>,
    ops: Seq<Op>,
    after: Map<KeySpec, Seq<u8>>,
) -> bool {
    forall|x: Seq<u8>| #[trigger] leaf_after(before, ops, after, x)
}

} // verus!
