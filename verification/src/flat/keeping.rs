//! A batch keeps the store sound: every split point keeps a leaf under it,
//! and the split point of every two leaves stays in the store.

use crate::bits::{bit_at, same_bits_before};
use crate::flat::ancestors::{cand, lemma_cand_lt};
use crate::flat::batch::{
    batch_state, is_batch_result, prep_view, sorted_prepared_of, Op, PrepSpec, Prepared,
};
use crate::flat::consistency::{
    agree_at, lemma_batch_consistent, lemma_batch_state_ready, lemma_between_is_under,
    lemma_child_key_valid, lemma_clean_nodes_consistent, lemma_prefix_on_path,
    lemma_rehash_consistent, lemma_under_child_is_deeper, map_valid, paths_of, rehash_at,
    rehash_ready, under_child,
};
use crate::flat::dirty::{deeper_lt, is_deep_order, lemma_deeper_asymmetric};
use crate::flat::hubt::{
    child_hash, child_key, lcp_key, lcp_len, least_ge_of, lemma_least_ge_unique, rehash_fold,
    rehash_step,
};
use crate::flat::key::{key_le, KeySpec};
use crate::flat::leaves::{lemma_lcp_key_is_short, lemma_rehash_keeps_leaves, paths_sized};
use crate::flat::path::{lemma_masked_all, lemma_masked_shares};
use crate::flat::rank::lemma_least_exists;
use crate::flat::soundness::{has_leaf_under, pairs_split, rooted, sound_store};
use crate::flat::splits::{lemma_lcp_symmetric, lemma_pairs_in_state};
use crate::flat::store::{is_least_ge, key_valid, leaf_key};
use crate::hash::zero32;
use vstd::prelude::*;

verus! {

/// Where the rehash stands after the first `i` nodes of its order, as to the
/// leaves: each of these nodes that is a split point of the store `r` has a
/// leaf under it, and so has every split point that is not dirty.
pub open spec fn rooted_at(dirty: Set<KeySpec>, order: Seq<KeySpec>, i: int, r: Map<KeySpec, Seq<u8>>) -> bool {
    &&& forall|j: int|
        0 <= j < i && r.contains_key(#[trigger] order[j]) && order[j].1 < 256 ==> has_leaf_under(
            r,
            order[j],
        )
    &&& forall|n: KeySpec|
        #[trigger] r.contains_key(n) && n.1 < 256 && !dirty.contains(n) ==> has_leaf_under(r, n)
}

/// A store with the leaves of another has a leaf under every node under
/// which the other has one.
pub proof fn lemma_same_leaves_under(a: Map<KeySpec, Seq<u8>>, b: Map<KeySpec, Seq<u8>>, n: KeySpec)
    requires
        has_leaf_under(a, n),
        forall|y: Seq<u8>| #[trigger] a.contains_key(leaf_key(y)) ==> b.contains_key(leaf_key(y)),
    ensures
        has_leaf_under(b, n),
{
    let y = choose|y: Seq<u8>| #[trigger] a.contains_key(leaf_key(y)) && same_bits_before(y, n.0, n.1);
    assert(b.contains_key(leaf_key(y)));
}

/// One step of the rehash keeps a leaf under every split point that it has
/// dealt with or that is not dirty.
proof fn lemma_rooted_step(
    m: Map<KeySpec, Seq<u8>>,
    dirty: Set<KeySpec>,
    paths: Set<Seq<u8>>,
    order: Seq<KeySpec>,
    i: int,
    r: Map<KeySpec, Seq<u8>>,
)
    requires
        rehash_ready(m, dirty, paths),
        is_deep_order(order, dirty),
        0 <= i < order.len(),
        rehash_at(m, dirty, order, i, r),
        rooted_at(dirty, order, i, r),
    ensures
        rooted_at(dirty, order, i + 1, rehash_step(r, order[i])),
{
    let k = order[i];
    let r2 = rehash_step(r, k);
    assert(order.contains(k));
    assert(dirty.contains(k));
    assert(key_valid(k));
    assert forall|y: Seq<u8>| #[trigger] r.contains_key(leaf_key(y)) implies r2.contains_key(
        leaf_key(y),
    ) by {}
    assert forall|j: int|
        0 <= j < i + 1 && r2.contains_key(#[trigger] order[j]) && order[j].1 < 256 implies has_leaf_under(
        r2,
        order[j],
    ) by {
        let n = order[j];
        if j < i {
            assert(deeper_lt(n, k));
            lemma_deeper_asymmetric(n, k);
            assert(r.contains_key(n));
            lemma_same_leaves_under(r, r2, n);
        } else {
            // The node stays, so one of its children is not zero: a node
            // stands under it, and a leaf under that node.
            let bit: bool = child_hash(r, k, false) == zero32();
            assert(child_hash(r, k, bit) != zero32());
            let ck = child_key(k, bit);
            let c = least_ge_of(r, ck)->Some_0;
            assert(is_least_ge(r, ck, c));
            assert(under_child(k, bit, c));
            assert(key_valid(c));
            lemma_under_child_is_deeper(k, bit, c);
            if c.1 == 256 {
                assert(leaf_key(c.0) == c);
                assert(r2.contains_key(leaf_key(c.0)));
            } else {
                if dirty.contains(c) {
                    assert(order.contains(c));
                    let jc = choose|jc: int| 0 <= jc < order.len() && order[jc] == c;
                    if jc > i {
                        assert(deeper_lt(k, c));
                    }
                    assert(jc < i);
                    assert(has_leaf_under(r, order[jc]));
                }
                assert(has_leaf_under(r, c));
                let y = choose|y: Seq<u8>|
                    #[trigger] r.contains_key(leaf_key(y)) && same_bits_before(y, c.0, c.1);
                assert(r2.contains_key(leaf_key(y)));
                assert(same_bits_before(y, k.0, k.1)) by {
                    assert forall|b: int| 0 <= b < k.1 implies bit_at(y, b) == bit_at(k.0, b) by {
                        assert(bit_at(y, b) == bit_at(c.0, b));
                    }
                }
            }
        }
    }
    assert forall|n: KeySpec|
        #[trigger] r2.contains_key(n) && n.1 < 256 && !dirty.contains(n) implies has_leaf_under(
        r2,
        n,
    ) by {
        assert(n != k);
        assert(r.contains_key(n));
        lemma_same_leaves_under(r, r2, n);
    }
}

/// The rehash keeps a leaf under every split point.
pub proof fn lemma_rehash_rooted(
    m: Map<KeySpec, Seq<u8>>,
    dirty: Set<KeySpec>,
    paths: Set<Seq<u8>>,
    order: Seq<KeySpec>,
    i: int,
)
    requires
        rehash_ready(m, dirty, paths),
        is_deep_order(order, dirty),
        0 <= i <= order.len(),
        forall|n: KeySpec|
            #[trigger] m.contains_key(n) && n.1 < 256 && !dirty.contains(n)
                ==> crate::flat::consistency::consistent_at(m, n),
        forall|n: KeySpec|
            #[trigger] m.contains_key(n) && n.1 < 256 && !dirty.contains(n) ==> has_leaf_under(m, n),
    ensures
        rehash_at(m, dirty, order, i, rehash_fold(m, order.take(i))),
        rooted_at(dirty, order, i, rehash_fold(m, order.take(i))),
    decreases i,
{
    lemma_rehash_consistent(m, dirty, paths, order, i);
    if i == 0 {
        assert(order.take(0) =~= Seq::<KeySpec>::empty());
    } else {
        lemma_rehash_rooted(m, dirty, paths, order, i - 1);
        assert(order.take(i).drop_last() =~= order.take(i - 1));
        assert(order.take(i).last() == order[i - 1]);
        lemma_rooted_step(m, dirty, paths, order, i - 1, rehash_fold(m, order.take(i - 1)));
    }
}

/// Every split point that is not dirty has, before the rehash of a batch,
/// the leaf under it that it had before the batch.
pub proof fn lemma_clean_nodes_rooted(before: Map<KeySpec, Seq<u8>>, p: Seq<PrepSpec>, n: KeySpec)
    requires
        map_valid(before),
        rooted(before),
        paths_sized(p),
        batch_state(before, p).0.contains_key(n),
        n.1 < 256,
        !batch_state(before, p).1.contains(n),
    ensures
        has_leaf_under(batch_state(before, p).0, n),
{
    let m = batch_state(before, p).0;
    let paths = paths_of(p);
    lemma_batch_state_ready(before, p);
    assert(key_valid(n));
    assert(agree_at(before, m, n));
    assert(has_leaf_under(before, n));
    let y = choose|y: Seq<u8>| #[trigger] before.contains_key(leaf_key(y)) && same_bits_before(y, n.0, n.1);
    if !agree_at(before, m, leaf_key(y)) {
        lemma_prefix_on_path(paths, n, leaf_key(y));
    }
    assert(m.contains_key(leaf_key(y)));
}

/// The rehash of the nodes of a list changes nothing under other keys.
pub proof fn lemma_rehash_touches_order(r: Map<KeySpec, Seq<u8>>, rest: Seq<KeySpec>, k: KeySpec)
    requires
        !rest.contains(k),
    ensures
        agree_at(r, rehash_fold(r, rest), k),
    decreases rest.len(),
{
    if rest.len() > 0 {
        let d = rest.drop_last();
        assert(!d.contains(k)) by {
            if d.contains(k) {
                let i = choose|i: int| 0 <= i < d.len() && d[i] == k;
                assert(rest[i] == k);
            }
        }
        lemma_rehash_touches_order(r, d, k);
        assert(rest[rest.len() - 1] == rest.last());
    }
}

/// The rehash of a list is the rehash of its first part, then of the rest.
pub proof fn lemma_rehash_split(m: Map<KeySpec, Seq<u8>>, order: Seq<KeySpec>, i: int)
    requires
        0 <= i <= order.len(),
    ensures
        rehash_fold(m, order) == rehash_fold(rehash_fold(m, order.take(i)), order.skip(i)),
    decreases order.len() - i,
{
    let rest = order.skip(i);
    if i == order.len() {
        assert(order.take(i) =~= order);
        assert(rest =~= Seq::<KeySpec>::empty());
    } else {
        let d = order.drop_last();
        lemma_rehash_split(m, d, i);
        assert(d.take(i) =~= order.take(i));
        assert(d.skip(i) =~= rest.drop_last());
        assert(rest.last() == order.last());
    }
}

/// Every stored hash is other than zero.
pub open spec fn no_zero_hash(m: Map<KeySpec, Seq<u8>>) -> bool {
    forall|k: KeySpec| #[trigger] m.contains_key(k) ==> m[k] != zero32()
}

/// The rehash keeps a split point that has a leaf under it, where no hash of
/// the store after the rehash is zero.
pub proof fn lemma_rehash_keeps_split(
    m: Map<KeySpec, Seq<u8>>,
    dirty: Set<KeySpec>,
    paths: Set<Seq<u8>>,
    order: Seq<KeySpec>,
    x: Seq<u8>,
    l: int,
)
    requires
        rehash_ready(m, dirty, paths),
        is_deep_order(order, dirty),
        forall|n: KeySpec|
            #[trigger] m.contains_key(n) && n.1 < 256 && !dirty.contains(n)
                ==> crate::flat::consistency::consistent_at(m, n),
        no_zero_hash(rehash_fold(m, order)),
        x.len() == 32,
        0 <= l < 256,
        m.contains_key(leaf_key(x)),
        m.contains_key(cand(x, l)),
    ensures
        rehash_fold(m, order).contains_key(cand(x, l)),
{
    let after = rehash_fold(m, order);
    let n = cand(x, l);
    lemma_rehash_consistent(m, dirty, paths, order, order.len() as int);
    assert(order.take(order.len() as int) =~= order);
    if !dirty.contains(n) {
        if !agree_at(m, after, n) {
            assert(order.contains(n));
        }
    } else {
        assert(order.contains(n));
        let j = choose|j: int| 0 <= j < order.len() && order[j] == n;
        let r = rehash_fold(m, order.take(j));
        lemma_rehash_consistent(m, dirty, paths, order, j);
        lemma_rehash_split(m, order, j);
        lemma_rehash_split(m, order, j + 1);
        assert(order.take(j + 1).drop_last() =~= order.take(j));
        assert(order.take(j + 1).last() == n);
        let r2 = rehash_step(r, n);
        assert(rehash_fold(m, order.take(j + 1)) == r2);
        // The leaf stands under the child on its side.
        let b = bit_at(x, l);
        let ck = child_key(n, b);
        crate::flat::soundness::lemma_key_on_path_child(x, l);
        lemma_child_key_valid(n, b);
        lemma_masked_all(x, 256);
        if l + 1 < 256 {
            lemma_cand_lt(x, l + 1, 256);
        }
        lemma_rehash_keeps_leaves(m, order.take(j), leaf_key(x));
        assert(key_le(ck, leaf_key(x)));
        lemma_masked_shares(x, l + 1);
        let c = lemma_least_exists(r, ck, leaf_key(x));
        lemma_least_ge_unique(r, ck, c);
        assert(key_valid(c));
        assert(key_valid(leaf_key(x)));
        lemma_between_is_under(n, b, c, leaf_key(x));
        lemma_under_child_is_deeper(n, b, c);
        // That node is as the rehash leaves it, so its hash is not zero.
        assert(!order.skip(j).contains(c)) by {
            if order.skip(j).contains(c) {
                let tail = order.skip(j);
                let a = choose|a: int| 0 <= a < tail.len() && tail[a] == c;
                assert(order[j + a] == c);
                if a > 0 {
                    assert(deeper_lt(order[j], order[j + a]));
                }
            }
        }
        lemma_rehash_touches_order(r, order.skip(j), c);
        assert(after[c] != zero32());
        assert(child_hash(r, n, b) == r[c]);
        assert(r2.contains_key(n));
        assert(!order.skip(j + 1).contains(n)) by {
            if order.skip(j + 1).contains(n) {
                let tail = order.skip(j + 1);
                let a = choose|a: int| 0 <= a < tail.len() && tail[a] == n;
                assert(order[j + 1 + a] == n);
                assert(deeper_lt(order[j], order[j + 1 + a]));
                lemma_deeper_asymmetric(order[j], order[j + 1 + a]);
            }
        }
        lemma_rehash_touches_order(r2, order.skip(j + 1), n);
    }
}

/// A batch keeps the store sound, where it leaves no zero hash in it: the
/// store stays valid and hash consistent, every split point keeps a leaf
/// under it, and the split point of every two leaves is in the store.
pub proof fn lemma_batch_sound(before: Map<KeySpec, Seq<u8>>, ops: Seq<Op>, after: Map<KeySpec, Seq<u8>>)
    requires
        sound_store(before),
        is_batch_result(before, ops, after),
        no_zero_hash(after),
    ensures
        sound_store(after),
{
    lemma_batch_consistent(before, ops, after);
    let (s, order): (Seq<Prepared>, Seq<KeySpec>) = choose|s: Seq<Prepared>, order: Seq<KeySpec>|
     #[trigger]
        sorted_prepared_of(s, ops) && #[trigger] is_deep_order(
            order,
            batch_state(before, prep_view(s)).1,
        ) && after == rehash_fold(batch_state(before, prep_view(s)).0, order);
    let p = prep_view(s);
    let paths = paths_of(p);
    assert(paths_sized(p)) by {
        assert forall|i: int| 0 <= i < p.len() implies (#[trigger] p[i]).0.len() == 32 by {}
    }
    lemma_batch_state_ready(before, p);
    lemma_clean_nodes_consistent(before, p);
    let m = batch_state(before, p).0;
    let dirty = batch_state(before, p).1;
    assert forall|n: KeySpec| #[trigger] m.contains_key(n) && n.1 < 256 && !dirty.contains(n) implies has_leaf_under(
        m,
        n,
    ) by {
        lemma_clean_nodes_rooted(before, p, n);
    }
    let len = order.len() as int;
    lemma_rehash_rooted(m, dirty, paths, order, len);
    assert(order.take(len) =~= order);
    assert(rooted(after)) by {
        assert forall|n: KeySpec| #[trigger] after.contains_key(n) && n.1 < 256 implies has_leaf_under(
            after,
            n,
        ) by {
            if dirty.contains(n) {
                assert(order.contains(n));
                let j = choose|j: int| 0 <= j < order.len() && order[j] == n;
                assert(after.contains_key(order[j]));
            }
        }
    }
    assert(pairs_split(after)) by {
        assert forall|x: Seq<u8>, y: Seq<u8>|
            #[trigger] after.contains_key(leaf_key(x)) && #[trigger] after.contains_key(leaf_key(y))
                && x != y implies after.contains_key(lcp_key(x, y)) by {
            lemma_rehash_keeps_leaves(m, order, leaf_key(x));
            lemma_rehash_keeps_leaves(m, order, leaf_key(y));
            assert(key_valid(leaf_key(x)) && key_valid(leaf_key(y)));
            crate::bits::lemma_lex_total(x, y);
            lemma_lcp_symmetric(x, y);
            if crate::bits::lex_lt(x, y) {
                lemma_pairs_in_state(before, p, x, y);
            } else {
                lemma_pairs_in_state(before, p, y, x);
            }
            lemma_lcp_key_is_short(x, y);
            let l = lcp_len(x, y);
            assert(lcp_key(x, y) == cand(x, l));
            lemma_rehash_keeps_split(m, dirty, paths, order, x, l);
        }
    }
}

/// The store without nodes is sound.
pub proof fn lemma_empty_store_sound()
    ensures
        sound_store(Map::<KeySpec, Seq<u8>>::empty()),
{
}

} // verus!
