//! Hash consistency of the flat store: every split point holds the pair hash
//! of its two children, and a batch keeps it so.

use crate::bits::{bit_at, lemma_lex_between, lemma_path_from_bits, same_bits_before};
use crate::flat::ancestors::{ancestors, lemma_anc_contains};
use crate::flat::batch::{
    apply_deletes, apply_inserts, batch_state, is_batch_result, neighbour_splits, pair_splits,
    prep_view, sorted_prepared_of, with_ancestors, Op, PrepSpec, Prepared,
};
use crate::flat::dirty::{deeper_lt, is_deep_order, lemma_deeper_asymmetric};
use crate::flat::hubt::{
    child_hash, child_key, ensure_node, ensure_splits, lcp_key, lcp_len, least_ge_of,
    lemma_least_ge_unique, next_leaf_of, prev_leaf_of, rehash_fold, rehash_step, split_with,
    StateSpec,
};
use crate::flat::key::{key_le, key_lt, lemma_key_asymmetric, lemma_key_total, KeySpec};
use crate::flat::leaves::{lemma_lcp_exists, paths_sized};
use crate::flat::path::{
    is_lcp_len, lemma_masked_all, lemma_masked_bits, lemma_masked_shares, lemma_masked_twice,
    lemma_prefix_is_mask, lemma_with_bit_bits, with_bit,
};
use crate::flat::store::{is_least_ge, is_next_leaf, is_prev_leaf, key_valid, leaf_key};
use crate::hash::pair_hash;
use vstd::prelude::*;

verus! {

/// Every key of the map is one that the store may hold.
pub open spec fn map_valid(m: Map<KeySpec, Seq<u8>>) -> bool {
    forall|k: KeySpec| #[trigger] m.contains_key(k) ==> key_valid(k)
}

/// `o` lies under the child of `n` on side `bit`: at or behind the child's
/// key, and with the child's bits.
pub open spec fn under_child(n: KeySpec, bit: bool, o: KeySpec) -> bool {
    key_le(child_key(n, bit), o) && same_bits_before(o.0, child_key(n, bit).0, n.1 + 1)
}

/// The split point `n` holds the pair hash of its two children.
pub open spec fn consistent_at(m: Map<KeySpec, Seq<u8>>, n: KeySpec) -> bool {
    m[n] == pair_hash(child_hash(m, n, false), child_hash(m, n, true))
}

/// Every split point of the store holds the pair hash of its two children.
pub open spec fn hash_consistent(m: Map<KeySpec, Seq<u8>>) -> bool {
    forall|n: KeySpec| #[trigger] m.contains_key(n) && n.1 < 256 ==> consistent_at(m, n)
}

/// `a` and `b` hold the same under `k`.
pub open spec fn agree_at(a: Map<KeySpec, Seq<u8>>, b: Map<KeySpec, Seq<u8>>, k: KeySpec) -> bool {
    a.contains_key(k) == b.contains_key(k) && (a.contains_key(k) ==> a[k] == b[k])
}

/// The bits of the key of a child: those of the node, then the side, then zeros.
pub proof fn lemma_child_key_bits(n: KeySpec, bit: bool, j: int)
    requires
        key_valid(n),
        n.1 < 256,
        0 <= j < 256,
    ensures
        bit_at(child_key(n, bit).0, j) == (if j < n.1 {
            bit_at(n.0, j)
        } else if j == n.1 {
            bit
        } else {
            false
        }),
        child_key(n, bit).0.len() == 32,
{
    lemma_masked_bits(with_bit(n.0, n.1, bit), n.1 + 1, j);
    lemma_with_bit_bits(n.0, n.1, bit, j);
}

/// The key of a child is one that the store may hold.
pub proof fn lemma_child_key_valid(n: KeySpec, bit: bool)
    requires
        key_valid(n),
        n.1 < 256,
    ensures
        key_valid(child_key(n, bit)),
{
    crate::flat::path::lemma_masked_twice(with_bit(n.0, n.1, bit), n.1 + 1, n.1 + 1);
}

/// A node under a child of `n` has the bits of `n`, and more bits than `n`.
pub proof fn lemma_under_child_is_deeper(n: KeySpec, bit: bool, o: KeySpec)
    requires
        key_valid(n),
        n.1 < 256,
        key_valid(o),
        under_child(n, bit, o),
    ensures
        o.1 > n.1,
        same_bits_before(o.0, n.0, n.1),
{
    let ck = child_key(n, bit);
    assert forall|j: int| 0 <= j < n.1 implies bit_at(o.0, j) == bit_at(n.0, j) by {
        lemma_child_key_bits(n, bit, j);
    }
    if o.1 <= n.1 {
        // Then `o` has the path of the child's key, and fewer bits: it stands before it.
        assert forall|j: int| 0 <= j < 256 implies bit_at(o.0, j) == bit_at(ck.0, j) by {
            lemma_child_key_bits(n, bit, j);
            lemma_masked_bits(o.0, o.1, j);
            lemma_masked_bits(n.0, n.1, j);
            if j <= n.1 {
                assert(bit_at(o.0, j) == bit_at(ck.0, j));
            }
        }
        lemma_child_key_bits(n, bit, 0);
        lemma_path_from_bits(o.0, ck.0);
        assert(key_lt(o, ck));
        lemma_key_asymmetric(o, ck);
    }
}

/// The hash of a child depends only on the nodes under the child: stores
/// that hold the same there give the child the same hash.
pub proof fn lemma_child_hash_local(
    a: Map<KeySpec, Seq<u8>>,
    b: Map<KeySpec, Seq<u8>>,
    n: KeySpec,
    bit: bool,
)
    requires
        map_valid(a),
        map_valid(b),
        key_valid(n),
        n.1 < 256,
        forall|o: KeySpec| #[trigger] under_child(n, bit, o) ==> agree_at(a, b, o),
    ensures
        child_hash(a, n, bit) == child_hash(b, n, bit),
{
    lemma_child_hash_one_way(a, b, n, bit);
    lemma_child_hash_one_way(b, a, n, bit);
    let ck = child_key(n, bit);
    match least_ge_of(a, ck) {
        Some(c) => {},
        None => {},
    }
}

/// The first node of `a` under a child of `n` is the first of `b` too, where
/// the stores hold the same under the child.
proof fn lemma_child_hash_one_way(
    a: Map<KeySpec, Seq<u8>>,
    b: Map<KeySpec, Seq<u8>>,
    n: KeySpec,
    bit: bool,
)
    requires
        map_valid(a),
        map_valid(b),
        key_valid(n),
        n.1 < 256,
        forall|o: KeySpec| #[trigger] under_child(n, bit, o) ==> agree_at(a, b, o),
    ensures
        match least_ge_of(a, child_key(n, bit)) {
            Some(c) => same_bits_before(c.0, child_key(n, bit).0, n.1 + 1) ==> least_ge_of(
                b,
                child_key(n, bit),
            ) == Some(c) && a[c] == b[c],
            None => true,
        },
{
    let ck = child_key(n, bit);
    lemma_child_key_valid(n, bit);
    match least_ge_of(a, ck) {
        Some(c) => {
            assert(is_least_ge(a, ck, c));
            if same_bits_before(c.0, ck.0, n.1 + 1) {
                assert(under_child(n, bit, c));
                assert(agree_at(a, b, c));
                assert forall|o: KeySpec| #[trigger] b.contains_key(o) && key_le(ck, o) implies key_le(
                    c,
                    o,
                ) by {
                    lemma_key_total(o, c);
                    if key_lt(o, c) {
                        lemma_between_is_under(n, bit, o, c);
                        assert(agree_at(a, b, o));
                        assert(key_le(c, o));
                        lemma_key_asymmetric(o, c);
                    }
                }
                lemma_least_ge_unique(b, ck, c);
            }
        },
        None => {},
    }
}

/// A key between the key of a child and a node under the child is under the child.
pub proof fn lemma_between_is_under(n: KeySpec, bit: bool, o: KeySpec, e: KeySpec)
    requires
        key_valid(n),
        n.1 < 256,
        key_valid(o),
        key_valid(e),
        key_le(child_key(n, bit), o),
        key_le(o, e),
        same_bits_before(e.0, child_key(n, bit).0, n.1 + 1),
    ensures
        under_child(n, bit, o),
{
    let ck = child_key(n, bit);
    lemma_child_key_valid(n, bit);
    assert(same_bits_before(ck.0, e.0, n.1 + 1));
    lemma_lex_between(ck.0, o.0, e.0, n.1 + 1);
}

/// `k` is a key that the store may hold, with the leading bits of one of the paths.
pub open spec fn on_path(paths: Set<Seq<u8>>, k: KeySpec) -> bool {
    key_valid(k) && exists|t: Seq<u8>| #[trigger] paths.contains(t) && same_bits_before(t, k.0, k.1)
}

/// What the rehash starts from: a valid store, and a dirty set that holds
/// exactly the stored keys on the paths.
pub open spec fn rehash_ready(m: Map<KeySpec, Seq<u8>>, dirty: Set<KeySpec>, paths: Set<Seq<u8>>) -> bool {
    &&& map_valid(m)
    &&& forall|k: KeySpec| #[trigger] dirty.contains(k) ==> on_path(paths, k) && m.contains_key(k)
    &&& forall|k: KeySpec| #[trigger] m.contains_key(k) && on_path(paths, k) ==> dirty.contains(k)
}

/// Where the rehash stands after the first `i` nodes of its order: the store
/// `r` differs from the start `m` at those nodes alone; each of them that is
/// a split point of `r` is consistent, and so is every split point that is
/// not dirty.
pub open spec fn rehash_at(
    m: Map<KeySpec, Seq<u8>>,
    dirty: Set<KeySpec>,
    order: Seq<KeySpec>,
    i: int,
    r: Map<KeySpec, Seq<u8>>,
) -> bool {
    &&& map_valid(r)
    &&& forall|k: KeySpec| !#[trigger] agree_at(m, r, k) ==> order.take(i).contains(k)
    &&& forall|j: int|
        0 <= j < i && r.contains_key(#[trigger] order[j]) && order[j].1 < 256 ==> consistent_at(
            r,
            order[j],
        )
    &&& forall|n: KeySpec|
        #[trigger] r.contains_key(n) && n.1 < 256 && !dirty.contains(n) ==> consistent_at(r, n)
}

/// A node with the bits of a node on a path, and no more bits, is on the path.
pub proof fn lemma_prefix_on_path(paths: Set<Seq<u8>>, n: KeySpec, k: KeySpec)
    requires
        key_valid(n),
        on_path(paths, k),
        n.1 <= k.1,
        same_bits_before(k.0, n.0, n.1),
    ensures
        on_path(paths, n),
{
    let t = choose|t: Seq<u8>| #[trigger] paths.contains(t) && same_bits_before(t, k.0, k.1);
    assert(same_bits_before(t, n.0, n.1)) by {
        assert forall|j: int| 0 <= j < n.1 implies bit_at(t, j) == bit_at(n.0, j) by {
            assert(bit_at(t, j) == bit_at(k.0, j));
        }
    }
}

/// One step of the rehash keeps the rehash in order.
proof fn lemma_rehash_step(
    m: Map<KeySpec, Seq<u8>>,
    dirty: Set<KeySpec>,
    paths: Set<Seq<u8>>,
    order: Seq<KeySpec>,
    i: int,
    r: Map<KeySpec, Seq<u8>>,
)
    requires
        rehash_ready(m, dirty, paths),
        is_deep_order(order, dirty),
        0 <= i < order.len(),
        rehash_at(m, dirty, order, i, r),
    ensures
        rehash_at(m, dirty, order, i + 1, rehash_step(r, order[i])),
{
    let k = order[i];
    let r2 = rehash_step(r, k);
    assert(order.contains(k));
    assert(dirty.contains(k));
    assert(key_valid(k));
    assert(order.take(i + 1) =~= order.take(i).push(k));
    assert forall|x: KeySpec| !#[trigger] agree_at(m, r2, x) implies order.take(i + 1).contains(x) by {
        assert(order.take(i + 1)[i] == k);
        if x != k {
            assert(agree_at(r, r2, x));
            assert(!agree_at(m, r, x));
            let j = choose|j: int| 0 <= j < order.take(i).len() && order.take(i)[j] == x;
            assert(order.take(i + 1)[j] == x);
        }
    }
    assert(map_valid(r2));
    if k.1 < 256 {
        // Nothing under a child of a node is changed by this step, unless
        // the node is dirty and comes later in the order.
        assert forall|n: KeySpec, bit: bool|
            key_valid(n) && n.1 < 256 && n.1 >= k.1 implies #[trigger] child_hash(r2, n, bit)
            == child_hash(r, n, bit) by {
            assert forall|o: KeySpec| #[trigger] under_child(n, bit, o) implies agree_at(r2, r, o) by {
                if o == k {
                    lemma_under_child_is_deeper(n, bit, o);
                }
            }
            lemma_child_hash_local(r2, r, n, bit);
        }
        assert forall|j: int|
            0 <= j < i + 1 && r2.contains_key(#[trigger] order[j]) && order[j].1 < 256 implies consistent_at(
            r2,
            order[j],
        ) by {
            let n = order[j];
            assert(order.contains(n));
            assert(key_valid(n));
            if j < i {
                assert(deeper_lt(n, k));
                lemma_deeper_asymmetric(n, k);
                assert(r.contains_key(n));
                assert(consistent_at(r, n));
                assert(child_hash(r2, n, false) == child_hash(r, n, false));
                assert(child_hash(r2, n, true) == child_hash(r, n, true));
            } else {
                assert(child_hash(r2, k, false) == child_hash(r, k, false));
                assert(child_hash(r2, k, true) == child_hash(r, k, true));
            }
        }
        assert forall|n: KeySpec|
            #[trigger] r2.contains_key(n) && n.1 < 256 && !dirty.contains(n) implies consistent_at(
            r2,
            n,
        ) by {
            assert(n != k);
            assert(r.contains_key(n));
            assert(key_valid(n));
            assert forall|bit: bool| #[trigger] child_hash(r2, n, bit) == child_hash(r, n, bit) by {
                assert forall|o: KeySpec| #[trigger] under_child(n, bit, o) implies agree_at(
                    r2,
                    r,
                    o,
                ) by {
                    if o == k {
                        lemma_under_child_is_deeper(n, bit, o);
                        lemma_prefix_on_path(paths, n, k);
                        // A stored node on a path is dirty.
                        if !m.contains_key(n) {
                            assert(!agree_at(m, r, n));
                            let j = choose|j: int|
                                0 <= j < order.take(i).len() && order.take(i)[j] == n;
                            assert(order[j] == n);
                            assert(order.contains(n));
                        }
                    }
                }
                lemma_child_hash_local(r2, r, n, bit);
            }
            assert(child_hash(r2, n, false) == child_hash(r, n, false));
            assert(child_hash(r2, n, true) == child_hash(r, n, true));
        }
    } else {
        assert(r2 == r);
    }
}

/// The rehash makes every split point consistent: those that it rehashes,
/// and those that nothing of the batch lies under.
pub proof fn lemma_rehash_consistent(
    m: Map<KeySpec, Seq<u8>>,
    dirty: Set<KeySpec>,
    paths: Set<Seq<u8>>,
    order: Seq<KeySpec>,
    i: int,
)
    requires
        rehash_ready(m, dirty, paths),
        is_deep_order(order, dirty),
        0 <= i <= order.len(),
        forall|n: KeySpec|
            #[trigger] m.contains_key(n) && n.1 < 256 && !dirty.contains(n) ==> consistent_at(m, n),
    ensures
        rehash_at(m, dirty, order, i, rehash_fold(m, order.take(i))),
    decreases i,
{
    if i == 0 {
        assert(order.take(0) =~= Seq::<KeySpec>::empty());
    } else {
        lemma_rehash_consistent(m, dirty, paths, order, i - 1);
        assert(order.take(i).drop_last() =~= order.take(i - 1));
        assert(order.take(i).last() == order[i - 1]);
        lemma_rehash_step(m, dirty, paths, order, i - 1, rehash_fold(m, order.take(i - 1)));
    }
}

/// The paths of the prepared writes.
pub open spec fn paths_of(p: Seq<PrepSpec>) -> Set<Seq<u8>> {
    Set::new(|t: Seq<u8>| exists|i: int| 0 <= i < p.len() && (#[trigger] p[i]).0 == t)
}

/// The state of a batch in the making: the store is valid and differs from
/// the store before the batch on the paths alone, and the dirty keys are
/// stored keys on the paths.
pub open spec fn in_step(before: Map<KeySpec, Seq<u8>>, paths: Set<Seq<u8>>, st: StateSpec) -> bool {
    &&& map_valid(st.0)
    &&& forall|k: KeySpec| !#[trigger] agree_at(before, st.0, k) ==> on_path(paths, k)
    &&& forall|k: KeySpec| #[trigger] st.1.contains(k) ==> on_path(paths, k) && st.0.contains_key(k)
}

/// The key of a leaf on one of the paths is on the paths.
pub proof fn lemma_leaf_on_path(paths: Set<Seq<u8>>, t: Seq<u8>)
    requires
        paths.contains(t),
        t.len() == 32,
    ensures
        on_path(paths, leaf_key(t)),
{
    lemma_masked_all(t, 256);
}

/// The split point of one of the paths and another path is on the paths.
pub proof fn lemma_lcp_on_path(paths: Set<Seq<u8>>, t: Seq<u8>, other: Seq<u8>)
    requires
        paths.contains(t),
        t.len() == 32,
        other.len() == 32,
    ensures
        on_path(paths, lcp_key(t, other)),
{
    let l0 = lemma_lcp_exists(t, other, 0);
    let l = lcp_len(t, other);
    assert(is_lcp_len(t, other, l));
    lemma_masked_twice(t, l, l);
    lemma_masked_shares(t, l);
}

/// Making a node on the paths exist keeps the state in step.
pub proof fn lemma_ensure_node_in_step(
    before: Map<KeySpec, Seq<u8>>,
    paths: Set<Seq<u8>>,
    st: StateSpec,
    k: KeySpec,
)
    requires
        in_step(before, paths, st),
        on_path(paths, k),
    ensures
        in_step(before, paths, ensure_node(st, k)),
{
    let st2 = ensure_node(st, k);
    assert forall|x: KeySpec| !#[trigger] agree_at(before, st2.0, x) implies on_path(paths, x) by {
        if x != k {
            assert(!agree_at(before, st.0, x));
        }
    }
}

/// The deletes of a batch keep the state in step.
pub proof fn lemma_deletes_in_step(
    before: Map<KeySpec, Seq<u8>>,
    paths: Set<Seq<u8>>,
    m: Map<KeySpec, Seq<u8>>,
    q: Seq<PrepSpec>,
)
    requires
        in_step(before, paths, (m, Set::<KeySpec>::empty())),
        paths_sized(q),
        forall|i: int| 0 <= i < q.len() ==> paths.contains((#[trigger] q[i]).0),
    ensures
        in_step(before, paths, (apply_deletes(m, q), Set::<KeySpec>::empty())),
    decreases q.len(),
{
    if q.len() > 0 {
        let d = q.drop_last();
        assert forall|i: int| 0 <= i < d.len() implies (#[trigger] d[i]).0.len() == 32 && paths.contains(
            d[i].0,
        ) by {
            assert(d[i] == q[i]);
        }
        lemma_deletes_in_step(before, paths, m, d);
        assert(q[q.len() - 1] == q.last());
        if !q.last().1 {
            let prev = apply_deletes(m, d);
            let next = prev.remove(leaf_key(q.last().0));
            lemma_leaf_on_path(paths, q.last().0);
            assert forall|x: KeySpec| !#[trigger] agree_at(before, next, x) implies on_path(paths, x) by {
                if x != leaf_key(q.last().0) {
                    assert(!agree_at(before, prev, x));
                }
            }
        }
    }
}

/// The inserts of a batch keep the state in step.
pub proof fn lemma_inserts_in_step(
    before: Map<KeySpec, Seq<u8>>,
    paths: Set<Seq<u8>>,
    st: StateSpec,
    q: Seq<PrepSpec>,
)
    requires
        in_step(before, paths, st),
        paths_sized(q),
        forall|i: int| 0 <= i < q.len() ==> paths.contains((#[trigger] q[i]).0),
    ensures
        in_step(before, paths, apply_inserts(st, q)),
    decreases q.len(),
{
    if q.len() > 0 {
        let d = q.drop_last();
        assert forall|i: int| 0 <= i < d.len() implies (#[trigger] d[i]).0.len() == 32 && paths.contains(
            d[i].0,
        ) by {
            assert(d[i] == q[i]);
        }
        lemma_inserts_in_step(before, paths, st, d);
        assert(q[q.len() - 1] == q.last());
        if q.last().1 {
            let prev = apply_inserts(st, d);
            let next = apply_inserts(st, q);
            lemma_leaf_on_path(paths, q.last().0);
            assert forall|x: KeySpec| !#[trigger] agree_at(before, next.0, x) implies on_path(
                paths,
                x,
            ) by {
                if x != leaf_key(q.last().0) {
                    assert(!agree_at(before, prev.0, x));
                }
            }
        }
    }
}

/// The split points of neighbours in the batch keep the state in step.
pub proof fn lemma_pairs_in_step(
    before: Map<KeySpec, Seq<u8>>,
    paths: Set<Seq<u8>>,
    st: StateSpec,
    q: Seq<PrepSpec>,
)
    requires
        in_step(before, paths, st),
        paths_sized(q),
        forall|i: int| 0 <= i < q.len() ==> paths.contains((#[trigger] q[i]).0),
    ensures
        in_step(before, paths, pair_splits(st, q)),
    decreases q.len(),
{
    if q.len() >= 2 {
        let d = q.drop_last();
        assert forall|i: int| 0 <= i < d.len() implies (#[trigger] d[i]).0.len() == 32 && paths.contains(
            d[i].0,
        ) by {
            assert(d[i] == q[i]);
        }
        lemma_pairs_in_step(before, paths, st, d);
        let a = q[q.len() - 2].0;
        let b = q.last().0;
        assert(q[q.len() - 1] == q.last());
        if a != b {
            lemma_lcp_on_path(paths, a, b);
            lemma_ensure_node_in_step(before, paths, pair_splits(st, d), lcp_key(a, b));
        }
    }
}

/// The split points of one leaf and its neighbours keep the state in step.
pub proof fn lemma_ensure_splits_in_step(
    before: Map<KeySpec, Seq<u8>>,
    paths: Set<Seq<u8>>,
    st: StateSpec,
    t: Seq<u8>,
)
    requires
        in_step(before, paths, st),
        paths.contains(t),
        t.len() == 32,
    ensures
        in_step(before, paths, ensure_splits(st, t)),
{
    let st1 = split_with(st, t, prev_leaf_of(st.0, t));
    match prev_leaf_of(st.0, t) {
        Some(k) => {
            assert(is_prev_leaf(st.0, t, k));
            assert(key_valid(k));
            lemma_lcp_on_path(paths, t, k.0);
            lemma_ensure_node_in_step(before, paths, st, lcp_key(t, k.0));
        },
        None => {},
    }
    match next_leaf_of(st1.0, t) {
        Some(k) => {
            assert(is_next_leaf(st1.0, t, k));
            assert(key_valid(k));
            lemma_lcp_on_path(paths, t, k.0);
            lemma_ensure_node_in_step(before, paths, st1, lcp_key(t, k.0));
        },
        None => {},
    }
}

/// The split points of the inserted leaves keep the state in step.
pub proof fn lemma_neighbours_in_step(
    before: Map<KeySpec, Seq<u8>>,
    paths: Set<Seq<u8>>,
    st: StateSpec,
    q: Seq<PrepSpec>,
)
    requires
        in_step(before, paths, st),
        paths_sized(q),
        forall|i: int| 0 <= i < q.len() ==> paths.contains((#[trigger] q[i]).0),
    ensures
        in_step(before, paths, neighbour_splits(st, q)),
    decreases q.len(),
{
    if q.len() > 0 {
        let d = q.drop_last();
        assert forall|i: int| 0 <= i < d.len() implies (#[trigger] d[i]).0.len() == 32 && paths.contains(
            d[i].0,
        ) by {
            assert(d[i] == q[i]);
        }
        lemma_neighbours_in_step(before, paths, st, d);
        assert(q[q.len() - 1] == q.last());
        if q.last().1 {
            lemma_ensure_splits_in_step(before, paths, neighbour_splits(st, d), q.last().0);
        }
    }
}

/// The dirty set with the ancestors holds what it held, and the stored
/// nodes on the paths of the list.
pub proof fn lemma_with_ancestors(m: Map<KeySpec, Seq<u8>>, d: Set<KeySpec>, q: Seq<PrepSpec>, k: KeySpec)
    ensures
        with_ancestors(m, d, q).contains(k) <==> (d.contains(k) || exists|i: int|
            0 <= i < q.len() && ancestors(m, (#[trigger] q[i]).0).contains(k)),
    decreases q.len(),
{
    if q.len() > 0 {
        let r = q.drop_last();
        lemma_with_ancestors(m, d, r, k);
        assert(q[q.len() - 1] == q.last());
        if exists|i: int| 0 <= i < r.len() && ancestors(m, (#[trigger] r[i]).0).contains(k) {
            let i = choose|i: int| 0 <= i < r.len() && ancestors(m, (#[trigger] r[i]).0).contains(k);
            assert(q[i] == r[i]);
        }
        if exists|i: int| 0 <= i < q.len() && ancestors(m, (#[trigger] q[i]).0).contains(k) {
            let i = choose|i: int| 0 <= i < q.len() && ancestors(m, (#[trigger] q[i]).0).contains(k);
            if i < r.len() {
                assert(r[i] == q[i]);
            }
        }
    }
}

/// Before the rehash of a batch the store is valid and differs from the
/// store before the batch on the paths alone, and the dirty set holds
/// exactly the stored keys on the paths.
pub proof fn lemma_batch_state_ready(before: Map<KeySpec, Seq<u8>>, p: Seq<PrepSpec>)
    requires
        map_valid(before),
        paths_sized(p),
    ensures
        rehash_ready(batch_state(before, p).0, batch_state(before, p).1, paths_of(p)),
        forall|k: KeySpec|
            !#[trigger] agree_at(before, batch_state(before, p).0, k) ==> on_path(paths_of(p), k),
{
    let paths = paths_of(p);
    let none = Set::<KeySpec>::empty();
    assert forall|i: int| 0 <= i < p.len() implies paths.contains((#[trigger] p[i]).0) by {}
    lemma_deletes_in_step(before, paths, before, p);
    let start: StateSpec = (apply_deletes(before, p), none);
    lemma_inserts_in_step(before, paths, start, p);
    let written = apply_inserts(start, p);
    lemma_pairs_in_step(before, paths, written, p);
    let paired = pair_splits(written, p);
    lemma_neighbours_in_step(before, paths, paired, p);
    let split = neighbour_splits(paired, p);
    let m = split.0;
    let dirty = with_ancestors(m, split.1, p);
    assert(batch_state(before, p) == (m, dirty));
    assert forall|k: KeySpec| #[trigger] dirty.contains(k) implies on_path(paths, k) && m.contains_key(
        k,
    ) by {
        lemma_with_ancestors(m, split.1, p, k);
        if !split.1.contains(k) {
            let i = choose|i: int| 0 <= i < p.len() && ancestors(m, (#[trigger] p[i]).0).contains(k);
            lemma_anc_contains(m, p[i].0, 256, 0, k);
            lemma_masked_shares(p[i].0, k.1);
        }
    }
    assert forall|k: KeySpec| #[trigger] m.contains_key(k) && on_path(paths, k) implies dirty.contains(
        k,
    ) by {
        let t = choose|t: Seq<u8>| #[trigger] paths.contains(t) && same_bits_before(t, k.0, k.1);
        let i = choose|i: int| 0 <= i < p.len() && (#[trigger] p[i]).0 == t;
        lemma_prefix_is_mask(t, k.0, k.1);
        lemma_anc_contains(m, t, 256, 0, k);
        lemma_with_ancestors(m, split.1, p, k);
    }
}

/// Before the rehash of a batch, every split point that is not dirty is
/// consistent: nothing of the batch lies under it.
pub proof fn lemma_clean_nodes_consistent(before: Map<KeySpec, Seq<u8>>, p: Seq<PrepSpec>)
    requires
        map_valid(before),
        hash_consistent(before),
        paths_sized(p),
    ensures
        forall|n: KeySpec|
            #[trigger] batch_state(before, p).0.contains_key(n) && n.1 < 256 && !batch_state(
                before,
                p,
            ).1.contains(n) ==> consistent_at(batch_state(before, p).0, n),
{
    let paths = paths_of(p);
    lemma_batch_state_ready(before, p);
    let m = batch_state(before, p).0;
    let dirty = batch_state(before, p).1;
    assert forall|n: KeySpec| #[trigger] m.contains_key(n) && n.1 < 256 && !dirty.contains(n) implies consistent_at(
        m,
        n,
    ) by {
        assert(key_valid(n));
        assert(agree_at(before, m, n));
        assert(consistent_at(before, n));
        assert forall|bit: bool| #[trigger] child_hash(m, n, bit) == child_hash(before, n, bit) by {
            assert forall|o: KeySpec| #[trigger] under_child(n, bit, o) implies agree_at(m, before, o) by {
                if !agree_at(before, m, o) {
                    lemma_under_child_is_deeper(n, bit, o);
                    lemma_prefix_on_path(paths, n, o);
                }
            }
            lemma_child_hash_local(m, before, n, bit);
        }
        assert(child_hash(m, n, false) == child_hash(before, n, false));
        assert(child_hash(m, n, true) == child_hash(before, n, true));
    }
}

/// A batch keeps the store consistent: where every split point held the
/// pair hash of its two children before, every split point holds it after.
pub proof fn lemma_batch_consistent(
    before: Map<KeySpec, Seq<u8>>,
    ops: Seq<Op>,
    after: Map<KeySpec, Seq<u8>>,
)
    requires
        map_valid(before),
        hash_consistent(before),
        is_batch_result(before, ops, after),
    ensures
        hash_consistent(after),
        map_valid(after),
{
    let (s, order): (Seq<Prepared>, Seq<KeySpec>) = choose|s: Seq<Prepared>, order: Seq<KeySpec>|
     #[trigger]
        sorted_prepared_of(s, ops) && #[trigger] is_deep_order(
            order,
            batch_state(before, prep_view(s)).1,
        ) && after == rehash_fold(batch_state(before, prep_view(s)).0, order);
    let p = prep_view(s);
    let paths = paths_of(p);
    assert(paths_sized(p)) by {
        assert forall|i: int| 0 <= i < p.len() implies (#[trigger] p[i]).0.len() == 32 by {}
    }
    lemma_batch_state_ready(before, p);
    let m = batch_state(before, p).0;
    let dirty = batch_state(before, p).1;
    lemma_clean_nodes_consistent(before, p);
    lemma_rehash_consistent(m, dirty, paths, order, order.len() as int);
    assert(order.take(order.len() as int) =~= order);
    assert forall|n: KeySpec| #[trigger] after.contains_key(n) && n.1 < 256 implies consistent_at(
        after,
        n,
    ) by {
        if dirty.contains(n) {
            assert(order.contains(n));
            let j = choose|j: int| 0 <= j < order.len() && order[j] == n;
            assert(after.contains_key(order[j]));
        }
    }
}

} // verus!
