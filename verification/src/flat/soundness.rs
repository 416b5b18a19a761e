//! Soundness of the proofs of the flat engine: in a store that is hash
//! consistent, holds the split point of every two leaves, and has a leaf
//! under every split point, the proof for a stored leaf leads to the root.

use crate::bits::{bit_at, lemma_path_from_bits, same_bits_before};
use crate::flat::ancestors::{anc_range, ancestors, cand, lemma_cand_lt, lemma_same_prefix_mask};
use crate::flat::consistency::{
    consistent_at, hash_consistent, lemma_between_is_under, lemma_child_key_bits,
    lemma_under_child_is_deeper, map_valid,
};
use crate::flat::flat_proof::{climb_steps, proof_steps, step_at, steps_of, StepSpec};
use crate::flat::hubt::{
    child_hash, child_key, is_root_of, lcp_key, lcp_len, lemma_lcp_unique, lemma_least_ge_unique,
};
use crate::flat::key::{key_le, key_lt, lemma_key_asymmetric, lemma_key_total, KeySpec};
use crate::flat::leaves::lemma_lcp_exists;
use crate::flat::path::{
    is_lcp_len, lemma_masked_all, lemma_masked_bits, lemma_masked_le, lemma_masked_shares,
    lemma_masked_twice, lemma_prefix_is_mask, masked,
};
use crate::flat::store::{key_valid, leaf_key};
use crate::hash::pair_hash;
use vstd::prelude::*;

verus! {

/// The store holds the split point of every two of its leaves.
pub open spec fn pairs_split(m: Map<KeySpec, Seq<u8>>) -> bool {
    forall|x: Seq<u8>, y: Seq<u8>|
        #[trigger] m.contains_key(leaf_key(x)) && #[trigger] m.contains_key(leaf_key(y)) && x != y
            ==> m.contains_key(lcp_key(x, y))
}

/// Some leaf of the store has the bits of `n`.
pub open spec fn has_leaf_under(m: Map<KeySpec, Seq<u8>>, n: KeySpec) -> bool {
    exists|y: Seq<u8>| #[trigger] m.contains_key(leaf_key(y)) && same_bits_before(y, n.0, n.1)
}

/// Every split point of the store has a leaf under it.
pub open spec fn rooted(m: Map<KeySpec, Seq<u8>>) -> bool {
    forall|n: KeySpec| #[trigger] m.contains_key(n) && n.1 < 256 ==> has_leaf_under(m, n)
}

/// The store is one whose proofs are sound: valid, hash consistent, with the
/// split point of every two leaves and a leaf under every split point.
pub open spec fn sound_store(m: Map<KeySpec, Seq<u8>>) -> bool {
    &&& map_valid(m)
    &&& hash_consistent(m)
    &&& pairs_split(m)
    &&& rooted(m)
}

/// A stored node that is no prefix of the path of a stored leaf shares with
/// the path the bits of a stored split point on the path, and parts from
/// the path there.
pub proof fn lemma_off_path_node(m: Map<KeySpec, Seq<u8>>, t: Seq<u8>, o: KeySpec) -> (j: int)
    requires
        sound_store(m),
        t.len() == 32,
        m.contains_key(leaf_key(t)),
        m.contains_key(o),
        !same_bits_before(t, o.0, o.1),
    ensures
        0 <= j < o.1,
        m.contains_key(cand(t, j)),
        same_bits_before(t, o.0, j),
        bit_at(t, j) != bit_at(o.0, j),
{
    assert(key_valid(o));
    // A leaf with the bits of `o`.
    let y: Seq<u8> = if o.1 < 256 {
        choose|y: Seq<u8>| #[trigger] m.contains_key(leaf_key(y)) && same_bits_before(y, o.0, o.1)
    } else {
        o.0
    };
    if o.1 < 256 {
        assert(has_leaf_under(m, o));
    } else {
        assert(leaf_key(o.0) == o);
    }
    assert(key_valid(leaf_key(y)));
    assert(y != t);
    let l0 = lemma_lcp_exists(t, y, 0);
    let l = lcp_len(t, y);
    assert(is_lcp_len(t, y, l));
    assert(m.contains_key(lcp_key(t, y)));
    // The path parts from `o` where it parts from the leaf.
    let j = lemma_lcp_exists(t, o.0, 0);
    assert(j < o.1) by {
        if j >= o.1 {
            assert(same_bits_before(t, o.0, o.1));
        }
    }
    assert(is_lcp_len(t, y, j)) by {
        assert forall|b: int| 0 <= b < j implies bit_at(t, b) == bit_at(y, b) by {
            assert(bit_at(t, b) == bit_at(o.0, b));
            assert(bit_at(y, b) == bit_at(o.0, b));
        }
        assert(bit_at(y, j) == bit_at(o.0, j));
    }
    lemma_lcp_unique(t, y, j);
    j
}

/// A node that shares `len` bits with a path is at or behind the key of the
/// path with `len` bits, unless it has fewer bits and the same bytes.
pub proof fn lemma_shares_is_behind(t: Seq<u8>, o: KeySpec, len: int)
    requires
        t.len() == 32,
        o.0.len() == 32,
        0 <= len <= 256,
        same_bits_before(t, o.0, len),
        o.1 >= len,
    ensures
        key_le(cand(t, len), o),
{
    lemma_same_prefix_mask(t, o.0, len, len);
    lemma_masked_le(o.0, len);
}

/// No stored node stands between the key of the path with one more bit than
/// a stored split point on it and the next deeper stored node on the path.
proof fn lemma_next_is_least(m: Map<KeySpec, Seq<u8>>, t: Seq<u8>, ln: int, ld: int, o: KeySpec)
    requires
        sound_store(m),
        t.len() == 32,
        m.contains_key(leaf_key(t)),
        0 <= ln < ld <= 256,
        m.contains_key(cand(t, ln)),
        m.contains_key(cand(t, ld)),
        forall|l: int| ln < l < ld ==> !m.contains_key(#[trigger] cand(t, l)),
        m.contains_key(o),
        key_le(cand(t, ln + 1), o),
    ensures
        key_le(cand(t, ld), o),
{
    let n = cand(t, ln);
    let d = cand(t, ld);
    let b = bit_at(t, ln);
    let ck = cand(t, ln + 1);
    assert(key_valid(n) && key_valid(d) && key_valid(o));
    lemma_key_on_path_child(t, ln);
    lemma_key_total(o, d);
    if key_lt(o, d) {
        lemma_masked_shares(t, ld);
        lemma_masked_shares(t, ln + 1);
        assert(same_bits_before(d.0, ck.0, ln + 1)) by {
            assert forall|j: int| 0 <= j < ln + 1 implies bit_at(d.0, j) == bit_at(ck.0, j) by {
                assert(bit_at(t, j) == bit_at(d.0, j));
                assert(bit_at(t, j) == bit_at(ck.0, j));
            }
        }
        lemma_between_is_under(n, b, o, d);
        lemma_under_child_is_deeper(n, b, o);
        assert(same_bits_before(t, o.0, ln + 1)) by {
            assert forall|j: int| 0 <= j < ln + 1 implies bit_at(t, j) == bit_at(o.0, j) by {
                assert(bit_at(o.0, j) == bit_at(ck.0, j));
                assert(bit_at(t, j) == bit_at(ck.0, j));
            }
        }
        if same_bits_before(t, o.0, o.1) {
            lemma_prefix_is_mask(t, o.0, o.1);
            assert(o == cand(t, o.1));
            if o.1 >= ld {
                if o.1 > ld {
                    lemma_cand_lt(t, ld, o.1);
                }
                lemma_key_asymmetric(o, d);
            }
        } else {
            let j = lemma_off_path_node(m, t, o);
            assert(j >= ln + 1) by {
                if j < ln + 1 {
                    assert(bit_at(t, j) == bit_at(o.0, j));
                }
            }
            assert(j >= ld);
            assert(same_bits_before(t, o.0, ld));
            lemma_shares_is_behind(t, o, ld);
            lemma_key_asymmetric(o, d);
        }
    }
}

/// The key of the child of a split point on a path, on the side of the path,
/// is the key of the path with one more bit.
pub proof fn lemma_key_on_path_child(t: Seq<u8>, ln: int)
    requires
        t.len() == 32,
        0 <= ln < 256,
    ensures
        child_key(cand(t, ln), bit_at(t, ln)) == cand(t, ln + 1),
        key_valid(cand(t, ln)),
        key_valid(cand(t, ln + 1)),
{
    let n = cand(t, ln);
    lemma_masked_twice(t, ln, ln);
    lemma_masked_twice(t, ln + 1, ln + 1);
    let ck = child_key(n, bit_at(t, ln));
    assert forall|j: int| 0 <= j < 256 implies bit_at(ck.0, j) == bit_at(masked(t, ln + 1), j) by {
        lemma_child_key_bits(n, bit_at(t, ln), j);
        lemma_masked_bits(t, ln + 1, j);
        lemma_masked_bits(t, ln, j);
    }
    lemma_child_key_bits(n, bit_at(t, ln), 0);
    lemma_path_from_bits(ck.0, masked(t, ln + 1));
}

/// The child of a split point on the path of a stored leaf, on the side of
/// the path, is the next deeper stored node on the path.
pub proof fn lemma_child_is_next(m: Map<KeySpec, Seq<u8>>, t: Seq<u8>, ln: int, ld: int)
    requires
        sound_store(m),
        t.len() == 32,
        m.contains_key(leaf_key(t)),
        0 <= ln < ld <= 256,
        m.contains_key(cand(t, ln)),
        m.contains_key(cand(t, ld)),
        forall|l: int| ln < l < ld ==> !m.contains_key(#[trigger] cand(t, l)),
    ensures
        child_hash(m, cand(t, ln), bit_at(t, ln)) == m[cand(t, ld)],
{
    let n = cand(t, ln);
    let d = cand(t, ld);
    let b = bit_at(t, ln);
    let ck = child_key(n, b);
    lemma_key_on_path_child(t, ln);
    if ln + 1 < ld {
        lemma_cand_lt(t, ln + 1, ld);
    }
    assert(key_le(ck, d));
    lemma_masked_shares(t, ld);
    lemma_masked_shares(t, ln + 1);
    assert(same_bits_before(d.0, ck.0, ln + 1)) by {
        assert forall|j: int| 0 <= j < ln + 1 implies bit_at(d.0, j) == bit_at(ck.0, j) by {
            assert(bit_at(t, j) == bit_at(d.0, j));
            assert(bit_at(t, j) == bit_at(ck.0, j));
        }
    }
    assert forall|o: KeySpec| #[trigger] m.contains_key(o) && key_le(ck, o) implies key_le(d, o) by {
        lemma_next_is_least(m, t, ln, ld, o);
    }
    lemma_least_ge_unique(m, ck, d);
}

/// The first node of the store is the shallowest stored node on the path of
/// any stored leaf.
pub proof fn lemma_top_is_first(m: Map<KeySpec, Seq<u8>>, t: Seq<u8>, ld: int, f: KeySpec)
    requires
        sound_store(m),
        t.len() == 32,
        m.contains_key(leaf_key(t)),
        0 <= ld <= 256,
        m.contains_key(cand(t, ld)),
        forall|l: int| 0 <= l < ld ==> !m.contains_key(#[trigger] cand(t, l)),
        m.contains_key(f),
        forall|o: KeySpec| #[trigger] m.contains_key(o) ==> key_le(f, o),
    ensures
        f == cand(t, ld),
{
    let d = cand(t, ld);
    assert(key_valid(f));
    assert(key_le(f, d));
    if same_bits_before(t, f.0, f.1) {
        lemma_prefix_is_mask(t, f.0, f.1);
        assert(f == cand(t, f.1));
        if f.1 > ld {
            lemma_cand_lt(t, ld, f.1);
            lemma_key_asymmetric(d, f);
        }
    } else {
        let j = lemma_off_path_node(m, t, f);
        lemma_shares_is_behind(t, f, j);
        assert(key_le(f, cand(t, j)));
        assert(cand(t, j) != f) by {
            assert(cand(t, j).1 == j);
        }
        lemma_key_asymmetric(cand(t, j), f);
    }
}

/// The steps of a list of keys that starts with `k` are the step of `k`, if
/// it has fewer bits than the limit, and then the steps of the rest.
pub proof fn lemma_steps_front(
    m: Map<KeySpec, Seq<u8>>,
    t: Seq<u8>,
    k: KeySpec,
    rest: Seq<KeySpec>,
    limit: int,
)
    ensures
        steps_of(m, t, seq![k] + rest, limit) == if k.1 < limit {
            seq![step_at(m, t, k)] + steps_of(m, t, rest, limit)
        } else {
            steps_of(m, t, rest, limit)
        },
    decreases rest.len(),
{
    let all = seq![k] + rest;
    if rest.len() == 0 {
        assert(all.drop_last() =~= Seq::<KeySpec>::empty());
        assert(all.last() == k);
        assert(steps_of(m, t, all.drop_last(), limit) =~= Seq::<StepSpec>::empty());
        assert(steps_of(m, t, rest, limit) =~= Seq::<StepSpec>::empty());
        if k.1 < limit {
            assert(Seq::<StepSpec>::empty().push(step_at(m, t, k)) =~= seq![step_at(m, t, k)]
                + Seq::<StepSpec>::empty());
        }
    } else {
        lemma_steps_front(m, t, k, rest.drop_last(), limit);
        assert(all.drop_last() =~= seq![k] + rest.drop_last());
        assert(all.last() == rest.last());
        let inner = steps_of(m, t, rest.drop_last(), limit);
        if rest.last().1 < limit {
            let s = step_at(m, t, rest.last());
            if k.1 < limit {
                assert((seq![step_at(m, t, k)] + inner).push(s) =~= seq![step_at(m, t, k)] + inner.push(
                    s,
                ));
            }
        }
    }
}

/// Folding the hash of a stored node on the path of a stored leaf with the
/// steps at the stored nodes above it leads to the root.
pub proof fn lemma_climb_to_root(
    m: Map<KeySpec, Seq<u8>>,
    t: Seq<u8>,
    root: Seq<u8>,
    ld: int,
    hi: int,
)
    requires
        sound_store(m),
        t.len() == 32,
        m.contains_key(leaf_key(t)),
        is_root_of(m, root),
        -1 <= hi < ld <= 256,
        m.contains_key(cand(t, ld)),
        forall|l: int| hi < l < ld ==> !m.contains_key(#[trigger] cand(t, l)),
    ensures
        climb_steps(m[cand(t, ld)], steps_of(m, t, anc_range(m, t, hi, 0), 256)) == root,
    decreases hi + 1,
{
    let d = cand(t, ld);
    if hi < 0 {
        assert(anc_range(m, t, hi, 0) =~= Seq::<KeySpec>::empty());
        assert(steps_of(m, t, Seq::<KeySpec>::empty(), 256) =~= Seq::<StepSpec>::empty());
        assert(m != Map::<KeySpec, Seq<u8>>::empty()) by {
            assert(m.contains_key(d));
        }
        let f = choose|f: KeySpec|
            #[trigger] m.contains_key(f) && m[f] == root && forall|o: KeySpec|
                #[trigger] m.contains_key(o) ==> key_le(f, o);
        lemma_top_is_first(m, t, ld, f);
    } else if m.contains_key(cand(t, hi)) {
        let n = cand(t, hi);
        let rest = anc_range(m, t, hi - 1, 0);
        assert(anc_range(m, t, hi, 0) == seq![n] + rest);
        lemma_steps_front(m, t, n, rest, 256);
        let step = step_at(m, t, n);
        let steps = seq![step] + steps_of(m, t, rest, 256);
        assert(steps[0] == step);
        assert(steps.drop_first() =~= steps_of(m, t, rest, 256));
        lemma_child_is_next(m, t, hi, ld);
        assert(consistent_at(m, n));
        let next = if step.1 == 1 {
            pair_hash(m[d], step.0)
        } else {
            pair_hash(step.0, m[d])
        };
        assert(next == m[n]);
        lemma_climb_to_root(m, t, root, hi, hi - 1);
    } else {
        assert(anc_range(m, t, hi, 0) == anc_range(m, t, hi - 1, 0));
        lemma_climb_to_root(m, t, root, ld, hi - 1);
    }
}

/// A range of lengths gives at most one key for every length.
pub proof fn lemma_anc_len(m: Map<KeySpec, Seq<u8>>, t: Seq<u8>, hi: int, lo: int)
    requires
        lo <= hi + 1,
    ensures
        anc_range(m, t, hi, lo).len() <= hi - lo + 1,
    decreases hi - lo + 1,
{
    if hi >= lo {
        lemma_anc_len(m, t, hi - 1, lo);
    }
}

/// Proof soundness of the flat engine: in a sound store the steps for a
/// stored leaf, folded with the hash of the leaf, give the state root.
pub proof fn lemma_flat_proof_sound(m: Map<KeySpec, Seq<u8>>, t: Seq<u8>, root: Seq<u8>)
    requires
        sound_store(m),
        t.len() == 32,
        m.contains_key(leaf_key(t)),
        is_root_of(m, root),
    ensures
        climb_steps(m[leaf_key(t)], proof_steps(m, t)) == root,
        proof_steps(m, t).len() <= 256,
{
    lemma_anc_len(m, t, 255, 0);
    crate::flat::flat_proof::lemma_steps_len(m, t, anc_range(m, t, 255, 0), 256);
    lemma_masked_all(t, 256);
    assert(cand(t, 256) == leaf_key(t));
    let rest = anc_range(m, t, 255, 0);
    assert(ancestors(m, t) == seq![leaf_key(t)] + rest);
    lemma_steps_front(m, t, leaf_key(t), rest, 256);
    lemma_climb_to_root(m, t, root, 256, 255);
}

} // verus!
