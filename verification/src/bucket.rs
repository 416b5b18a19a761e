//! The stem bucket: up to 256 leaves under one stem, Merkleized sparsely.

use crate::hash::{
    h_pair, pair_hash, sha256_32, sha256_spec, stem_leaf_hash, stem_node_hash, zero32, zero_hash,
    Bytes32, Stem,
};
use vstd::prelude::*;

verus! {

/// Two to the power `n`.
pub open spec fn two_pow(n: nat) -> int
    decreases n,
{
    if n == 0 {
        1
    } else {
        2 * two_pow((n - 1) as nat)
    }
}

/// The hash that slot `i` of a bucket contributes at the bottom level: the
/// digest of the bound value, or zero where nothing is bound.
pub open spec fn leaf_hash(leaves: Map<u8, Seq<u8>>, i: int) -> Seq<u8> {
    if 0 <= i < 256 && leaves.contains_key(i as u8) {
        sha256_spec(leaves[i as u8])
    } else {
        zero32()
    }
}

/// The hash of the node `level` levels above the leaves that covers slots
/// `index * 2^level .. (index + 1) * 2^level` of the dense 256-leaf tree.
pub open spec fn subtree_hash(leaves: Map<u8, Seq<u8>>, level: nat, index: int) -> Seq<u8>
    decreases level,
{
    if level == 0 {
        leaf_hash(leaves, index)
    } else {
        pair_hash(
            subtree_hash(leaves, (level - 1) as nat, 2 * index),
            subtree_hash(leaves, (level - 1) as nat, 2 * index + 1),
        )
    }
}

/// The root of a bucket's 256-leaf tree.
pub open spec fn subtree_root(leaves: Map<u8, Seq<u8>>) -> Seq<u8> {
    subtree_hash(leaves, 8, 0)
}

/// The index, `level` levels up, of the sibling of the node above slot `sub`.
pub open spec fn sibling_index(sub: u8, level: nat) -> int {
    let q = sub as int / two_pow(level);
    if q % 2 == 0 {
        q + 1
    } else {
        q - 1
    }
}

/// The sibling hash that a proof for slot `sub` carries at `level`.
pub open spec fn sibling_hash(leaves: Map<u8, Seq<u8>>, sub: u8, level: nat) -> Seq<u8> {
    subtree_hash(leaves, level, sibling_index(sub, level))
}

/// The leaves of a bucket as stored: strictly increasing by slot.
pub open spec fn leaves_sorted(s: Seq<(u8, Bytes32)>) -> bool {
    forall|i: int, j: int| 0 <= i < j < s.len() ==> s[i].0 < s[j].0
}

/// Some stored leaf sits in slot `k`.
pub open spec fn has_leaf(s: Seq<(u8, Bytes32)>, k: u8) -> bool {
    exists|i: int| 0 <= i < s.len() && #[trigger] s[i].0 == k
}

/// The position of the stored leaf in slot `k`.
pub open spec fn leaf_pos(s: Seq<(u8, Bytes32)>, k: u8) -> int {
    choose|i: int| 0 <= i < s.len() && #[trigger] s[i].0 == k
}

/// The stored leaves as a map from slot to value.
pub open spec fn leaves_map(s: Seq<(u8, Bytes32)>) -> Map<u8, Seq<u8>> {
    Map::new(|k: u8| has_leaf(s, k), |k: u8| s[leaf_pos(s, k)].1@)
}

/// In a sorted leaf list each slot is looked up at its own position.
pub proof fn lemma_leaves_map_at(s: Seq<(u8, Bytes32)>, i: int)
    requires
        leaves_sorted(s),
        0 <= i < s.len(),
    ensures
        leaves_map(s).contains_key(s[i].0),
        leaves_map(s)[s[i].0] == s[i].1@,
{
    assert(has_leaf(s, s[i].0));
    let p = leaf_pos(s, s[i].0);
    assert(p == i) by {
        if p < i {
            assert(s[p].0 < s[i].0);
        } else if i < p {
            assert(s[i].0 < s[p].0);
        }
    }
}

/// Zero-subtree canonicality: a node under which no slot is bound hashes to
/// thirty-two zero bytes, at every level.
pub proof fn lemma_absent_subtree_is_zero(leaves: Map<u8, Seq<u8>>, level: nat, index: int)
    requires
        forall|k: u8|
            index * two_pow(level) <= (k as int) && (k as int) < (index + 1) * two_pow(level)
                ==> !leaves.contains_key(k),
    ensures
        subtree_hash(leaves, level, index) == zero32(),
    decreases level,
{
    if level == 0 {
        assert(two_pow(0) == 1);
        if 0 <= index < 256 {
            assert(!leaves.contains_key(index as u8));
        }
    } else {
        let l = (level - 1) as nat;
        assert(two_pow(level) == 2 * two_pow(l));
        assert(2 * index * two_pow(l) == index * two_pow(level)) by (nonlinear_arith)
            requires
                two_pow(level) == 2 * two_pow(l),
        ;
        assert((2 * index + 1) * two_pow(l) == index * two_pow(level) + two_pow(l))
            by (nonlinear_arith)
            requires
                two_pow(level) == 2 * two_pow(l),
        ;
        assert((2 * index + 2) * two_pow(l) == (index + 1) * two_pow(level)) by (nonlinear_arith)
            requires
                two_pow(level) == 2 * two_pow(l),
        ;
        lemma_two_pow_positive(l);
        let t = two_pow(l);
        let lo = index * two_pow(level);
        assert((2 * index) * t == lo);
        assert((2 * index + 1) * t == lo + t);
        assert((2 * index + 1 + 1) * t == lo + 2 * t) by (nonlinear_arith)
            requires
                (2 * index + 1) * t == lo + t,
        ;
        assert((index + 1) * two_pow(level) == lo + 2 * t);
        lemma_absent_subtree_is_zero(leaves, l, 2 * index);
        lemma_absent_subtree_is_zero(leaves, l, 2 * index + 1);
        crate::hash::lemma_pair_of_zeros();
    }
}

/// Powers of two are positive.
pub proof fn lemma_two_pow_positive(n: nat)
    ensures
        two_pow(n) >= 1,
    decreases n,
{
    if n > 0 {
        lemma_two_pow_positive((n - 1) as nat);
    }
}

/// Some node of a level list has index `p`.
pub open spec fn has_index(nodes: Seq<(u16, Bytes32)>, p: int) -> bool {
    exists|j: int| 0 <= j < nodes.len() && #[trigger] nodes[j].0 == p
}

/// A level list is the sparse form of one level of the dense tree: the nodes
/// that are present, in strictly increasing order of their index relative to
/// `base`, each with its hash; every index of the window that is missing
/// stands for a zero node.
pub open spec fn level_ok(
    leaves: Map<u8, Seq<u8>>,
    nodes: Seq<(u16, Bytes32)>,
    level: nat,
    base: int,
    width: int,
) -> bool {
    &&& forall|i: int, j: int| 0 <= i < j < nodes.len() ==> nodes[i].0 < nodes[j].0
    &&& forall|j: int| 0 <= j < nodes.len() ==> (#[trigger] nodes[j]).0 < width
    &&& forall|j: int|
        0 <= j < nodes.len() ==> (#[trigger] nodes[j]).1@ == subtree_hash(
            leaves,
            level,
            base + nodes[j].0,
        )
    &&& forall|p: int|
        0 <= p < width && !#[trigger] has_index(nodes, p) ==> subtree_hash(leaves, level, base + p)
            == zero32()
}

/// A parent whose two children are both missing from the level below is zero.
proof fn lemma_gap_is_zero(
    leaves: Map<u8, Seq<u8>>,
    nodes: Seq<(u16, Bytes32)>,
    level: nat,
    base: int,
    width: int,
    p: int,
)
    requires
        level_ok(leaves, nodes, level, 2 * base, 2 * width),
        0 <= p < width,
        !has_index(nodes, 2 * p),
        !has_index(nodes, 2 * p + 1),
    ensures
        subtree_hash(leaves, level + 1, base + p) == zero32(),
{
    assert(subtree_hash(leaves, level, 2 * base + 2 * p) == zero32());
    assert(subtree_hash(leaves, level, 2 * base + (2 * p + 1)) == zero32());
    assert(subtree_hash(leaves, level + 1, base + p) == pair_hash(
        subtree_hash(leaves, level, 2 * (base + p)),
        subtree_hash(leaves, level, 2 * (base + p) + 1),
    ));
    crate::hash::lemma_pair_of_zeros();
}

/// One fold of the sparse Merkleization: pairs adjacent siblings, pairs a
/// lone node with a zero sibling on the proper side, and halves every index.
fn fold_level(
    nodes: &Vec<(u16, Bytes32)>,
    Ghost(leaves): Ghost<Map<u8, Seq<u8>>>,
    Ghost(level): Ghost<nat>,
    Ghost(base): Ghost<int>,
    Ghost(width): Ghost<int>,
) -> (next: Vec<(u16, Bytes32)>)
    requires
        level_ok(leaves, nodes@, level, 2 * base, 2 * width),
        1 <= width <= 128,
    ensures
        level_ok(leaves, next@, level + 1, base, width),
        nodes@.len() > 0 ==> next@.len() > 0,
        next@.len() <= nodes@.len(),
{
    let n = nodes.len();
    let zero = zero_hash();
    let mut next: Vec<(u16, Bytes32)> = Vec::new();
    let mut i: usize = 0;
    proof {
        let bound: int = if 0 < n {
            nodes@[0].0 as int / 2
        } else {
            width
        };
        assert forall|p: int| 0 <= p < bound && !#[trigger] has_index(next@, p) implies subtree_hash(
            leaves,
            level + 1,
            base + p,
        ) == zero32() by {
            assert forall|c: int| (c == 2 * p || c == 2 * p + 1) implies !has_index(nodes@, c) by {
                if has_index(nodes@, c) {
                    let j = choose|j: int| 0 <= j < nodes@.len() && #[trigger] nodes@[j].0 == c;
                    if j > 0 {
                        assert(nodes@[0].0 < nodes@[j].0);
                    }
                }
            }
            lemma_gap_is_zero(leaves, nodes@, level, base, width, p);
        }
    }
    while i < n
        invariant
            n == nodes@.len(),
            i <= n,
            zero@ == zero32(),
            1 <= width <= 128,
            level_ok(leaves, nodes@, level, 2 * base, 2 * width),
            next@.len() <= i,
            i > 0 ==> next@.len() > 0,
            forall|a: int, b: int| 0 <= a < b < next@.len() ==> next@[a].0 < next@[b].0,
            forall|j: int| 0 <= j < next@.len() ==> (#[trigger] next@[j]).0 < width,
            forall|j: int|
                0 <= j < next@.len() ==> (#[trigger] next@[j]).1@ == subtree_hash(
                    leaves,
                    level + 1,
                    base + next@[j].0,
                ),
            i < n ==> forall|k: int| 0 <= k < i ==> (#[trigger] nodes@[k]).0 / 2 < nodes@[i as int].0 / 2,
            i < n ==> forall|j: int| 0 <= j < next@.len() ==> (#[trigger] next@[j]).0 < nodes@[i as int].0 / 2,
            forall|p: int|
                0 <= p < (if i < n {
                    nodes@[i as int].0 as int / 2
                } else {
                    width
                }) && !#[trigger] has_index(next@, p) ==> subtree_hash(leaves, level + 1, base + p)
                    == zero32(),
        decreases n - i,
    {
        let idx: u16 = nodes[i].0;
        let h: Bytes32 = nodes[i].1;
        let parent: u16 = idx >> 1;
        let sib: u16 = idx ^ 1;
        let low: u16 = idx & 1;
        assert(parent == idx / 2 && low == idx % 2 && (low == 0 ==> sib == idx + 1) && (low != 0
            ==> sib == idx - 1)) by (bit_vector)
            requires
                parent == idx >> 1,
                sib == idx ^ 1,
                low == idx & 1,
                idx < 256,
        ;
        let ghost old_next = next@;
        let ghost old_i = i as int;
        let paired = i + 1 < n && nodes[i + 1].0 == sib;
        proof {
            // The sibling is present exactly when it is the next node.
            assert(nodes@[old_i].0 == idx);
            if !paired {
                assert(!has_index(nodes@, sib as int)) by {
                    if has_index(nodes@, sib as int) {
                        let j = choose|j: int| 0 <= j < nodes@.len() && #[trigger] nodes@[j].0 == sib as int;
                        if j < old_i {
                            assert(nodes@[j].0 / 2 < nodes@[old_i].0 / 2);
                        } else if j > old_i {
                            if j > old_i + 1 {
                                assert(nodes@[old_i + 1].0 < nodes@[j].0);
                                assert(nodes@[old_i].0 < nodes@[old_i + 1].0);
                            }
                        }
                    }
                }
                assert(subtree_hash(leaves, level, 2 * base + sib as int) == zero32());
            } else {
                assert(low == 0) by {
                    assert(nodes@[old_i].0 < nodes@[old_i + 1].0);
                }
            }
            assert(subtree_hash(leaves, level + 1, base + parent as int) == pair_hash(
                subtree_hash(leaves, level, 2 * (base + parent as int)),
                subtree_hash(leaves, level, 2 * (base + parent as int) + 1),
            ));
        }
        let combined = if paired {
            let h2: Bytes32 = nodes[i + 1].1;
            h_pair(&h, &h2)
        } else if low == 0 {
            h_pair(&h, &zero)
        } else {
            h_pair(&zero, &h)
        };
        next.push((parent, combined));
        if paired {
            i += 2;
        } else {
            i += 1;
        }
        proof {
            let new_bound: int = if i < n {
                nodes@[i as int].0 as int / 2
            } else {
                width
            };
            assert(next@[next@.len() - 1] == (parent, combined));
            assert(forall|j: int| 0 <= j < old_next.len() ==> next@[j] == old_next[j]);
            assert(parent < new_bound) by {
                if i < n {
                    assert(nodes@[old_i].0 < nodes@[i as int].0);
                    if paired {
                        assert(nodes@[old_i + 1].0 < nodes@[i as int].0);
                    }
                }
            }
            assert forall|k: int| 0 <= k < i && i < n implies (#[trigger] nodes@[k]).0 / 2 < nodes@[i as int].0 / 2 by {
                if k < old_i {
                    assert(nodes@[k].0 / 2 < nodes@[old_i].0 / 2);
                } else if k > old_i {
                    assert(nodes@[k].0 == sib);
                }
            }
            assert forall|p: int| 0 <= p < new_bound && !#[trigger] has_index(next@, p) implies subtree_hash(
                leaves,
                level + 1,
                base + p,
            ) == zero32() by {
                if p < parent {
                    if has_index(old_next, p) {
                        let j = choose|j: int| 0 <= j < old_next.len() && #[trigger] old_next[j].0 == p;
                        assert(next@[j].0 == p);
                        assert(has_index(next@, p));
                    }
                } else if p == parent {
                    assert(next@[next@.len() - 1].0 == p);
                    assert(has_index(next@, p));
                } else {
                    // Neither child of `p` is present, so both are zero.
                    assert forall|c: int| (c == 2 * p || c == 2 * p + 1) implies !has_index(nodes@, c) by {
                        if has_index(nodes@, c) {
                            let j = choose|j: int| 0 <= j < nodes@.len() && #[trigger] nodes@[j].0 == c;
                            if j < i {
                                if j < old_i {
                                    assert(nodes@[j].0 / 2 < nodes@[old_i].0 / 2);
                                }
                            } else {
                                if j > i {
                                    assert(nodes@[i as int].0 < nodes@[j].0);
                                }
                            }
                        }
                    }
                    lemma_gap_is_zero(leaves, nodes@, level, base, width, p);
                }
            }
        }
    }
    next
}

/// The first nine powers of two.
pub proof fn lemma_two_pow_values()
    ensures
        two_pow(0) == 1,
        two_pow(1) == 2,
        two_pow(2) == 4,
        two_pow(3) == 8,
        two_pow(4) == 16,
        two_pow(5) == 32,
        two_pow(6) == 64,
        two_pow(7) == 128,
        two_pow(8) == 256,
{
    reveal_with_fuel(two_pow, 10);
}

/// A shift of one by fewer than nine places is the matching power of two.
proof fn lemma_shift_is_pow(lvl: u16)
    requires
        lvl <= 8,
    ensures
        (1u16 << lvl) == two_pow(lvl as nat),
{
    lemma_two_pow_values();
    assert(1u16 << 0u16 == 1 && 1u16 << 1u16 == 2 && 1u16 << 2u16 == 4 && 1u16 << 3u16 == 8 && 1u16
        << 4u16 == 16 && 1u16 << 5u16 == 32 && 1u16 << 6u16 == 64 && 1u16 << 7u16 == 128 && 1u16
        << 8u16 == 256) by (bit_vector);
}

/// The level-0 list of a sorted leaf list: every leaf with the digest of its value.
fn leaf_level(leaves: &[(u8, Bytes32)]) -> (nodes: Vec<(u16, Bytes32)>)
    requires
        leaves_sorted(leaves@),
    ensures
        level_ok(leaves_map(leaves@), nodes@, 0, 0, 256),
        nodes@.len() == leaves@.len(),
{
    let ghost m = leaves_map(leaves@);
    let mut nodes: Vec<(u16, Bytes32)> = Vec::new();
    let mut i: usize = 0;
    while i < leaves.len()
        invariant
            i <= leaves@.len(),
            nodes@.len() == i,
            forall|j: int|
                0 <= j < i ==> (#[trigger] nodes@[j]).0 == leaves@[j].0 && nodes@[j].1@ == sha256_spec(
                    leaves@[j].1@,
                ),
        decreases leaves@.len() - i,
    {
        let sub: u8 = leaves[i].0;
        let val: Bytes32 = leaves[i].1;
        let h = sha256_32(&val);
        nodes.push((sub as u16, h));
        i += 1;
    }
    proof {
        assert forall|j: int| 0 <= j < nodes@.len() implies (#[trigger] nodes@[j]).1@ == subtree_hash(
            m,
            0,
            0 + nodes@[j].0,
        ) by {
            lemma_leaves_map_at(leaves@, j);
        }
        assert forall|p: int| 0 <= p < 256 && !#[trigger] has_index(nodes@, p) implies subtree_hash(
            m,
            0,
            0 + p,
        ) == zero32() by {
            if m.contains_key(p as u8) {
                let j = leaf_pos(leaves@, p as u8);
                assert(nodes@[j].0 == p);
            }
        }
        assert forall|a: int, b: int| 0 <= a < b < nodes@.len() implies nodes@[a].0 < nodes@[b].0 by {
            assert(leaves@[a].0 < leaves@[b].0);
        }
    }
    nodes
}

/// Folds a level-0 list eight times and returns the hash that is left.
fn fold_to_root(start: Vec<(u16, Bytes32)>, Ghost(leaves): Ghost<Map<u8, Seq<u8>>>) -> (out: Bytes32)
    requires
        level_ok(leaves, start@, 0, 0, 256),
        start@.len() > 0,
    ensures
        out@ == subtree_root(leaves),
{
    let mut nodes = start;
    let mut level: usize = 0;
    proof {
        lemma_two_pow_values();
    }
    while level < 8
        invariant
            level <= 8,
            nodes@.len() > 0,
            level_ok(leaves, nodes@, level as nat, 0, two_pow((8 - level) as nat)),
        decreases 8 - level,
    {
        proof {
            lemma_two_pow_values();
            assert(two_pow((8 - level) as nat) == 2 * two_pow((8 - level - 1) as nat));
        }
        nodes = fold_level(
            &nodes,
            Ghost(leaves),
            Ghost(level as nat),
            Ghost(0),
            Ghost(two_pow((8 - level - 1) as nat)),
        );
        level += 1;
    }
    assert(nodes@[0].0 == 0);
    nodes[0].1
}

/// The root of the 256-leaf tree over the given leaves, computed from the
/// present leaves alone.
pub fn subtree_root_sparse(leaves: &Vec<(u8, Bytes32)>) -> (out: Bytes32)
    requires
        leaves_sorted(leaves@),
    ensures
        out@ == subtree_root(leaves_map(leaves@)),
{
    if leaves.len() == 0 {
        proof {
            lemma_absent_subtree_is_zero(leaves_map(leaves@), 8, 0);
        }
        return zero_hash();
    }
    let nodes = leaf_level(leaves.as_slice());
    fold_to_root(nodes, Ghost(leaves_map(leaves@)))
}

/// The root of the 256-leaf tree that holds the single leaf `(sub, value32)`:
/// eight pairings with a zero sibling, on the side that each bit of `sub`
/// gives, lowest bit first.
pub fn subtree_root_one_leaf(sub: u8, value32: &Bytes32) -> (out: Bytes32)
    ensures
        out@ == subtree_root(Map::<u8, Seq<u8>>::empty().insert(sub, value32@)),
{
    let ghost m = Map::<u8, Seq<u8>>::empty().insert(sub, value32@);
    let zero = zero_hash();
    let mut h = sha256_32(value32);
    let mut idx: u8 = sub;
    let mut level: usize = 0;
    proof {
        lemma_two_pow_values();
    }
    while level < 8
        invariant
            level <= 8,
            zero@ == zero32(),
            idx as int == sub as int / two_pow(level as nat),
            h@ == subtree_hash(m, level as nat, idx as int),
            m == Map::<u8, Seq<u8>>::empty().insert(sub, value32@),
        decreases 8 - level,
    {
        let low: u8 = idx & 1;
        let up: u8 = idx >> 1;
        assert(low == idx % 2 && up == idx / 2) by (bit_vector)
            requires
                low == idx & 1,
                up == idx >> 1,
        ;
        proof {
            let w = two_pow(level as nat);
            let q = idx as int;
            let other: int = if low == 0 {
                q + 1
            } else {
                q - 1
            };
            lemma_two_pow_positive(level as nat);
            vstd::arithmetic::div_mod::lemma_fundamental_div_mod(sub as int, w);
            vstd::arithmetic::div_mod::lemma_mod_bound(sub as int, w);
            assert forall|k: u8| other * w <= (k as int) && (k as int) < (other + 1) * w implies !m.contains_key(
                k,
            ) by {
                assert(w * q <= (sub as int) && (sub as int) < w * q + w);
                assert((q + 1) * w == w * q + w) by (nonlinear_arith);
                assert((q - 1 + 1) * w == w * q) by (nonlinear_arith);
            }
            lemma_absent_subtree_is_zero(m, level as nat, other);
            assert(subtree_hash(m, (level + 1) as nat, up as int) == pair_hash(
                subtree_hash(m, level as nat, 2 * (up as int)),
                subtree_hash(m, level as nat, 2 * (up as int) + 1),
            ));
            assert(two_pow((level + 1) as nat) == 2 * w);
            vstd::arithmetic::div_mod::lemma_div_denominator(sub as int, w, 2);
            assert(w * 2 == 2 * w);
        }
        if low == 0 {
            h = h_pair(&h, &zero);
        } else {
            h = h_pair(&zero, &h);
        }
        idx = up;
        level += 1;
    }
    assert(sub as int / 256 == 0);
    h
}

/// No slot occurs twice in the list.
pub open spec fn slots_distinct(s: Seq<(u8, Bytes32)>) -> bool {
    forall|i: int, j: int| 0 <= i < s.len() && 0 <= j < s.len() && i != j ==> s[i].0 != s[j].0
}

/// In a list without a repeated slot each slot is looked up at its own position.
pub proof fn lemma_leaves_map_distinct_at(s: Seq<(u8, Bytes32)>, i: int)
    requires
        slots_distinct(s),
        0 <= i < s.len(),
    ensures
        leaves_map(s).contains_key(s[i].0),
        leaves_map(s)[s[i].0] == s[i].1@,
{
    assert(has_leaf(s, s[i].0));
}

/// The map of the first `i + 1` leaves of a list without a repeated slot is
/// the map of the first `i` with leaf `i` put in.
pub proof fn lemma_leaves_map_take(s: Seq<(u8, Bytes32)>, i: int)
    requires
        slots_distinct(s),
        0 <= i < s.len(),
    ensures
        leaves_map(s.take(i + 1)) == leaves_map(s.take(i)).insert(s[i].0, s[i].1@),
{
    let a = s.take(i);
    let b = s.take(i + 1);
    assert(slots_distinct(a) && slots_distinct(b)) by {
        assert forall|x: int, y: int| 0 <= x < b.len() && 0 <= y < b.len() && x != y implies b[x].0
            != b[y].0 by {
            assert(s[x].0 != s[y].0);
        }
        assert forall|x: int, y: int| 0 <= x < a.len() && 0 <= y < a.len() && x != y implies a[x].0
            != a[y].0 by {
            assert(s[x].0 != s[y].0);
        }
    }
    assert forall|k: u8| has_leaf(b, k) <==> (k == s[i].0 || has_leaf(a, k)) by {
        if has_leaf(b, k) {
            let p = leaf_pos(b, k);
            if p < i {
                assert(a[p].0 == k);
            }
        }
        if has_leaf(a, k) {
            let p = leaf_pos(a, k);
            assert(b[p].0 == k);
        }
        assert(b[i].0 == s[i].0);
    }
    assert forall|k: u8| has_leaf(b, k) implies #[trigger] leaves_map(b)[k] == leaves_map(a).insert(
        s[i].0,
        s[i].1@,
    )[k] by {
        let p = leaf_pos(b, k);
        lemma_leaves_map_distinct_at(b, p);
        if p < i {
            assert(a[p] == b[p]);
            lemma_leaves_map_distinct_at(a, p);
            assert(s[p].0 != s[i].0);
        }
    }
    assert(leaves_map(b) =~= leaves_map(a).insert(s[i].0, s[i].1@));
}

/// The order of the leaves does not matter: two lists with the same leaves,
/// of which no slot occurs twice, are the same map.
pub proof fn lemma_leaves_map_any_order(a: Seq<(u8, Bytes32)>, b: Seq<(u8, Bytes32)>)
    requires
        slots_distinct(a),
        a.to_multiset() == b.to_multiset(),
    ensures
        slots_distinct(b),
        leaves_map(a) == leaves_map(b),
{
    broadcast use vstd::seq_lib::group_to_multiset_ensures;

    assert(a.no_duplicates()) by {
        assert forall|i: int, j: int| 0 <= i < a.len() && 0 <= j < a.len() && i != j implies a[i]
            != a[j] by {
            assert(a[i].0 != a[j].0);
        }
    }
    a.lemma_multiset_has_no_duplicates();
    b.lemma_multiset_has_no_duplicates_conv();
    assert forall|i: int| 0 <= i < b.len() implies a.contains(#[trigger] b[i]) by {
        assert(b.contains(b[i]));
        assert(a.to_multiset().count(b[i]) > 0);
    }
    assert forall|i: int| 0 <= i < a.len() implies b.contains(#[trigger] a[i]) by {
        assert(a.contains(a[i]));
        assert(b.to_multiset().count(a[i]) > 0);
    }
    assert forall|x: int, y: int| 0 <= x < b.len() && 0 <= y < b.len() && x != y implies b[x].0
        != b[y].0 by {
        assert(a.contains(b[x]) && a.contains(b[y]));
        let p = choose|p: int| 0 <= p < a.len() && a[p] == b[x];
        let q = choose|q: int| 0 <= q < a.len() && a[q] == b[y];
        assert(b[x] != b[y]);
    }
    assert forall|k: u8| has_leaf(a, k) <==> has_leaf(b, k) by {
        if has_leaf(a, k) {
            let p = leaf_pos(a, k);
            assert(b.contains(a[p]));
            let q = choose|q: int| 0 <= q < b.len() && b[q] == a[p];
            assert(b[q].0 == k);
        }
        if has_leaf(b, k) {
            let p = leaf_pos(b, k);
            assert(a.contains(b[p]));
            let q = choose|q: int| 0 <= q < a.len() && a[q] == b[p];
            assert(a[q].0 == k);
        }
    }
    assert forall|k: u8| has_leaf(a, k) implies #[trigger] leaves_map(a)[k] == leaves_map(b)[k] by {
        let p = leaf_pos(a, k);
        lemma_leaves_map_distinct_at(a, p);
        assert(b.contains(a[p]));
        let q = choose|q: int| 0 <= q < b.len() && b[q] == a[p];
        lemma_leaves_map_distinct_at(b, q);
    }
    assert(leaves_map(a) =~= leaves_map(b));
}

/// The leaves of a list without a repeated slot, in increasing order of slot.
pub fn leaves_in_order(leaves: &[(u8, Bytes32)]) -> (out: Vec<(u8, Bytes32)>)
    requires
        slots_distinct(leaves@),
    ensures
        leaves_sorted(out@),
        leaves_map(out@) == leaves_map(leaves@),
{
    let mut out: Vec<(u8, Bytes32)> = Vec::with_capacity(leaves.len());
    let mut i: usize = 0;
    proof {
        assert(leaves_map(out@) =~= leaves_map(leaves@.take(0)));
    }
    while i < leaves.len()
        invariant
            i <= leaves@.len(),
            slots_distinct(leaves@),
            leaves_sorted(out@),
            leaves_map(out@) == leaves_map(leaves@.take(i as int)),
        decreases leaves@.len() - i,
    {
        proof {
            lemma_leaves_map_take(leaves@, i as int);
        }
        insert_leaf(&mut out, leaves[i].0, leaves[i].1);
        i += 1;
    }
    assert(leaves@.take(leaves@.len() as int) =~= leaves@);
    out
}

/// The root of the 256-leaf tree over the given leaves, in whatever order
/// they stand, with the shortcuts for no leaf and for a single leaf. More
/// leaves are brought into the order of their slots and then folded.
pub fn subtree_root_sparse_pairs(leaves: &[(u8, Bytes32)]) -> (out: Bytes32)
    requires
        slots_distinct(leaves@),
    ensures
        out@ == subtree_root(leaves_map(leaves@)),
{
    let ghost m = leaves_map(leaves@);
    if leaves.len() == 0 {
        proof {
            lemma_absent_subtree_is_zero(m, 8, 0);
        }
        zero_hash()
    } else if leaves.len() == 1 {
        let sub: u8 = leaves[0].0;
        let val: Bytes32 = leaves[0].1;
        proof {
            lemma_leaves_map_at(leaves@, 0);
            assert(m =~= Map::<u8, Seq<u8>>::empty().insert(sub, val@)) by {
                assert forall|k: u8| m.contains_key(k) implies k == sub by {
                    let j = leaf_pos(leaves@, k);
                    assert(j == 0);
                }
            }
        }
        subtree_root_one_leaf(sub, &val)
    } else {
        let sorted = leaves_in_order(leaves);
        proof {
            assert(sorted@.len() > 0) by {
                lemma_leaves_map_distinct_at(leaves@, 0);
                if sorted@.len() == 0 {
                    assert(!has_leaf(sorted@, leaves@[0].0));
                }
            }
        }
        let nodes = leaf_level(sorted.as_slice());
        fold_to_root(nodes, Ghost(m))
    }
}

/// The sibling hash at `lvl` for slot `sub`: the root of the subtree of
/// `2^lvl` slots beside the one that holds `sub`, folded from the leaves that
/// fall in it.
pub fn sibling_at_level_sparse(leaves: &Vec<(u8, Bytes32)>, sub: u8, lvl: usize) -> (out: Bytes32)
    requires
        leaves_sorted(leaves@),
        lvl < 8,
    ensures
        out@ == sibling_hash(leaves_map(leaves@), sub, lvl as nat),
{
    let ghost m = leaves_map(leaves@);
    let sh: u16 = lvl as u16;
    let w: u16 = 1u16 << sh;
    assert(1 <= w <= 128) by (bit_vector)
        requires
            w == 1u16 << sh,
            sh < 8,
    ;
    let mask: u16 = w - 1;
    let own: u16 = (sub as u16) >> sh;
    let sib_parent: u16 = own ^ 1;
    proof {
        lemma_shift_is_pow(sh);
        lemma_two_pow_values();
        assert(1 <= w <= 128 && own == (sub as u16) / w && (own % 2 == 0 ==> sib_parent == own + 1)
            && (own % 2 != 0 ==> sib_parent == own - 1) && sib_parent < 256) by (bit_vector)
            requires
                w == 1u16 << sh,
                sh < 8,
                own == (sub as u16) >> sh,
                sib_parent == own ^ 1,
        ;
        assert(sib_parent as int == sibling_index(sub, lvl as nat));
    }
    let ghost base0: int = sib_parent as int * w as int;
    let mut nodes: Vec<(u16, Bytes32)> = Vec::new();
    let mut i: usize = 0;
    while i < leaves.len()
        invariant
            i <= leaves@.len(),
            leaves_sorted(leaves@),
            m == leaves_map(leaves@),
            sh < 8,
            w == 1u16 << sh,
            1 <= w <= 128,
            mask == w - 1,
            base0 == sib_parent as int * w as int,
            nodes@.len() <= i,
            forall|a: int, b: int| 0 <= a < b < nodes@.len() ==> nodes@[a].0 < nodes@[b].0,
            forall|j: int| 0 <= j < nodes@.len() ==> (#[trigger] nodes@[j]).0 < w,
            forall|j: int|
                0 <= j < nodes@.len() ==> (#[trigger] nodes@[j]).1@ == leaf_hash(m, base0 + nodes@[j].0),
            forall|j: int|
                0 <= j < nodes@.len() && i < leaves@.len() ==> base0 + (#[trigger] nodes@[j]).0
                    < leaves@[i as int].0,
            forall|k: int|
                0 <= k < i && (#[trigger] leaves@[k]).0 as int / (w as int) == sib_parent as int
                    ==> has_index(nodes@, leaves@[k].0 as int % (w as int)),
        decreases leaves@.len() - i,
    {
        let j16: u16 = leaves[i].0 as u16;
        let q: u16 = j16 >> sh;
        let pos: u16 = j16 & mask;
        assert(q == j16 / w && pos == j16 % w) by (bit_vector)
            requires
                w == 1u16 << sh,
                sh < 8,
                mask == w - 1,
                q == j16 >> sh,
                pos == j16 & mask,
        ;
        let ghost old_nodes = nodes@;
        if q == sib_parent {
            let val: Bytes32 = leaves[i].1;
            let h = sha256_32(&val);
            proof {
                vstd::arithmetic::div_mod::lemma_fundamental_div_mod(j16 as int, w as int);
                assert(base0 == w as int * (j16 as int / w as int)) by (nonlinear_arith)
                    requires
                        base0 == sib_parent as int * w as int,
                        sib_parent as int == j16 as int / w as int,
                ;
                assert(base0 + pos == j16);
                lemma_leaves_map_at(leaves@, i as int);
            }
            nodes.push((pos, h));
            proof {
                assert(nodes@[nodes@.len() - 1].0 == pos);
                assert(has_index(nodes@, pos as int));
            }
        }
        proof {
            assert forall|k: int|
                0 <= k < i + 1 && (#[trigger] leaves@[k]).0 as int / (w as int) == sib_parent as int implies has_index(
                nodes@,
                leaves@[k].0 as int % (w as int),
            ) by {
                if k < i {
                    let p = leaves@[k].0 as int % (w as int);
                    assert(has_index(old_nodes, p));
                    let j = choose|j: int| 0 <= j < old_nodes.len() && #[trigger] old_nodes[j].0 == p;
                    assert(nodes@[j].0 == p);
                }
            }
            assert forall|j: int| 0 <= j < nodes@.len() && i + 1 < leaves@.len() implies base0 + (
            #[trigger] nodes@[j]).0 < leaves@[i + 1].0 by {
                assert(leaves@[i as int].0 < leaves@[i + 1].0);
            }
        }
        i += 1;
    }
    if nodes.len() == 0 {
        proof {
            let sp = sib_parent as int;
            let wi = w as int;
            assert forall|k: u8| sp * wi <= (k as int) && (k as int) < (sp + 1) * wi implies !m.contains_key(
                k,
            ) by {
                if m.contains_key(k) {
                    let j = leaf_pos(leaves@, k);
                    assert((sp + 1) * wi == sp * wi + wi) by (nonlinear_arith);
                    vstd::arithmetic::div_mod::lemma_fundamental_div_mod_converse(
                        k as int,
                        wi,
                        sp,
                        k as int - sp * wi,
                    );
                    assert(leaves@[j].0 as int / wi == sp);
                    assert(has_index(nodes@, leaves@[j].0 as int % wi));
                }
            }
            lemma_absent_subtree_is_zero(m, lvl as nat, sp);
        }
        return zero_hash();
    }
    proof {
        assert forall|p: int| 0 <= p < w && !#[trigger] has_index(nodes@, p) implies subtree_hash(
            m,
            0,
            base0 + p,
        ) == zero32() by {
            let k = base0 + p;
            if 0 <= k < 256 && m.contains_key(k as u8) {
                let j = leaf_pos(leaves@, k as u8);
                vstd::arithmetic::div_mod::lemma_fundamental_div_mod_converse(
                    k,
                    w as int,
                    sib_parent as int,
                    p,
                );
                assert(leaves@[j].0 as int / (w as int) == sib_parent as int);
                assert(has_index(nodes@, leaves@[j].0 as int % (w as int)));
            }
        }
        assert(level_ok(m, nodes@, 0, base0, w as int));
    }
    let mut level: usize = 0;
    while level < lvl
        invariant
            level <= lvl,
            lvl < 8,
            nodes@.len() > 0,
            level_ok(
                m,
                nodes@,
                level as nat,
                sib_parent as int * two_pow((lvl - level) as nat),
                two_pow((lvl - level) as nat),
            ),
        decreases lvl - level,
    {
        proof {
            lemma_two_pow_values();
            let t = two_pow((lvl - level - 1) as nat);
            assert(two_pow((lvl - level) as nat) == 2 * t);
            assert(sib_parent as int * (2 * t) == 2 * (sib_parent as int * t)) by (nonlinear_arith);
            assert(1 <= t <= 128) by {
                lemma_two_pow_small((lvl - level - 1) as nat);
            }
        }
        nodes = fold_level(
            &nodes,
            Ghost(m),
            Ghost(level as nat),
            Ghost(sib_parent as int * two_pow((lvl - level - 1) as nat)),
            Ghost(two_pow((lvl - level - 1) as nat)),
        );
        level += 1;
    }
    proof {
        lemma_two_pow_values();
        assert(nodes@[0].0 == 0);
        assert(sib_parent as int * 1 == sib_parent as int);
    }
    nodes[0].1
}

/// Powers of two up to the seventh lie between 1 and 128.
proof fn lemma_two_pow_small(n: nat)
    requires
        n <= 7,
    ensures
        1 <= two_pow(n) <= 128,
{
    lemma_two_pow_values();
}

/// Puts the leaf `(sub, value)` into a list of leaves in order, over the
/// leaf of slot `sub` if the list holds one.
pub fn insert_leaf(leaves: &mut Vec<(u8, Bytes32)>, sub: u8, value: Bytes32)
    requires
        leaves_sorted(old(leaves)@),
    ensures
        leaves_sorted(final(leaves)@),
        leaves_map(final(leaves)@) == leaves_map(old(leaves)@).insert(sub, value@),
{
    let ghost before = leaves@;
    let mut i: usize = 0;
    while i < leaves.len() && leaves[i].0 < sub
        invariant
            i <= leaves@.len(),
            leaves@ == before,
            forall|j: int| 0 <= j < i ==> (#[trigger] before[j]).0 < sub,
        decreases leaves@.len() - i,
    {
        i += 1;
    }
    if i < leaves.len() && leaves[i].0 == sub {
        leaves[i] = (sub, value);
        proof {
            let after = leaves@;
            assert(after == before.update(i as int, (sub, value)));
            assert forall|a: int, b: int| 0 <= a < b < after.len() implies after[a].0 < after[b].0 by {
                assert(before[a].0 < before[b].0);
            }
            assert forall|k: u8| has_leaf(after, k) <==> (k == sub || has_leaf(before, k)) by {
                if has_leaf(after, k) {
                    let j = leaf_pos(after, k);
                    assert(before[j].0 == after[j].0);
                }
                if has_leaf(before, k) {
                    let j = leaf_pos(before, k);
                    assert(after[j].0 == k);
                }
                assert(after[i as int].0 == sub);
            }
            assert forall|k: u8| has_leaf(after, k) implies #[trigger] leaves_map(after)[k]
                == leaves_map(before).insert(sub, value@)[k] by {
                let j = leaf_pos(after, k);
                lemma_leaves_map_at(after, j);
                if k != sub {
                    assert(before[j] == after[j]);
                    lemma_leaves_map_at(before, j);
                } else {
                    assert(j == i) by {
                        if j < i {
                            assert(after[j].0 < after[i as int].0);
                        } else if j > i {
                            assert(after[i as int].0 < after[j].0);
                        }
                    }
                }
            }
            assert(leaves_map(after) =~= leaves_map(before).insert(sub, value@));
        }
    } else {
        leaves.insert(i, (sub, value));
        proof {
            let after = leaves@;
            assert(after == before.insert(i as int, (sub, value)));
            assert forall|a: int, b: int| 0 <= a < b < after.len() implies after[a].0 < after[b].0 by {
                if a < i && b > i {
                    assert(before[a].0 < before[b - 1].0);
                } else if a > i {
                    assert(before[a - 1].0 < before[b - 1].0);
                } else if a == i {
                    if b - 1 > i {
                        assert(before[i as int].0 < before[b - 1].0);
                    }
                } else if b < i {
                    assert(before[a].0 < before[b].0);
                }
            }
            assert forall|k: u8| has_leaf(after, k) <==> (k == sub || has_leaf(before, k)) by {
                if has_leaf(after, k) {
                    let j = leaf_pos(after, k);
                    if j < i {
                        assert(before[j].0 == k);
                    } else if j > i {
                        assert(before[j - 1].0 == k);
                    }
                }
                if has_leaf(before, k) {
                    let j = leaf_pos(before, k);
                    if j < i {
                        assert(after[j].0 == k);
                    } else {
                        assert(after[j + 1].0 == k);
                    }
                }
                assert(after[i as int].0 == sub);
            }
            assert forall|k: u8| has_leaf(after, k) implies #[trigger] leaves_map(after)[k]
                == leaves_map(before).insert(sub, value@)[k] by {
                let j = leaf_pos(after, k);
                lemma_leaves_map_at(after, j);
                if j < i {
                    assert(before[j] == after[j]);
                    lemma_leaves_map_at(before, j);
                } else if j > i {
                    assert(before[j - 1] == after[j]);
                    lemma_leaves_map_at(before, j - 1);
                }
            }
            assert(leaves_map(after) =~= leaves_map(before).insert(sub, value@));
        }
    }
}

/// The authenticated state of all keys that share one stem.
pub struct StemBucket {
    /// The stem that the keys share.
    pub stem: Stem,
    /// The bound slots with their values, in increasing order of slot.
    pub leaves: Vec<(u8, Bytes32)>,
    /// The root of the 256-leaf tree over the leaves.
    pub subtree_root: Bytes32,
    /// The hash of the stem's leaf in the stem tree.
    pub stem_hash: Bytes32,
}

impl StemBucket {
    /// The bindings of the bucket: slot to value.
    pub open spec fn bindings(&self) -> Map<u8, Seq<u8>> {
        leaves_map(self.leaves@)
    }

    /// The leaves are in order and the two cached hashes are those of the leaves.
    pub open spec fn wf(&self) -> bool {
        &&& leaves_sorted(self.leaves@)
        &&& self.subtree_root@ == subtree_root(self.bindings())
        &&& self.stem_hash@ == stem_leaf_hash(self.stem@, self.subtree_root@)
    }

    /// A bucket without bindings.
    pub fn new(stem: Stem) -> (out: Self)
        ensures
            out.wf(),
            out.stem == stem,
            out.leaves@.len() == 0,
    {
        let leaves: Vec<(u8, Bytes32)> = Vec::new();
        let subtree_root = subtree_root_sparse(&leaves);
        let stem_hash = stem_node_hash(&stem, &subtree_root);
        StemBucket { stem, leaves, subtree_root, stem_hash }
    }

    /// Brings the two cached hashes up to date with the leaves.
    pub fn recompute_hashes(&mut self)
        requires
            leaves_sorted(old(self).leaves@),
        ensures
            final(self).wf(),
            final(self).stem == old(self).stem,
            final(self).leaves == old(self).leaves,
    {
        self.subtree_root = subtree_root_sparse(&self.leaves);
        self.stem_hash = stem_node_hash(&self.stem, &self.subtree_root);
    }

    /// The value bound in slot `sub`, if any.
    pub fn get(&self, sub: u8) -> (out: Option<Bytes32>)
        requires
            leaves_sorted(self.leaves@),
        ensures
            out is Some <==> self.bindings().contains_key(sub),
            out is Some ==> out->0@ == self.bindings()[sub],
    {
        let mut i: usize = 0;
        while i < self.leaves.len()
            invariant
                i <= self.leaves@.len(),
                leaves_sorted(self.leaves@),
                forall|j: int| 0 <= j < i ==> (#[trigger] self.leaves@[j]).0 != sub,
            decreases self.leaves@.len() - i,
        {
            if self.leaves[i].0 == sub {
                proof {
                    lemma_leaves_map_at(self.leaves@, i as int);
                }
                return Some(self.leaves[i].1);
            }
            i += 1;
        }
        None
    }

    /// Binds `value` in slot `sub`, over what was bound there. The cached
    /// hashes are left as they were.
    pub fn set(&mut self, sub: u8, value: Bytes32)
        requires
            leaves_sorted(old(self).leaves@),
        ensures
            leaves_sorted(final(self).leaves@),
            final(self).bindings() == old(self).bindings().insert(sub, value@),
            final(self).stem == old(self).stem,
            final(self).subtree_root == old(self).subtree_root,
            final(self).stem_hash == old(self).stem_hash,
    {
        insert_leaf(&mut self.leaves, sub, value);
    }

    /// Takes away what is bound in slot `sub`, if anything. The cached
    /// hashes are left as they were.
    pub fn unset(&mut self, sub: u8)
        requires
            leaves_sorted(old(self).leaves@),
        ensures
            leaves_sorted(final(self).leaves@),
            final(self).bindings() == old(self).bindings().remove(sub),
            final(self).stem == old(self).stem,
            final(self).subtree_root == old(self).subtree_root,
            final(self).stem_hash == old(self).stem_hash,
    {
        let ghost before = self.leaves@;
        let mut i: usize = 0;
        while i < self.leaves.len() && self.leaves[i].0 < sub
            invariant
                i <= self.leaves@.len(),
                self.leaves@ == before,
                forall|j: int| 0 <= j < i ==> (#[trigger] before[j]).0 < sub,
            decreases self.leaves@.len() - i,
        {
            i += 1;
        }
        if i < self.leaves.len() && self.leaves[i].0 == sub {
            self.leaves.remove(i);
            proof {
                let after = self.leaves@;
                assert(after == before.remove(i as int));
                assert forall|a: int, b: int| 0 <= a < b < after.len() implies after[a].0 < after[b].0 by {
                    let x = if a < i {
                        a
                    } else {
                        a + 1
                    };
                    let y = if b < i {
                        b
                    } else {
                        b + 1
                    };
                    assert(before[x].0 < before[y].0);
                }
                assert forall|k: u8| has_leaf(after, k) <==> (k != sub && has_leaf(before, k)) by {
                    if has_leaf(after, k) {
                        let j = leaf_pos(after, k);
                        if j < i {
                            assert(before[j].0 == k);
                            assert(before[j].0 < before[i as int].0);
                        } else {
                            assert(before[j + 1].0 == k);
                            assert(before[i as int].0 < before[j + 1].0);
                        }
                    }
                    if k != sub && has_leaf(before, k) {
                        let j = leaf_pos(before, k);
                        if j < i {
                            assert(after[j].0 == k);
                        } else {
                            assert(after[j - 1].0 == k);
                        }
                    }
                }
                assert forall|k: u8| has_leaf(after, k) implies #[trigger] leaves_map(after)[k]
                    == leaves_map(before)[k] by {
                    let j = leaf_pos(after, k);
                    lemma_leaves_map_at(after, j);
                    if j < i {
                        assert(before[j] == after[j]);
                        lemma_leaves_map_at(before, j);
                    } else {
                        assert(before[j + 1] == after[j]);
                        lemma_leaves_map_at(before, j + 1);
                    }
                }
                assert(leaves_map(after) =~= leaves_map(before).remove(sub));
            }
        } else {
            proof {
                assert(!has_leaf(before, sub)) by {
                    if has_leaf(before, sub) {
                        let j = leaf_pos(before, sub);
                        if j >= i {
                            if j > i {
                                assert(before[i as int].0 < before[j].0);
                            }
                        }
                    }
                }
                assert(leaves_map(before) =~= leaves_map(before).remove(sub));
            }
        }
    }

    /// A copy of the bucket.
    pub fn duplicate(&self) -> (out: Self)
        ensures
            out.stem == self.stem,
            out.leaves@ == self.leaves@,
            out.subtree_root == self.subtree_root,
            out.stem_hash == self.stem_hash,
    {
        let mut leaves: Vec<(u8, Bytes32)> = Vec::with_capacity(self.leaves.len());
        let mut i: usize = 0;
        while i < self.leaves.len()
            invariant
                i <= self.leaves@.len(),
                leaves@ == self.leaves@.take(i as int),
            decreases self.leaves@.len() - i,
        {
            leaves.push(self.leaves[i]);
            assert(self.leaves@.take(i + 1) == self.leaves@.take(i as int).push(self.leaves@[i as int]));
            i += 1;
        }
        assert(self.leaves@.take(self.leaves@.len() as int) == self.leaves@);
        StemBucket {
            stem: self.stem,
            leaves,
            subtree_root: self.subtree_root,
            stem_hash: self.stem_hash,
        }
    }
}

} // verus!
