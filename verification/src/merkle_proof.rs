//! Merkle proofs for single keys: what a proof holds, how it is produced from
//! the tree, and how it is checked against a state root.

use crate::bits::{bit_at, stem_bit};
use crate::bucket::{
    leaves_map, leaves_sorted, lemma_two_pow_positive, lemma_two_pow_values,
    sibling_at_level_sparse, sibling_hash, subtree_hash, subtree_root, two_pow,
};
use crate::hash::{
    collapse_hash, h_pair, pair_hash, sha256_32, sha256_spec, stem_leaf_hash, stem_node_hash,
    zero32, Bytes32, Stem,
};
use crate::node::{
    agree, lemma_agree_prefix_of, lemma_agree_push, lemma_node_hash, lemma_prefix_step,
    lemma_stems_agree, lemma_two_stems, none_under, only_under, pick_under, prefix_of, trie_hash,
    Node,
};
use crate::tree::{bucket_of, split_key, state_root_of, stem_hashes, stem_is_bound};
use vstd::prelude::*;

verus! {

/// A list of hashes as a list of byte strings.
pub open spec fn hashes_view(s: Seq<Bytes32>) -> Seq<Seq<u8>> {
    Seq::new(s.len(), |i: int| s[i]@)
}

/// The parent hash of `cur` and its sibling; `on_right` says that `cur` is
/// the right child.
pub open spec fn combine(cur: Seq<u8>, sib: Seq<u8>, on_right: bool) -> Seq<u8> {
    if on_right {
        pair_hash(sib, cur)
    } else {
        pair_hash(cur, sib)
    }
}

/// Folds `acc`, the hash of the node with index `index` at some level of a
/// bucket, with the sibling hashes of the levels above it, lowest first.
pub open spec fn climb_bucket(acc: Seq<u8>, index: int, sibs: Seq<Seq<u8>>) -> Seq<u8>
    decreases sibs.len(),
{
    if sibs.len() == 0 {
        acc
    } else {
        climb_bucket(combine(acc, sibs[0], index % 2 == 1), index / 2, sibs.drop_first())
    }
}

/// Folds `cur`, the hash of a node of the stem tree at depth
/// `depth + path.len()` on the path of `stem`, with the sibling hashes along
/// that path; `path` lists them from depth `depth` downwards.
pub open spec fn climb_path(cur: Seq<u8>, stem: Seq<u8>, path: Seq<Seq<u8>>, depth: int) -> Seq<u8>
    decreases path.len(),
{
    if path.len() == 0 {
        cur
    } else {
        combine(climb_path(cur, stem, path.drop_first(), depth + 1), path[0], bit_at(stem, depth))
    }
}

/// The root that a proof leads to.
pub open spec fn proof_root(
    key: Seq<u8>,
    value: Seq<u8>,
    sub_siblings: Seq<Seq<u8>>,
    path_siblings: Seq<Seq<u8>>,
) -> Seq<u8> {
    let stem = key.take(31);
    let bucket_root = climb_bucket(sha256_spec(value), key[31] as int, sub_siblings);
    climb_path(stem_leaf_hash(stem, bucket_root), stem, path_siblings, 0)
}

/// A proof is accepted: its path is no longer than a stem has bits, and it
/// leads to `root`.
pub open spec fn verify_spec(
    root: Seq<u8>,
    key: Seq<u8>,
    value: Seq<u8>,
    sub_siblings: Seq<Seq<u8>>,
    path_siblings: Seq<Seq<u8>>,
) -> bool {
    path_siblings.len() <= 248 && proof_root(key, value, sub_siblings, path_siblings) == root
}

/// The eight sibling hashes inside a bucket for slot `sub`, lowest level first.
pub open spec fn bucket_siblings(leaves: Map<u8, Seq<u8>>, sub: u8) -> Seq<Seq<u8>> {
    Seq::new(8, |l: int| sibling_hash(leaves, sub, l as nat))
}

/// The sibling hashes along the path of `stem` in the stem tree over `m`,
/// from `prefix` down to the point where `stem` stands alone.
pub open spec fn trie_path(m: Map<Seq<u8>, Seq<u8>>, stem: Seq<u8>, prefix: Seq<bool>) -> Seq<Seq<u8>>
    decreases 248 - prefix.len(),
{
    if prefix.len() >= 248 || none_under(m, prefix) || only_under(m, prefix, pick_under(m, prefix)) {
        Seq::<Seq<u8>>::empty()
    } else {
        let b = bit_at(stem, prefix.len() as int);
        seq![trie_hash(m, prefix.push(!b))] + trie_path(m, stem, prefix.push(b))
    }
}

/// The sibling hashes along the path of `stem` below `node`, which stands at `depth`.
pub open spec fn node_path(node: Node, stem: Seq<u8>, depth: int) -> Seq<Seq<u8>>
    decreases node,
{
    match node {
        Node::Internal { left, right, .. } => {
            if bit_at(stem, depth) {
                seq![left.hash_spec()] + node_path(*right, stem, depth + 1)
            } else {
                seq![right.hash_spec()] + node_path(*left, stem, depth + 1)
            }
        },
        _ => Seq::<Seq<u8>>::empty(),
    }
}

/// Proof length bound: the path of a stem has at most as many siblings as
/// bits remain below `prefix`.
pub proof fn lemma_trie_path_len(m: Map<Seq<u8>, Seq<u8>>, stem: Seq<u8>, prefix: Seq<bool>)
    requires
        prefix.len() <= 248,
    ensures
        trie_path(m, stem, prefix).len() <= 248 - prefix.len(),
    decreases 248 - prefix.len(),
{
    if prefix.len() >= 248 || none_under(m, prefix) || only_under(m, prefix, pick_under(m, prefix)) {
    } else {
        let b = bit_at(stem, prefix.len() as int);
        lemma_trie_path_len(m, stem, prefix.push(b));
    }
}

/// The path that a well-formed node gives for a stem is the path of that stem
/// in the trie over the node's stems.
pub proof fn lemma_node_path(node: Node, stem: Seq<u8>, depth: nat, m: Map<Seq<u8>, Seq<u8>>)
    requires
        node.wf(prefix_of(stem, depth)),
        forall|s: Seq<u8>|
            agree(s, prefix_of(stem, depth)) ==> (#[trigger] m.contains_key(s)
                <==> node.stems().contains_key(s)),
        forall|s: Seq<u8>| #[trigger] node.stems().contains_key(s) ==> m[s] == node.stems()[s],
    ensures
        node_path(node, stem, depth as int) == trie_path(m, stem, prefix_of(stem, depth)),
    decreases node,
{
    let prefix = prefix_of(stem, depth);
    lemma_stems_agree(node, prefix);
    match node {
        Node::Internal { hash, left, right } => {
            let pr = lemma_two_stems(node, prefix);
            assert(node.stems() == left.stems().union_prefer_right(right.stems()));
            assert(m.contains_key(pr.0) && agree(pr.0, prefix));
            assert(m.contains_key(pr.1) && agree(pr.1, prefix));
            assert(!none_under(m, prefix));
            assert(!only_under(m, prefix, pick_under(m, prefix)));
            lemma_stems_agree(*left, prefix.push(false));
            lemma_stems_agree(*right, prefix.push(true));
            lemma_prefix_step(stem, depth);
            assert forall|s: Seq<u8>| agree(s, prefix.push(false)) implies (#[trigger] m.contains_key(s)
                <==> left.stems().contains_key(s)) by {
                lemma_agree_push(s, prefix, false);
                lemma_agree_push(s, prefix, true);
            }
            assert forall|s: Seq<u8>| #[trigger] left.stems().contains_key(s) implies m[s]
                == left.stems()[s] by {
                lemma_agree_push(s, prefix, false);
                lemma_agree_push(s, prefix, true);
                assert(node.stems().contains_key(s));
            }
            assert forall|s: Seq<u8>| agree(s, prefix.push(true)) implies (#[trigger] m.contains_key(s)
                <==> right.stems().contains_key(s)) by {
                lemma_agree_push(s, prefix, false);
                lemma_agree_push(s, prefix, true);
            }
            assert forall|s: Seq<u8>| #[trigger] right.stems().contains_key(s) implies m[s]
                == right.stems()[s] by {
                assert(node.stems().contains_key(s));
            }
            if bit_at(stem, depth as int) {
                lemma_node_hash(*left, prefix.push(false), m);
                lemma_node_path(*right, stem, depth + 1, m);
            } else {
                lemma_node_hash(*right, prefix.push(true), m);
                lemma_node_path(*left, stem, depth + 1, m);
            }
        },
        Node::StemLeaf { hash, stem: leaf_stem } => {
            assert(node.stems().contains_key(leaf_stem@));
            assert(m.contains_key(leaf_stem@));
            let s = pick_under(m, prefix);
            assert(m.contains_key(s) && agree(s, prefix));
            assert(node.stems().contains_key(s));
            assert(only_under(m, prefix, s)) by {
                assert forall|t: Seq<u8>| #[trigger] m.contains_key(t) && agree(t, prefix) implies t
                    == s by {
                    assert(node.stems().contains_key(t));
                }
            }
        },
        Node::Empty => {
            assert(none_under(m, prefix)) by {
                assert forall|s: Seq<u8>| #[trigger] m.contains_key(s) implies !agree(s, prefix) by {
                    if agree(s, prefix) {
                        assert(node.stems().contains_key(s));
                    }
                }
            }
        },
    }
}

/// Folding the hash of a bound stem with its path gives the trie hash.
pub proof fn lemma_path_climbs(m: Map<Seq<u8>, Seq<u8>>, stem: Seq<u8>, depth: nat)
    requires
        m.contains_key(stem),
        forall|s: Seq<u8>| #[trigger] m.contains_key(s) ==> s.len() == 31,
        depth <= 248,
    ensures
        climb_path(m[stem], stem, trie_path(m, stem, prefix_of(stem, depth)), depth as int)
            == trie_hash(m, prefix_of(stem, depth)),
    decreases 248 - depth,
{
    let prefix = prefix_of(stem, depth);
    lemma_agree_prefix_of(stem, stem, depth);
    assert(!none_under(m, prefix));
    let s = pick_under(m, prefix);
    if only_under(m, prefix, s) {
        assert(s == stem);
    } else if depth >= 248 {
        // Two stems that agree on every bit are the same stem.
        assert(m.contains_key(s) && agree(s, prefix));
        let t = choose|t: Seq<u8>| #[trigger] m.contains_key(t) && agree(t, prefix) && t != s;
        lemma_agree_prefix_of(s, stem, depth);
        lemma_agree_prefix_of(t, stem, depth);
        crate::bits::lemma_path_from_bits(s, stem);
        crate::bits::lemma_path_from_bits(t, stem);
    } else {
        let b = bit_at(stem, depth as int);
        lemma_prefix_step(stem, depth);
        lemma_path_climbs(m, stem, depth + 1);
        let path = trie_path(m, stem, prefix);
        let sib = trie_hash(m, prefix.push(!b));
        assert(path == seq![sib] + trie_path(m, stem, prefix.push(b)));
        assert(path.drop_first() =~= trie_path(m, stem, prefix.push(b)));
        assert(path[0] == sib);
    }
}

/// The sibling hashes of the levels from `level` up, for slot `sub`.
pub open spec fn siblings_from(leaves: Map<u8, Seq<u8>>, sub: u8, level: nat) -> Seq<Seq<u8>> {
    Seq::new((8 - level) as nat, |t: int| sibling_hash(leaves, sub, (level + t) as nat))
}

/// Folding the hash of the node above slot `sub` at `level` with the sibling
/// hashes of the levels above gives the root of the bucket.
pub proof fn lemma_bucket_climbs(leaves: Map<u8, Seq<u8>>, sub: u8, level: nat)
    requires
        level <= 8,
    ensures
        climb_bucket(
            subtree_hash(leaves, level, sub as int / two_pow(level)),
            sub as int / two_pow(level),
            siblings_from(leaves, sub, level),
        ) == subtree_root(leaves),
    decreases 8 - level,
{
    let q = sub as int / two_pow(level);
    let sibs = siblings_from(leaves, sub, level);
    lemma_two_pow_values();
    lemma_two_pow_positive(level);
    if level == 8 {
        assert(sub as int / 256 == 0);
    } else {
        lemma_bucket_climbs(leaves, sub, level + 1);
        assert(sibs.drop_first() =~= siblings_from(leaves, sub, level + 1));
        assert(sibs[0] == sibling_hash(leaves, sub, level));
        assert(two_pow(level + 1) == 2 * two_pow(level));
        vstd::arithmetic::div_mod::lemma_div_denominator(sub as int, two_pow(level), 2);
        assert(two_pow(level) * 2 == 2 * two_pow(level));
        assert(q / 2 == sub as int / two_pow(level + 1));
        assert(q >= 0) by {
            vstd::arithmetic::div_mod::lemma_div_pos_is_pos(sub as int, two_pow(level));
        }
        assert(subtree_hash(leaves, level + 1, q / 2) == pair_hash(
            subtree_hash(leaves, level, 2 * (q / 2)),
            subtree_hash(leaves, level, 2 * (q / 2) + 1),
        ));
    }
}

/// Moving the deepest sibling of a path into the starting hash leaves the
/// result of the fold unchanged.
pub proof fn lemma_climb_path_last(
    cur: Seq<u8>,
    stem: Seq<u8>,
    path: Seq<Seq<u8>>,
    depth: int,
)
    requires
        path.len() > 0,
    ensures
        climb_path(cur, stem, path, depth) == climb_path(
            combine(cur, path.last(), bit_at(stem, depth + path.len() - 1)),
            stem,
            path.drop_last(),
            depth,
        ),
    decreases path.len(),
{
    let next = combine(cur, path.last(), bit_at(stem, depth + path.len() - 1));
    let df = path.drop_first();
    let dl = path.drop_last();
    if path.len() == 1 {
        assert(df.len() == 0);
        assert(dl.len() == 0);
        assert(climb_path(cur, stem, df, depth + 1) == cur);
        assert(climb_path(next, stem, dl, depth) == next);
    } else {
        lemma_climb_path_last(cur, stem, df, depth + 1);
        assert(df.drop_last() =~= dl.drop_first());
        assert(dl[0] == path[0]);
        assert(df.last() == path.last());
        assert(climb_path(next, stem, dl, depth) == combine(
            climb_path(next, stem, dl.drop_first(), depth + 1),
            dl[0],
            bit_at(stem, depth),
        ));
    }
}

/// Whether two hashes are the same 32 bytes.
pub fn hashes_equal(a: &Bytes32, b: &Bytes32) -> (out: bool)
    ensures
        out == (a@ == b@),
{
    let mut i: usize = 0;
    while i < 32
        invariant
            i <= 32,
            forall|j: int| 0 <= j < i ==> a@[j] == b@[j],
        decreases 32 - i,
    {
        if a[i] != b[i] {
            return false;
        }
        i += 1;
    }
    assert(a@ =~= b@);
    true
}

/// Checks a proof for `key` and `value` against `root`: hashes the value,
/// folds it with the eight siblings inside the bucket, forms the stem leaf
/// hash, folds that with the path siblings from the deepest up, and compares.
pub fn verify_proof(
    root: &Bytes32,
    key: &Bytes32,
    value: &Bytes32,
    sibs256: &[Bytes32; 8],
    path: &[Bytes32],
) -> (out: bool)
    ensures
        out == verify_spec(root@, key@, value@, hashes_view(sibs256@), hashes_view(path@)),
{
    let (stem, sub) = split_key(key);
    let ghost sibs = hashes_view(sibs256@);
    let ghost pathv = hashes_view(path@);
    let mut acc = sha256_32(value);
    let mut idx: u8 = sub;
    let mut lvl: usize = 0;
    assert(sibs.skip(0) =~= sibs);
    while lvl < 8
        invariant
            lvl <= 8,
            sibs == hashes_view(sibs256@),
            climb_bucket(sha256_spec(value@), sub as int, sibs) == climb_bucket(
                acc@,
                idx as int,
                sibs.skip(lvl as int),
            ),
        decreases 8 - lvl,
    {
        let sib = &sibs256[lvl];
        let low: u8 = idx & 1;
        let up: u8 = idx >> 1;
        assert(low == idx % 2 && up == idx / 2) by (bit_vector)
            requires
                low == idx & 1,
                up == idx >> 1,
        ;
        proof {
            let rest = sibs.skip(lvl as int);
            assert(rest[0] == sib@);
            assert(rest.drop_first() =~= sibs.skip(lvl + 1));
        }
        acc = if low == 0 {
            h_pair(&acc, sib)
        } else {
            h_pair(sib, &acc)
        };
        idx = up;
        lvl += 1;
    }
    let cur0 = stem_node_hash(&stem, &acc);
    let plen = path.len();
    if plen > 248 {
        return false;
    }
    let mut cur = cur0;
    let mut i: usize = plen;
    assert(pathv.take(plen as int) =~= pathv);
    while i > 0
        invariant
            i <= plen <= 248,
            plen == path@.len(),
            pathv == hashes_view(path@),
            climb_path(cur0@, stem@, pathv, 0) == climb_path(cur@, stem@, pathv.take(i as int), 0),
        decreases i,
    {
        i -= 1;
        let sib = &path[i];
        let b = stem_bit(&stem, i);
        proof {
            let p = pathv.take(i + 1);
            lemma_climb_path_last(cur@, stem@, p, 0);
            assert(p.last() == sib@);
            assert(p.drop_last() =~= pathv.take(i as int));
        }
        cur = if b == 0 {
            h_pair(&cur, sib)
        } else {
            h_pair(sib, &cur)
        };
    }
    hashes_equal(&cur, root)
}

/// The proof pieces for slot `subindex` of the bucket with stem `stem`: the
/// eight sibling hashes inside the bucket, lowest level first, and the
/// sibling hashes along the path of `stem` from the root of the stem tree down.
pub fn prove_paths_sparse(
    root: &Node,
    stem: &Stem,
    subindex: u8,
    leaves_for_stem: &Vec<(u8, Bytes32)>,
) -> (out: ([Bytes32; 8], Vec<Bytes32>))
    requires
        leaves_sorted(leaves_for_stem@),
        root.wf(Seq::<bool>::empty()),
        root.stems().contains_key(stem@),
    ensures
        hashes_view(out.0@) == bucket_siblings(leaves_map(leaves_for_stem@), subindex),
        hashes_view(out.1@) == node_path(*root, stem@, 0),
        out.1@.len() <= 248,
{
    let mut stem_sibs: [Bytes32; 8] = [[0u8; 32]; 8];
    let mut lvl: usize = 0;
    while lvl < 8
        invariant
            lvl <= 8,
            leaves_sorted(leaves_for_stem@),
            forall|l: int|
                0 <= l < lvl ==> (#[trigger] stem_sibs@[l])@ == sibling_hash(
                    leaves_map(leaves_for_stem@),
                    subindex,
                    l as nat,
                ),
        decreases 8 - lvl,
    {
        stem_sibs[lvl] = sibling_at_level_sparse(leaves_for_stem, subindex, lvl);
        lvl += 1;
    }
    assert(hashes_view(stem_sibs@) =~= bucket_siblings(leaves_map(leaves_for_stem@), subindex));

    let mut path_sibs: Vec<Bytes32> = Vec::new();
    let mut cur: &Node = root;
    let mut depth: usize = 0;
    proof {
        assert(prefix_of(stem@, 0) =~= Seq::<bool>::empty());
        assert(hashes_view(path_sibs@) =~= Seq::<Seq<u8>>::empty());
    }
    loop
        invariant
            depth <= 248,
            path_sibs@.len() == depth,
            cur.wf(prefix_of(stem@, depth as nat)),
            cur.stems().contains_key(stem@),
            node_path(*root, stem@, 0) == hashes_view(path_sibs@) + node_path(*cur, stem@, depth as int),
        ensures
            hashes_view(path_sibs@) == node_path(*root, stem@, 0),
            path_sibs@.len() <= 248,
        decreases 248 - depth,
    {
        match cur {
            Node::Internal { left, right, .. } => {
                let b = stem_bit(stem, depth);
                let ghost before = hashes_view(path_sibs@);
                let ghost prefix = prefix_of(stem@, depth as nat);
                proof {
                    lemma_prefix_step(stem@, depth as nat);
                    lemma_stems_agree(**left, prefix.push(false));
                    lemma_stems_agree(**right, prefix.push(true));
                    lemma_agree_push(stem@, prefix, false);
                    lemma_agree_push(stem@, prefix, true);
                    assert(cur.stems() == left.stems().union_prefer_right(right.stems()));
                }
                if b == 0 {
                    path_sibs.push(right.hash());
                    proof {
                        assert(hashes_view(path_sibs@) =~= before.push(right.hash_spec()));
                        assert(node_path(*cur, stem@, depth as int) == seq![right.hash_spec()]
                            + node_path(**left, stem@, depth + 1));
                        assert(before + (seq![right.hash_spec()] + node_path(**left, stem@, depth + 1))
                            =~= before.push(right.hash_spec()) + node_path(**left, stem@, depth + 1));
                    }
                    cur = left;
                } else {
                    path_sibs.push(left.hash());
                    proof {
                        assert(hashes_view(path_sibs@) =~= before.push(left.hash_spec()));
                        assert(node_path(*cur, stem@, depth as int) == seq![left.hash_spec()]
                            + node_path(**right, stem@, depth + 1));
                        assert(before + (seq![left.hash_spec()] + node_path(**right, stem@, depth + 1))
                            =~= before.push(left.hash_spec()) + node_path(**right, stem@, depth + 1));
                    }
                    cur = right;
                }
                depth += 1;
            },
            Node::StemLeaf { .. } => {
                assert(hashes_view(path_sibs@) + Seq::<Seq<u8>>::empty() =~= hashes_view(path_sibs@));
                break;
            },
            Node::Empty => {
                break;
            },
        }
    }
    (stem_sibs, path_sibs)
}

/// Proof soundness: for every bound key, the value bound to it, the sibling
/// hashes inside its bucket and the sibling hashes along the path of its stem
/// are accepted against the state root.
pub proof fn lemma_proof_sound(m: Map<Seq<u8>, Seq<u8>>, key: Seq<u8>)
    requires
        key.len() == 32,
        m.contains_key(key),
    ensures
        verify_spec(
            state_root_of(m),
            key,
            m[key],
            bucket_siblings(bucket_of(m, key.take(31)), key[31]),
            trie_path(stem_hashes(m), key.take(31), Seq::<bool>::empty()),
        ),
{
    let stem = key.take(31);
    let sub = key[31];
    let leaves = bucket_of(m, stem);
    let hashes = stem_hashes(m);
    assert(stem.push(sub) =~= key);
    assert(leaves.contains_key(sub) && leaves[sub] == m[key]);
    lemma_two_pow_values();
    lemma_bucket_climbs(leaves, sub, 0);
    assert(siblings_from(leaves, sub, 0) =~= bucket_siblings(leaves, sub));
    assert(subtree_hash(leaves, 0, sub as int) == sha256_spec(m[key]));
    assert(stem_is_bound(m, stem));
    assert(hashes.contains_key(stem));
    assert(prefix_of(stem, 0) =~= Seq::<bool>::empty());
    lemma_path_climbs(hashes, stem, 0);
    lemma_trie_path_len(hashes, stem, Seq::<bool>::empty());
}

/// Zero-subtree canonicality in the stem tree: a prefix under which no stem
/// is bound has the zero hash.
pub proof fn lemma_empty_trie_is_zero(m: Map<Seq<u8>, Seq<u8>>, prefix: Seq<bool>)
    requires
        none_under(m, prefix),
    ensures
        trie_hash(m, prefix) == zero32(),
{
}

/// Two different byte strings with the same digest, or with the same hash
/// under the zero-collapse rule.
pub open spec fn collides(a: Seq<u8>, b: Seq<u8>) -> bool {
    a != b && (sha256_spec(a) == sha256_spec(b) || collapse_hash(a) == collapse_hash(b))
}

/// No two byte strings collide.
pub open spec fn collision_free() -> bool {
    forall|a: Seq<u8>, b: Seq<u8>| !#[trigger] collides(a, b)
}

proof fn lemma_combine_differs(c1: Seq<u8>, c2: Seq<u8>, sib: Seq<u8>, on_right: bool)
    requires
        collision_free(),
        c1 != c2,
    ensures
        combine(c1, sib, on_right) != combine(c2, sib, on_right),
{
    let (a, b) = if on_right {
        (sib + c1, sib + c2)
    } else {
        (c1 + sib, c2 + sib)
    };
    assert(a != b) by {
        if a == b {
            assert(a.len() == b.len());
            assert forall|i: int| 0 <= i < c1.len() implies c1[i] == c2[i] by {
                if on_right {
                    assert(a[sib.len() + i] == b[sib.len() + i]);
                } else {
                    assert(a[i] == b[i]);
                }
            }
            assert(c1 =~= c2);
        }
    }
    assert(!collides(a, b));
}

proof fn lemma_climb_bucket_differs(a1: Seq<u8>, a2: Seq<u8>, index: int, sibs: Seq<Seq<u8>>)
    requires
        collision_free(),
        a1 != a2,
    ensures
        climb_bucket(a1, index, sibs) != climb_bucket(a2, index, sibs),
    decreases sibs.len(),
{
    if sibs.len() > 0 {
        lemma_combine_differs(a1, a2, sibs[0], index % 2 == 1);
        lemma_climb_bucket_differs(
            combine(a1, sibs[0], index % 2 == 1),
            combine(a2, sibs[0], index % 2 == 1),
            index / 2,
            sibs.drop_first(),
        );
    }
}

proof fn lemma_climb_path_differs(
    c1: Seq<u8>,
    c2: Seq<u8>,
    stem: Seq<u8>,
    path: Seq<Seq<u8>>,
    depth: int,
)
    requires
        collision_free(),
        c1 != c2,
    ensures
        climb_path(c1, stem, path, depth) != climb_path(c2, stem, path, depth),
    decreases path.len(),
{
    if path.len() > 0 {
        lemma_climb_path_differs(c1, c2, stem, path.drop_first(), depth + 1);
        lemma_combine_differs(
            climb_path(c1, stem, path.drop_first(), depth + 1),
            climb_path(c2, stem, path.drop_first(), depth + 1),
            path[0],
            bit_at(stem, depth),
        );
    }
}

/// Uniqueness of the proved value: where one proof is accepted for the same
/// key and root with two different values, two byte strings collide under
/// the hash. So unless SHA-256 is broken, putting another value into a valid
/// proof makes it fail.
pub proof fn lemma_value_unique(
    root: Seq<u8>,
    key: Seq<u8>,
    value: Seq<u8>,
    other: Seq<u8>,
    sub_siblings: Seq<Seq<u8>>,
    path_siblings: Seq<Seq<u8>>,
)
    requires
        verify_spec(root, key, value, sub_siblings, path_siblings),
        verify_spec(root, key, other, sub_siblings, path_siblings),
        value != other,
    ensures
        !collision_free(),
{
    if collision_free() {
        let stem = key.take(31);
        assert(!collides(value, other));
        lemma_climb_bucket_differs(
            sha256_spec(value),
            sha256_spec(other),
            key[31] as int,
            sub_siblings,
        );
        let r1 = climb_bucket(sha256_spec(value), key[31] as int, sub_siblings);
        let r2 = climb_bucket(sha256_spec(other), key[31] as int, sub_siblings);
        let a = stem + seq![0u8] + r1;
        let b = stem + seq![0u8] + r2;
        assert(a != b) by {
            if a == b {
                assert(a.len() == b.len());
                assert forall|i: int| 0 <= i < r1.len() implies r1[i] == r2[i] by {
                    assert(a[stem.len() + 1 + i] == b[stem.len() + 1 + i]);
                }
                assert(r1 =~= r2);
            }
        }
        assert(!collides(a, b));
        lemma_climb_path_differs(
            stem_leaf_hash(stem, r1),
            stem_leaf_hash(stem, r2),
            stem,
            path_siblings,
            0,
        );
    }
}

} // verus!
