//! Building the stem tree from a list of buckets.

use crate::bits::{
    bit_at, lcp_bits_from, lemma_lex_asymmetric, lemma_lex_between, lemma_lex_next_bit,
    lemma_path_from_bits, lex_lt, same_bits_before, stem_bit,
};
use crate::bucket::StemBucket;
use crate::node::{
    join_nodes, lemma_agree_prefix_of, lemma_prefix_step, prefix_of, wrap_with_empties_up, Node,
};
use vstd::prelude::*;
use vstd::slice::slice_subrange;

verus! {

/// From this many stems on, the two halves of a split are built in parallel.
pub const PAR_THRESHOLD: usize = 2048;

/// The buckets stand in strictly increasing lexicographic order of their stems.
pub open spec fn stems_sorted(s: Seq<StemBucket>) -> bool {
    forall|i: int, j: int| 0 <= i < j < s.len() ==> lex_lt(s[i].stem@, s[j].stem@)
}

/// No two buckets have the same stem.
pub open spec fn stems_distinct(s: Seq<StemBucket>) -> bool {
    forall|i: int, j: int| 0 <= i < s.len() && 0 <= j < s.len() && i != j ==> s[i].stem@ != s[j].stem@
}

/// Some bucket of the list has stem `k`.
pub open spec fn has_stem(s: Seq<StemBucket>, k: Seq<u8>) -> bool {
    exists|i: int| 0 <= i < s.len() && (#[trigger] s[i]).stem@ == k
}

/// The position of the bucket with stem `k`.
pub open spec fn stem_pos(s: Seq<StemBucket>, k: Seq<u8>) -> int {
    choose|i: int| 0 <= i < s.len() && (#[trigger] s[i]).stem@ == k
}

/// The leaf hash of every stem of the list.
pub open spec fn bucket_hashes(s: Seq<StemBucket>) -> Map<Seq<u8>, Seq<u8>> {
    Map::new(|k: Seq<u8>| has_stem(s, k), |k: Seq<u8>| s[stem_pos(s, k)].stem_hash@)
}

/// All stems of the list have the same first `depth` bits.
pub open spec fn share_bits(s: Seq<StemBucket>, depth: int) -> bool {
    forall|i: int| 0 <= i < s.len() ==> same_bits_before(s[0].stem@, (#[trigger] s[i]).stem@, depth)
}

/// What the sorted build asks of its input.
pub open spec fn sorted_input(s: Seq<StemBucket>, depth: int) -> bool {
    &&& 0 <= depth <= 248
    &&& stems_sorted(s)
    &&& share_bits(s, depth)
}

/// `node` is the canonical stem tree at `depth` over the buckets of `s`.
pub open spec fn is_stem_tree(node: Node, s: Seq<StemBucket>, depth: int) -> bool {
    &&& s.len() == 0 ==> node is Empty
    &&& s.len() == 1 ==> node is StemLeaf
    &&& s.len() >= 2 ==> node is Internal
    &&& s.len() > 0 ==> node.wf(prefix_of(s[0].stem@, depth as nat))
    &&& node.stems() == bucket_hashes(s)
}

/// Sorted stems are distinct.
pub proof fn lemma_sorted_distinct(s: Seq<StemBucket>)
    requires
        stems_sorted(s),
    ensures
        stems_distinct(s),
{
    assert forall|i: int, j: int| 0 <= i < s.len() && 0 <= j < s.len() && i != j implies s[i].stem@
        != s[j].stem@ by {
        if i < j {
            lemma_lex_asymmetric(s[i].stem@, s[j].stem@);
        } else {
            lemma_lex_asymmetric(s[j].stem@, s[i].stem@);
        }
    }
}

/// Among distinct stems each stem is looked up at its own position.
pub proof fn lemma_bucket_hashes_at(s: Seq<StemBucket>, i: int)
    requires
        stems_distinct(s),
        0 <= i < s.len(),
    ensures
        bucket_hashes(s).contains_key(s[i].stem@),
        bucket_hashes(s)[s[i].stem@] == s[i].stem_hash@,
{
    assert(has_stem(s, s[i].stem@));
}

/// The leaf hashes of a list of distinct stems are those of its two parts.
pub proof fn lemma_bucket_hashes_split(s: Seq<StemBucket>, k: int)
    requires
        stems_distinct(s),
        0 <= k <= s.len(),
    ensures
        bucket_hashes(s) == bucket_hashes(s.subrange(0, k)).union_prefer_right(
            bucket_hashes(s.subrange(k, s.len() as int)),
        ),
{
    let l = s.subrange(0, k);
    let r = s.subrange(k, s.len() as int);
    let u = bucket_hashes(l).union_prefer_right(bucket_hashes(r));
    assert forall|key: Seq<u8>| bucket_hashes(s).contains_key(key) <==> u.contains_key(key) by {
        if has_stem(s, key) {
            let i = stem_pos(s, key);
            if i < k {
                assert(l[i].stem@ == key);
            } else {
                assert(r[i - k].stem@ == key);
            }
        }
        if has_stem(l, key) {
            let i = stem_pos(l, key);
            assert(s[i].stem@ == key);
        }
        if has_stem(r, key) {
            let i = stem_pos(r, key);
            assert(s[i + k].stem@ == key);
        }
    }
    assert forall|key: Seq<u8>| bucket_hashes(s).contains_key(key) implies bucket_hashes(s)[key]
        == u[key] by {
        let i = stem_pos(s, key);
        if i < k {
            assert(l[i].stem@ == key);
        } else {
            assert(r[i - k].stem@ == key);
        }
        if has_stem(r, key) {
            let j = stem_pos(r, key);
            assert(s[j + k] == r[j]);
            assert(i == j + k);
        } else {
            let j = stem_pos(l, key);
            assert(s[j] == l[j]);
            assert(i == j);
        }
    }
    assert(bucket_hashes(s) =~= u);
}

/// Runs `build_stem_tree_sorted_parallel` on two lists of buckets through
/// `rayon::join`, which may run the two calls on different threads and returns
/// the two results as a pair, in the order of the calls.
#[verifier::external_body]
fn build_halves_in_parallel(left: &[StemBucket], right: &[StemBucket], depth: usize) -> (out: (
    Node,
    Node,
))
    requires
        sorted_input(left@, depth as int),
        sorted_input(right@, depth as int),
    ensures
        is_stem_tree(out.0, left@, depth as int),
        is_stem_tree(out.1, right@, depth as int),
{
    rayon::join(
        || build_stem_tree_sorted_parallel(left, depth),
        || build_stem_tree_sorted_parallel(right, depth),
    )
}

/// The stem tree at `depth` over a sorted list of buckets: the list is split
/// at the first bit where its first and last stem differ, the halves are
/// built on their own, and the chain of internal nodes above the split is
/// restored with empty siblings.
pub fn build_stem_tree_sorted_parallel(stems: &[StemBucket], depth: usize) -> (out: Node)
    requires
        sorted_input(stems@, depth as int),
    ensures
        is_stem_tree(out, stems@, depth as int),
    decreases stems@.len(),
{
    let n = stems.len();
    let ghost s = stems@;
    proof {
        lemma_sorted_distinct(s);
    }
    if n == 0 {
        assert(Node::Empty.stems() =~= bucket_hashes(s));
        return Node::Empty;
    }
    if n == 1 {
        let out = Node::StemLeaf { stem: stems[0].stem, hash: stems[0].stem_hash };
        proof {
            lemma_bucket_hashes_at(s, 0);
            assert(out.stems() =~= bucket_hashes(s)) by {
                assert forall|k: Seq<u8>| has_stem(s, k) implies k == s[0].stem@ by {
                    let i = stem_pos(s, k);
                }
            }
            lemma_agree_prefix_of(s[0].stem@, s[0].stem@, depth as nat);
        }
        return out;
    }
    let first = &stems[0].stem;
    let last = &stems[n - 1].stem;
    let d = lcp_bits_from(first, last, depth);
    proof {
        assert(lex_lt(first@, last@));
        assert(same_bits_before(first@, s[n - 1].stem@, depth as int));
        assert(same_bits_before(first@, last@, d as int));
        if d >= 248 {
            lemma_path_from_bits(first@, last@);
            lemma_lex_asymmetric(first@, last@);
        }
        lemma_lex_next_bit(first@, last@, d as int);
        assert forall|i: int| 0 <= i < s.len() implies same_bits_before(first@, (#[trigger] s[i]).stem@, d as int) by {
            if 0 < i {
                assert(lex_lt(s[0].stem@, s[i].stem@));
            }
            if i < n - 1 {
                assert(lex_lt(s[i].stem@, s[n - 1].stem@));
            }
            lemma_lex_between(first@, s[i].stem@, last@, d as int);
        }
    }
    // The first position whose stem has a 1 at bit `d`.
    let mut lo: usize = 1;
    let mut hi: usize = n - 1;
    while lo < hi
        invariant
            1 <= lo <= hi <= n - 1,
            n == s.len(),
            s == stems@,
            d < 248,
            stems_sorted(s),
            share_bits(s, d as int),
            forall|i: int| 0 <= i < lo ==> !bit_at((#[trigger] s[i]).stem@, d as int),
            forall|i: int| hi <= i < n ==> bit_at((#[trigger] s[i]).stem@, d as int),
        decreases hi - lo,
    {
        let mid = lo + (hi - lo) / 2;
        let ghost ms = s[mid as int].stem@;
        if stem_bit(&stems[mid].stem, d) == 0 {
            proof {
                assert forall|i: int| 0 <= i < mid + 1 implies !bit_at((#[trigger] s[i]).stem@, d as int) by {
                    if i < mid {
                        assert(lex_lt(s[i].stem@, ms));
                        lemma_share_pair(s, d as int, i, mid as int);
                        lemma_lex_next_bit(s[i].stem@, ms, d as int);
                    }
                }
            }
            lo = mid + 1;
        } else {
            proof {
                assert forall|i: int| mid <= i < n implies bit_at((#[trigger] s[i]).stem@, d as int) by {
                    if i > mid {
                        assert(lex_lt(ms, s[i].stem@));
                        lemma_share_pair(s, d as int, mid as int, i);
                        lemma_lex_next_bit(ms, s[i].stem@, d as int);
                    }
                }
            }
            hi = mid;
        }
    }
    let split = lo;
    let left_part = slice_subrange(stems, 0, split);
    let right_part = slice_subrange(stems, split, n);
    proof {
        let l = left_part@;
        let r = right_part@;
        assert(l == s.subrange(0, split as int));
        assert(r == s.subrange(split as int, n as int));
        assert forall|i: int| 0 <= i < l.len() implies same_bits_before(l[0].stem@, (#[trigger] l[i]).stem@, d + 1) by {
            lemma_share_pair(s, d as int, 0, i);
            assert(!bit_at(s[0].stem@, d as int));
            assert(!bit_at(s[i].stem@, d as int));
        }
        assert forall|i: int| 0 <= i < r.len() implies same_bits_before(r[0].stem@, (#[trigger] r[i]).stem@, d + 1) by {
            lemma_share_pair(s, d as int, split as int, split + i);
            assert(bit_at(s[split as int].stem@, d as int));
            assert(bit_at(s[split + i].stem@, d as int));
        }
        assert(stems_sorted(l)) by {
            assert forall|i: int, j: int| 0 <= i < j < l.len() implies lex_lt(l[i].stem@, l[j].stem@) by {
                assert(lex_lt(s[i].stem@, s[j].stem@));
            }
        }
        assert(stems_sorted(r)) by {
            assert forall|i: int, j: int| 0 <= i < j < r.len() implies lex_lt(r[i].stem@, r[j].stem@) by {
                assert(lex_lt(s[split + i].stem@, s[split + j].stem@));
            }
        }
    }
    let (left_node, right_node) = if n >= PAR_THRESHOLD {
        build_halves_in_parallel(left_part, right_part, d + 1)
    } else {
        (
            build_stem_tree_sorted_parallel(left_part, d + 1),
            build_stem_tree_sorted_parallel(right_part, d + 1),
        )
    };
    proof {
        let p = prefix_of(first@, d as nat);
        lemma_prefix_step(first@, d as nat);
        let rs = s[split as int].stem@;
        lemma_prefix_step(rs, d as nat);
        lemma_share_pair(s, d as int, 0, split as int);
        assert(prefix_of(rs, d as nat) =~= p);
        assert(left_part@[0] == s[0]);
        assert(right_part@[0] == s[split as int]);
        lemma_bucket_hashes_split(s, split as int);
    }
    let merged = join_nodes(left_node, right_node, Ghost(prefix_of(first@, d as nat)));
    wrap_with_empties_up(merged, first, depth, d)
}

/// Two stems of a list that shares its first `d` bits share them with each other.
proof fn lemma_share_pair(s: Seq<StemBucket>, d: int, i: int, j: int)
    requires
        share_bits(s, d),
        0 <= i < s.len(),
        0 <= j < s.len(),
    ensures
        same_bits_before(s[i].stem@, s[j].stem@, d),
{
    assert(same_bits_before(s[0].stem@, s[i].stem@, d));
    assert(same_bits_before(s[0].stem@, s[j].stem@, d));
}

/// What the unsorted build asks of its input.
pub open spec fn distinct_input(s: Seq<StemBucket>, depth: int) -> bool {
    &&& 0 <= depth <= 248
    &&& stems_distinct(s)
    &&& share_bits(s, depth)
}

/// Every bucket of `part` is a bucket of `whole`.
pub open spec fn drawn_from(part: Seq<StemBucket>, whole: Seq<StemBucket>) -> bool {
    forall|j: int| 0 <= j < part.len() ==> whole.contains(#[trigger] part[j])
}

/// The stem tree at `depth` over a list of buckets with distinct stems, in
/// any order: the list is split by the bit at `depth`, and each half is built
/// one level down.
pub fn build_stem_tree(stems: Vec<StemBucket>, depth: usize) -> (out: Node)
    requires
        distinct_input(stems@, depth as int),
    ensures
        is_stem_tree(out, stems@, depth as int),
    decreases 248 - depth,
{
    let ghost s = stems@;
    let n = stems.len();
    if n == 0 {
        assert(Node::Empty.stems() =~= bucket_hashes(s));
        return Node::Empty;
    }
    if n == 1 {
        let out = Node::StemLeaf { hash: stems[0].stem_hash, stem: stems[0].stem };
        proof {
            lemma_bucket_hashes_at(s, 0);
            assert(out.stems() =~= bucket_hashes(s)) by {
                assert forall|k: Seq<u8>| has_stem(s, k) implies k == s[0].stem@ by {
                    let i = stem_pos(s, k);
                }
            }
            lemma_agree_prefix_of(s[0].stem@, s[0].stem@, depth as nat);
        }
        return out;
    }
    proof {
        if depth >= 248 {
            assert(same_bits_before(s[0].stem@, s[1].stem@, 248));
            lemma_path_from_bits(s[0].stem@, s[1].stem@);
        }
    }
    let first: crate::hash::Stem = stems[0].stem;
    let mut rest = stems;
    let mut lefts: Vec<StemBucket> = Vec::new();
    let mut rights: Vec<StemBucket> = Vec::new();
    while rest.len() > 0
        invariant
            depth < 248,
            rest@.len() <= s.len(),
            rest@ == s.take(rest@.len() as int),
            stems_distinct(s),
            share_bits(s, depth as int),
            stems_distinct(lefts@),
            stems_distinct(rights@),
            drawn_from(lefts@, s),
            drawn_from(rights@, s),
            forall|j: int| 0 <= j < lefts@.len() ==> !bit_at((#[trigger] lefts@[j]).stem@, depth as int),
            forall|j: int| 0 <= j < rights@.len() ==> bit_at((#[trigger] rights@[j]).stem@, depth as int),
            forall|j: int| 0 <= j < lefts@.len() ==> !has_stem(rest@, (#[trigger] lefts@[j]).stem@),
            forall|j: int| 0 <= j < rights@.len() ==> !has_stem(rest@, (#[trigger] rights@[j]).stem@),
            forall|i: int|
                rest@.len() <= i < s.len() ==> lefts@.contains(#[trigger] s[i]) || rights@.contains(
                    s[i],
                ),
            lefts@.len() + rights@.len() + rest@.len() == s.len(),
        decreases rest@.len(),
    {
        let ghost old_rest = rest@;
        let ghost old_lefts = lefts@;
        let ghost old_rights = rights@;
        let sb = rest.pop().unwrap();
        let ghost idx = old_rest.len() - 1;
        proof {
            assert(sb == s[idx]);
            assert(rest@ =~= s.take(rest@.len() as int));
            assert forall|j: int| 0 <= j < old_lefts.len() implies old_lefts[j].stem@ != sb.stem@ by {
                if old_lefts[j].stem@ == sb.stem@ {
                    assert(old_rest[idx].stem@ == old_lefts[j].stem@);
                    assert(has_stem(old_rest, old_lefts[j].stem@));
                }
            }
            assert forall|j: int| 0 <= j < old_rights.len() implies old_rights[j].stem@ != sb.stem@ by {
                if old_rights[j].stem@ == sb.stem@ {
                    assert(old_rest[idx].stem@ == old_rights[j].stem@);
                    assert(has_stem(old_rest, old_rights[j].stem@));
                }
            }
            assert forall|k: Seq<u8>| has_stem(rest@, k) implies has_stem(old_rest, k) by {
                let i = stem_pos(rest@, k);
                assert(old_rest[i].stem@ == k);
            }
            assert(!has_stem(rest@, sb.stem@)) by {
                if has_stem(rest@, sb.stem@) {
                    let i = stem_pos(rest@, sb.stem@);
                    assert(s[i].stem@ == s[idx].stem@);
                }
            }
            assert(s.contains(sb));
        }
        if stem_bit(&sb.stem, depth) == 0 {
            lefts.push(sb);
            proof {
                assert(lefts@[old_lefts.len() as int] == sb);
                assert forall|j: int| 0 <= j < lefts@.len() implies s.contains(#[trigger] lefts@[j]) by {
                    if j < old_lefts.len() {
                        assert(lefts@[j] == old_lefts[j]);
                    }
                }
                assert forall|i: int| rest@.len() <= i < s.len() implies lefts@.contains(#[trigger] s[i])
                    || rights@.contains(s[i]) by {
                    if i > idx {
                        if old_lefts.contains(s[i]) {
                            let j = choose|j: int| 0 <= j < old_lefts.len() && old_lefts[j] == s[i];
                            assert(lefts@[j] == s[i]);
                        }
                    }
                }
            }
        } else {
            rights.push(sb);
            proof {
                assert(rights@[old_rights.len() as int] == sb);
                assert forall|j: int| 0 <= j < rights@.len() implies s.contains(#[trigger] rights@[j]) by {
                    if j < old_rights.len() {
                        assert(rights@[j] == old_rights[j]);
                    }
                }
                assert forall|i: int| rest@.len() <= i < s.len() implies lefts@.contains(#[trigger] s[i])
                    || rights@.contains(s[i]) by {
                    if i > idx {
                        if old_rights.contains(s[i]) {
                            let j = choose|j: int| 0 <= j < old_rights.len() && old_rights[j] == s[i];
                            assert(rights@[j] == s[i]);
                        }
                    }
                }
            }
        }
    }
    let ghost l = lefts@;
    let ghost r = rights@;
    proof {
        lemma_drawn_share(l, s, depth as int, false);
        lemma_drawn_share(r, s, depth as int, true);
    }
    let left_node = build_stem_tree(lefts, depth + 1);
    let right_node = build_stem_tree(rights, depth + 1);
    proof {
        let p = prefix_of(first@, depth as nat);
        if l.len() > 0 {
            lemma_prefix_step(l[0].stem@, depth as nat);
            assert(s.contains(l[0]));
            let i = choose|i: int| 0 <= i < s.len() && s[i] == l[0];
            lemma_share_pair(s, depth as int, 0, i);
            assert(prefix_of(l[0].stem@, depth as nat) =~= p);
        }
        if r.len() > 0 {
            lemma_prefix_step(r[0].stem@, depth as nat);
            assert(s.contains(r[0]));
            let i = choose|i: int| 0 <= i < s.len() && s[i] == r[0];
            lemma_share_pair(s, depth as int, 0, i);
            assert(prefix_of(r[0].stem@, depth as nat) =~= p);
        }
        // The two halves hold the stems of the whole list.
        let u = bucket_hashes(l).union_prefer_right(bucket_hashes(r));
        assert forall|k: Seq<u8>| bucket_hashes(s).contains_key(k) <==> u.contains_key(k) by {
            if has_stem(s, k) {
                let i = stem_pos(s, k);
                if l.contains(s[i]) {
                    let j = choose|j: int| 0 <= j < l.len() && l[j] == s[i];
                    assert(l[j].stem@ == k);
                } else {
                    let j = choose|j: int| 0 <= j < r.len() && r[j] == s[i];
                    assert(r[j].stem@ == k);
                }
            }
            if has_stem(l, k) {
                let j = stem_pos(l, k);
                assert(s.contains(l[j]));
                let i = choose|i: int| 0 <= i < s.len() && s[i] == l[j];
                assert(s[i].stem@ == k);
            }
            if has_stem(r, k) {
                let j = stem_pos(r, k);
                assert(s.contains(r[j]));
                let i = choose|i: int| 0 <= i < s.len() && s[i] == r[j];
                assert(s[i].stem@ == k);
            }
        }
        assert forall|k: Seq<u8>| bucket_hashes(s).contains_key(k) implies bucket_hashes(s)[k] == u[k] by {
            let i = stem_pos(s, k);
            if has_stem(r, k) {
                let j = stem_pos(r, k);
                assert(s.contains(r[j]));
                let i2 = choose|i2: int| 0 <= i2 < s.len() && s[i2] == r[j];
                assert(i2 == i);
            } else {
                let j = stem_pos(l, k);
                assert(s.contains(l[j]));
                let i2 = choose|i2: int| 0 <= i2 < s.len() && s[i2] == l[j];
                assert(i2 == i);
            }
        }
        assert(bucket_hashes(s) =~= u);
    }
    join_nodes(left_node, right_node, Ghost(prefix_of(first@, depth as nat)))
}

/// Buckets drawn from a list that shares `depth` bits, all with the same bit
/// at `depth`, share `depth + 1` bits.
proof fn lemma_drawn_share(part: Seq<StemBucket>, whole: Seq<StemBucket>, depth: int, b: bool)
    requires
        drawn_from(part, whole),
        share_bits(whole, depth),
        0 <= depth,
        forall|j: int| 0 <= j < part.len() ==> bit_at((#[trigger] part[j]).stem@, depth) == b,
    ensures
        share_bits(part, depth + 1),
{
    assert forall|j: int| 0 <= j < part.len() implies same_bits_before(
        part[0].stem@,
        (#[trigger] part[j]).stem@,
        depth + 1,
    ) by {
        assert(whole.contains(part[0]));
        assert(whole.contains(part[j]));
        let i0 = choose|i: int| 0 <= i < whole.len() && whole[i] == part[0];
        let i1 = choose|i: int| 0 <= i < whole.len() && whole[i] == part[j];
        lemma_share_pair(whole, depth, i0, i1);
        assert(bit_at(part[0].stem@, depth) == b);
        assert(bit_at(part[j].stem@, depth) == b);
    }
}

} // verus!
