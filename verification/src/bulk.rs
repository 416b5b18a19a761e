//! The bulk builder: from an unsorted list of entries to buckets in order.

use crate::bits::{lemma_lex_asymmetric, lemma_lex_transitive, lex_lt};
use crate::bucket::{
    has_leaf, leaf_pos, leaves_sorted, lemma_leaves_map_at, subtree_root_sparse_pairs, StemBucket,
};
use crate::hash::{stem_node_hash, Bytes32, Stem};
use crate::sorting::{keyed_le, lemma_key_order_parts, par_sort_keyed, Keyed};
use crate::stem_tree::{has_stem, lemma_sorted_distinct, stem_pos, stems_sorted};
use crate::tree::{
    apply_entries, bindings_of, has_key, is_last_write, lemma_apply_entries_domain, lemma_key_parts,
    lemma_last_write_exists, lemma_last_write_wins, split_key,
};
use rayon::iter::ParallelIterator;
use rayon::slice::ParallelSlice;
use vstd::prelude::*;

verus! {

/// One entry, taken apart: stem, slot, position in the input, value.
pub type Flat = (Stem, u8, usize, Bytes32);

/// `f` is entry number `f.2` of `e`, taken apart.
pub open spec fn is_flat_of(f: Flat, e: Seq<(Bytes32, Bytes32)>) -> bool {
    &&& f.2 < e.len()
    &&& f.0@ == e[f.2 as int].0@.take(31)
    &&& f.1 == e[f.2 as int].0@[31]
    &&& f.3 == e[f.2 as int].1
}

/// The order of flat entries by stem, then slot, then position in the input.
pub open spec fn flat_le(x: Flat, y: Flat) -> bool {
    lex_lt(x.0@, y.0@) || (x.0@ == y.0@ && (x.1 < y.1 || (x.1 == y.1 && x.2 <= y.2)))
}

/// The list is in order.
pub open spec fn flats_sorted(s: Seq<Flat>) -> bool {
    forall|i: int, j: int| 0 <= i < j < s.len() ==> flat_le(s[i], s[j])
}

/// Some flat entry of the list has position `i` of the input.
pub open spec fn has_seq(s: Seq<Flat>, i: int) -> bool {
    exists|p: int| 0 <= p < s.len() && (#[trigger] s[p]).2 == i
}

/// `s` holds the entries of `e`, each once, taken apart and in order.
pub open spec fn sorted_flats_of(s: Seq<Flat>, e: Seq<(Bytes32, Bytes32)>) -> bool {
    &&& s.len() == e.len()
    &&& flats_sorted(s)
    &&& forall|p: int| 0 <= p < s.len() ==> is_flat_of(#[trigger] s[p], e)
    &&& forall|i: int| 0 <= i < e.len() ==> #[trigger] has_seq(s, i)
    &&& forall|p: int, q: int| 0 <= p < s.len() && 0 <= q < s.len() && p != q ==> s[p].2 != s[q].2
}

/// `k` is entry number `k.1` of `e`, with its key whole.
pub open spec fn is_keyed_of(k: Keyed, e: Seq<(Bytes32, Bytes32)>) -> bool {
    &&& k.1 < e.len()
    &&& k.0 == e[k.1 as int].0
    &&& k.3 == e[k.1 as int].1
}

/// The entries taken apart, each with its position, in the order by stem,
/// slot and position.
pub fn sorted_flats(entries: &[(Bytes32, Bytes32)]) -> (out: Vec<Flat>)
    ensures
        sorted_flats_of(out@, entries@),
{
    let ghost e = entries@;
    let n = entries.len();
    let mut keyed: Vec<Keyed> = Vec::with_capacity(n);
    let mut i: usize = 0;
    while i < n
        invariant
            i <= n,
            n == e.len(),
            e == entries@,
            keyed@.len() == i,
            forall|p: int| 0 <= p < i ==> (#[trigger] keyed@[p]).1 == p && is_keyed_of(keyed@[p], e),
        decreases n - i,
    {
        keyed.push((entries[i].0, i, true, entries[i].1));
        i += 1;
    }
    let ghost k0 = keyed@;
    par_sort_keyed(&mut keyed);
    let ghost s = keyed@;
    proof {
        broadcast use vstd::seq_lib::group_to_multiset_ensures;

        assert(s.len() == k0.len()) by {
            assert(s.to_multiset().len() == k0.to_multiset().len());
        }
        assert forall|p: int| 0 <= p < s.len() implies is_keyed_of(#[trigger] s[p], e) by {
            assert(s.contains(s[p]));
            assert(k0.to_multiset().count(s[p]) > 0);
            assert(k0.contains(s[p]));
            let a = choose|a: int| 0 <= a < k0.len() && k0[a] == s[p];
            assert(is_keyed_of(k0[a], e));
        }
    }
    // Take the keys apart.
    let mut flats: Vec<Flat> = Vec::with_capacity(n);
    let mut p: usize = 0;
    while p < n
        invariant
            p <= n,
            n == s.len(),
            s == keyed@,
            flats@.len() == p,
            forall|q: int|
                0 <= q < p ==> (#[trigger] flats@[q]).0@ == s[q].0@.take(31) && flats@[q].1 == s[q].0@[31]
                    && flats@[q].2 == s[q].1 && flats@[q].3 == s[q].3,
        decreases n - p,
    {
        let (stem, sub) = split_key(&keyed[p].0);
        flats.push((stem, sub, keyed[p].1, keyed[p].3));
        p += 1;
    }
    proof {
        broadcast use vstd::seq_lib::group_to_multiset_ensures;

        let f = flats@;
        assert forall|a: int, b: int| 0 <= a < b < f.len() implies flat_le(f[a], f[b]) by {
            assert(keyed_le(s[a], s[b]));
            if lex_lt(s[a].0@, s[b].0@) {
                lemma_key_order_parts(s[a].0@, s[b].0@);
            }
        }
        assert forall|q: int| 0 <= q < f.len() implies is_flat_of(#[trigger] f[q], e) by {
            assert(is_keyed_of(s[q], e));
        }
        assert forall|i: int| 0 <= i < e.len() implies #[trigger] has_seq(f, i) by {
            assert(k0.contains(k0[i]));
            assert(s.to_multiset().count(k0[i]) > 0);
            assert(s.contains(k0[i]));
            let q = choose|q: int| 0 <= q < s.len() && s[q] == k0[i];
            assert(f[q].2 == i);
        }
        assert(k0.no_duplicates()) by {
            assert forall|a: int, b: int| 0 <= a < k0.len() && 0 <= b < k0.len() && a != b implies k0[a]
                != k0[b] by {
                assert(k0[a].1 != k0[b].1);
            }
        }
        k0.lemma_multiset_has_no_duplicates();
        s.lemma_multiset_has_no_duplicates_conv();
        assert forall|a: int, b: int| 0 <= a < f.len() && 0 <= b < f.len() && a != b implies f[a].2
            != f[b].2 by {
            if s[a].1 == s[b].1 {
                assert(is_keyed_of(s[a], e) && is_keyed_of(s[b], e));
                assert(k0[s[a].1 as int] == k0[s[b].1 as int]);
                assert(is_keyed_of(k0[s[a].1 as int], e));
                assert(s[a].0 == s[b].0 && s[a].3 == s[b].3);
                assert(s.contains(s[a]));
                assert(k0.to_multiset().count(s[a]) > 0);
                assert(k0.contains(s[a]));
                let x = choose|x: int| 0 <= x < k0.len() && k0[x] == s[a];
                assert(s.contains(s[b]));
                assert(k0.to_multiset().count(s[b]) > 0);
                assert(k0.contains(s[b]));
                let y = choose|y: int| 0 <= y < k0.len() && k0[y] == s[b];
                assert(x == y);
                assert(s[a] == s[b]);
            }
        }
    }
    flats
}

/// In the part `start..end` of the list, position `p` is the last with its slot.
pub open spec fn last_of_run(s: Seq<Flat>, p: int, end: int) -> bool {
    p + 1 == end || s[p + 1].1 != s[p].1
}

/// Some position of the part `start..end` has slot `sub`.
pub open spec fn group_has_slot(s: Seq<Flat>, start: int, end: int, sub: u8) -> bool {
    exists|p: int| start <= p < end && (#[trigger] s[p]).1 == sub
}

/// The part `start..end` of the list is not empty and shares one stem.
pub open spec fn is_group(s: Seq<Flat>, start: int, end: int) -> bool {
    &&& 0 <= start < end <= s.len()
    &&& forall|p: int| start <= p < end ==> (#[trigger] s[p]).0@ == s[start].0@
}

/// `b` is the bucket of the group `start..end`: it has the group's stem, its
/// hashes are up to date, and it binds each slot of the group to the value
/// that stands last for that slot.
pub open spec fn is_group_bucket(b: StemBucket, s: Seq<Flat>, start: int, end: int) -> bool {
    &&& b.stem == s[start].0
    &&& b.wf()
    &&& b.leaves@.len() > 0
    &&& forall|p: int|
        start <= p < end && last_of_run(s, p, end) ==> b.bindings().contains_key((#[trigger] s[p]).1)
            && b.bindings()[s[p].1] == s[p].3@
    &&& forall|sub: u8| #[trigger] b.bindings().contains_key(sub) ==> group_has_slot(s, start, end, sub)
}

/// Within a group, slots do not decrease.
pub proof fn lemma_group_slots(s: Seq<Flat>, start: int, end: int, p: int, q: int)
    requires
        flats_sorted(s),
        is_group(s, start, end),
        start <= p < q < end,
    ensures
        s[p].1 <= s[q].1,
        s[p].1 == s[q].1 ==> s[p].2 <= s[q].2,
{
    assert(flat_le(s[p], s[q]));
    assert(s[p].0@ == s[start].0@);
    assert(s[q].0@ == s[start].0@);
    if lex_lt(s[p].0@, s[q].0@) {
        lemma_lex_asymmetric(s[p].0@, s[q].0@);
    }
}

/// The bucket of one group of the sorted list: for each slot the value that
/// stands last, which is the one written last in the input.
pub fn bucket_from_group(flats: &Vec<Flat>, start: usize, end: usize) -> (out: StemBucket)
    requires
        flats_sorted(flats@),
        is_group(flats@, start as int, end as int),
    ensures
        is_group_bucket(out, flats@, start as int, end as int),
{
    let ghost s = flats@;
    let stem: Stem = flats[start].0;
    let mut dedup: Vec<(u8, Bytes32)> = Vec::new();
    let mut p: usize = start;
    while p < end
        invariant
            start <= p <= end,
            s == flats@,
            flats_sorted(s),
            is_group(s, start as int, end as int),
            leaves_sorted(dedup@),
            p > start ==> dedup@.len() > 0 || !last_of_run(s, p - 1, end as int),
            p < end ==> forall|j: int| 0 <= j < dedup@.len() ==> (#[trigger] dedup@[j]).0 < s[p as int].1,
            forall|j: int|
                0 <= j < dedup@.len() ==> group_has_slot(s, start as int, p as int, (#[trigger] dedup@[j]).0),
            forall|q: int|
                start <= q < p && last_of_run(s, q, end as int) ==> has_leaf(dedup@, (#[trigger] s[q]).1)
                    && dedup@[leaf_pos(dedup@, s[q].1)].1 == s[q].3,
        decreases end - p,
    {
        let ghost d0 = dedup@;
        let sub: u8 = flats[p].1;
        let is_last = p + 1 == end || flats[p + 1].1 != sub;
        if is_last {
            dedup.push((sub, flats[p].3));
        }
        proof {
            let d1 = dedup@;
            if p + 1 < end {
                lemma_group_slots(s, start as int, end as int, p as int, p + 1);
            }
            assert forall|j: int| 0 <= j < d1.len() implies group_has_slot(
                s,
                start as int,
                p + 1,
                (#[trigger] d1[j]).0,
            ) by {
                if j < d0.len() {
                    assert(d1[j] == d0[j]);
                    let q = choose|q: int| start <= q < p && (#[trigger] s[q]).1 == d0[j].0;
                    assert(s[q].1 == d1[j].0);
                } else {
                    assert(s[p as int].1 == d1[j].0);
                }
            }
            assert forall|q: int| start <= q < p + 1 && last_of_run(s, q, end as int) implies has_leaf(
                d1,
                (#[trigger] s[q]).1,
            ) && d1[leaf_pos(d1, s[q].1)].1 == s[q].3 by {
                if q < p {
                    let j = leaf_pos(d0, s[q].1);
                    assert(d1[j] == d0[j]);
                    assert(has_leaf(d1, s[q].1));
                    let j1 = leaf_pos(d1, s[q].1);
                    assert(j1 == j) by {
                        if j1 < j {
                            assert(d1[j1].0 < d1[j].0);
                        } else if j < j1 {
                            assert(d1[j].0 < d1[j1].0);
                        }
                    }
                } else {
                    let j = d1.len() - 1;
                    assert(d1[j] == (sub, s[p as int].3));
                    assert(has_leaf(d1, sub));
                    let j1 = leaf_pos(d1, sub);
                    assert(j1 == j) by {
                        if j1 < j {
                            assert(d1[j1].0 < d1[j].0);
                        }
                    }
                }
            }
        }
        p += 1;
    }
    let subtree_root = subtree_root_sparse_pairs(dedup.as_slice());
    let stem_hash = stem_node_hash(&stem, &subtree_root);
    let out = StemBucket { stem, leaves: dedup, subtree_root, stem_hash };
    proof {
        let d = out.leaves@;
        assert(last_of_run(s, end - 1, end as int));
        assert forall|q: int| start <= q < end && last_of_run(s, q, end as int) implies out.bindings().contains_key(
            (#[trigger] s[q]).1,
        ) && out.bindings()[s[q].1] == s[q].3@ by {
            let j = leaf_pos(d, s[q].1);
            lemma_leaves_map_at(d, j);
        }
        assert forall|sub: u8| #[trigger] out.bindings().contains_key(sub) implies group_has_slot(
            s,
            start as int,
            end as int,
            sub,
        ) by {
            let j = leaf_pos(d, sub);
            assert(group_has_slot(s, start as int, end as int, d[j].0));
        }
    }
    out
}

/// The ends of the groups of a sorted list: 0, every position where the stem
/// changes, and the length of the list.
pub open spec fn bounds_ok(s: Seq<Flat>, bounds: Seq<usize>) -> bool {
    &&& bounds.len() >= 2
    &&& bounds[0] == 0
    &&& bounds[bounds.len() - 1] == s.len()
    &&& forall|g: int|
        0 <= g < bounds.len() - 1 ==> is_group(s, (#[trigger] bounds[g]) as int, bounds[g + 1] as int)
    &&& forall|g: int|
        1 <= g < bounds.len() - 1 ==> s[(#[trigger] bounds[g]) as int].0@ != s[bounds[g] - 1].0@
}

/// The ends of the groups of equal stems in a sorted list that is not empty.
pub fn group_bounds(flats: &Vec<Flat>) -> (out: Vec<usize>)
    requires
        flats@.len() > 0,
    ensures
        bounds_ok(flats@, out@),
{
    let ghost s = flats@;
    let n = flats.len();
    let mut bounds: Vec<usize> = Vec::new();
    bounds.push(0);
    let mut i: usize = 1;
    while i < n
        invariant
            1 <= i <= n,
            n == s.len(),
            s == flats@,
            bounds@.len() >= 1,
            bounds@[0] == 0,
            bounds@[bounds@.len() - 1] < i,
            forall|p: int|
                bounds@[bounds@.len() - 1] <= p < i ==> (#[trigger] s[p]).0@ == s[bounds@.last() as int].0@,
            forall|g: int|
                0 <= g < bounds@.len() - 1 ==> is_group(
                    s,
                    (#[trigger] bounds@[g]) as int,
                    bounds@[g + 1] as int,
                ),
            forall|g: int|
                1 <= g < bounds@.len() ==> s[(#[trigger] bounds@[g]) as int].0@ != s[bounds@[g] - 1].0@,
        decreases n - i,
    {
        let ghost b0 = bounds@;
        if !crate::node::stems_equal(&flats[i].0, &flats[i - 1].0) {
            bounds.push(i);
            proof {
                let b1 = bounds@;
                assert forall|g: int| 0 <= g < b1.len() - 1 implies is_group(
                    s,
                    (#[trigger] b1[g]) as int,
                    b1[g + 1] as int,
                ) by {
                    if g < b0.len() - 1 {
                        assert(b1[g] == b0[g] && b1[g + 1] == b0[g + 1]);
                    } else {
                        assert(b1[g] == b0[g]);
                    }
                }
                assert forall|g: int| 1 <= g < b1.len() implies s[(#[trigger] b1[g]) as int].0@ != s[b1[g]
                    - 1].0@ by {
                    if g < b0.len() {
                        assert(b1[g] == b0[g]);
                    }
                }
            }
        }
        i += 1;
    }
    let ghost b0 = bounds@;
    bounds.push(n);
    proof {
        let b1 = bounds@;
        assert forall|g: int| 0 <= g < b1.len() - 1 implies is_group(
            s,
            (#[trigger] b1[g]) as int,
            b1[g + 1] as int,
        ) by {
            if g < b0.len() - 1 {
                assert(b1[g] == b0[g] && b1[g + 1] == b0[g + 1]);
            } else {
                assert(b1[g] == b0[g]);
            }
        }
        assert forall|g: int| 1 <= g < b1.len() - 1 implies s[(#[trigger] b1[g]) as int].0@ != s[b1[g]
            - 1].0@ by {
            assert(b1[g] == b0[g]);
        }
    }
    bounds
}

/// The buckets stand for the groups, one for one.
pub open spec fn are_group_buckets(buckets: Seq<StemBucket>, s: Seq<Flat>, bounds: Seq<usize>) -> bool {
    &&& buckets.len() == bounds.len() - 1
    &&& forall|g: int|
        0 <= g < buckets.len() ==> is_group_bucket(
            #[trigger] buckets[g],
            s,
            bounds[g] as int,
            bounds[g + 1] as int,
        )
}

/// Runs `bucket_from_group` on every pair of neighbouring bounds through
/// rayon's `par_windows`, `map` and `collect`, which may work on the groups on
/// different threads and hand back the results in the order of the groups.
#[verifier::external_body]
fn build_buckets_in_parallel(flats: &Vec<Flat>, bounds: &Vec<usize>) -> (out: Vec<StemBucket>)
    requires
        flats_sorted(flats@),
        bounds_ok(flats@, bounds@),
    ensures
        are_group_buckets(out@, flats@, bounds@),
{
    bounds.par_windows(2).map(|w| bucket_from_group(flats, w[0], w[1])).collect()
}

/// The buckets of a sorted list of flat entries, one for each stem, in the
/// order of the stems.
pub fn buckets_of_flats(flats: &Vec<Flat>) -> (out: Vec<StemBucket>)
    requires
        flats@.len() > 0,
        flats_sorted(flats@),
    ensures
        exists|bounds: Seq<usize>| bounds_ok(flats@, bounds) && are_group_buckets(out@, flats@, bounds),
{
    let bounds = group_bounds(flats);
    build_buckets_in_parallel(flats, &bounds)
}

/// The bounds of the groups increase.
pub proof fn lemma_bounds_increase(s: Seq<Flat>, bounds: Seq<usize>, g: int, h: int)
    requires
        bounds_ok(s, bounds),
        0 <= g < h < bounds.len(),
    ensures
        bounds[g] < bounds[h],
    decreases h - g,
{
    assert(is_group(s, bounds[h - 1] as int, bounds[h - 1 + 1] as int));
    if g < h - 1 {
        lemma_bounds_increase(s, bounds, g, h - 1);
    }
}

/// Every position of the list lies in one group.
pub proof fn lemma_group_of(s: Seq<Flat>, bounds: Seq<usize>, p: int, upto: int) -> (g: int)
    requires
        bounds_ok(s, bounds),
        1 <= upto < bounds.len(),
        0 <= p < bounds[upto],
    ensures
        0 <= g < upto,
        bounds[g] <= p < bounds[g + 1],
    decreases upto,
{
    if bounds[upto - 1] <= p {
        upto - 1
    } else {
        lemma_group_of(s, bounds, p, upto - 1)
    }
}

/// Between two positions of a sorted list with one stem, all have that stem.
pub proof fn lemma_same_stem_between(s: Seq<Flat>, a: int, q: int, b: int)
    requires
        flats_sorted(s),
        0 <= a <= q <= b < s.len(),
        s[a].0@ == s[b].0@,
    ensures
        s[q].0@ == s[a].0@,
{
    if a < q && q < b {
        assert(flat_le(s[a], s[q]));
        assert(flat_le(s[q], s[b]));
        if lex_lt(s[a].0@, s[q].0@) {
            if lex_lt(s[q].0@, s[b].0@) {
                lemma_lex_transitive(s[a].0@, s[q].0@, s[b].0@);
            }
            lemma_lex_asymmetric(s[a].0@, s[q].0@);
        }
    }
}

/// The buckets of the groups of a sorted list stand in the order of their stems.
pub proof fn lemma_group_buckets_sorted(buckets: Seq<StemBucket>, s: Seq<Flat>, bounds: Seq<usize>)
    requires
        flats_sorted(s),
        bounds_ok(s, bounds),
        are_group_buckets(buckets, s, bounds),
    ensures
        stems_sorted(buckets),
{
    assert forall|g: int, h: int| 0 <= g < h < buckets.len() implies lex_lt(
        buckets[g].stem@,
        buckets[h].stem@,
    ) by {
        let a = bounds[g] as int;
        let b = bounds[h] as int;
        let c = bounds[g + 1] as int;
        lemma_bounds_increase(s, bounds, g, h);
        lemma_bounds_increase(s, bounds, g, g + 1);
        if g + 1 < h {
            lemma_bounds_increase(s, bounds, g + 1, h);
        }
        assert(is_group(s, bounds[h] as int, bounds[h + 1] as int));
        assert(is_group_bucket(buckets[g], s, a, c));
        assert(is_group_bucket(buckets[h], s, b, bounds[h + 1] as int));
        assert(flat_le(s[a], s[b]));
        if s[a].0@ == s[b].0@ {
            lemma_same_stem_between(s, a, c - 1, b);
            lemma_same_stem_between(s, a, c, b);
            assert(s[bounds[g + 1] as int].0@ != s[bounds[g + 1] - 1].0@);
        }
    }
}

/// A key that the buckets of the groups bind was written by some entry.
proof fn lemma_bound_key_written(
    buckets: Seq<StemBucket>,
    s: Seq<Flat>,
    bounds: Seq<usize>,
    e: Seq<(Bytes32, Bytes32)>,
    x: Seq<u8>,
)
    requires
        sorted_flats_of(s, e),
        bounds_ok(s, bounds),
        are_group_buckets(buckets, s, bounds),
        bindings_of(buckets).contains_key(x),
    ensures
        has_key(e, x),
{
    let g = stem_pos(buckets, x.take(31));
    let start = bounds[g] as int;
    let end = bounds[g + 1] as int;
    assert(is_group_bucket(buckets[g], s, start, end));
    assert(is_group(s, start, end));
    assert(buckets[g].bindings().contains_key(x[31]));
    assert(group_has_slot(s, start, end, x[31]));
    let p = choose|p: int| start <= p < end && (#[trigger] s[p]).1 == x[31];
    assert(is_flat_of(s[p], e));
    assert(s[p].0@ == s[start].0@);
    lemma_key_parts(e[s[p].2 as int].0@, x);
}

/// The last entry for a key stands last for its slot in the group of its stem.
proof fn lemma_last_write_position(
    s: Seq<Flat>,
    e: Seq<(Bytes32, Bytes32)>,
    i: int,
    p: int,
    start: int,
    end: int,
)
    requires
        sorted_flats_of(s, e),
        is_last_write(e, i),
        is_group(s, start, end),
        start <= p < end,
        s[p].2 == i,
    ensures
        last_of_run(s, p, end),
{
    if p + 1 < end && s[p + 1].1 == s[p].1 {
        lemma_group_slots(s, start, end, p, p + 1);
        assert(is_flat_of(s[p], e));
        assert(is_flat_of(s[p + 1], e));
        assert(s[p].0@ == s[start].0@);
        assert(s[p + 1].0@ == s[start].0@);
        let j = s[p + 1].2 as int;
        lemma_key_parts(e[j].0@, e[i].0@);
        if j > i {
            assert(e[j].0@ != e[i].0@);
        }
        assert(s[p + 1].2 == s[p].2);
    }
}

/// A key that some entry writes is bound by the buckets of the groups, to the
/// value of the last entry for it.
proof fn lemma_written_key_bound(
    buckets: Seq<StemBucket>,
    s: Seq<Flat>,
    bounds: Seq<usize>,
    e: Seq<(Bytes32, Bytes32)>,
    i: int,
)
    requires
        sorted_flats_of(s, e),
        bounds_ok(s, bounds),
        are_group_buckets(buckets, s, bounds),
        stems_sorted(buckets),
        is_last_write(e, i),
    ensures
        bindings_of(buckets).contains_key(e[i].0@),
        bindings_of(buckets)[e[i].0@] == e[i].1@,
{
    let x = e[i].0@;
    lemma_sorted_distinct(buckets);
    assert(has_seq(s, i));
    let p = choose|p: int| 0 <= p < s.len() && (#[trigger] s[p]).2 == i;
    assert(is_flat_of(s[p], e));
    let g = lemma_group_of(s, bounds, p, bounds.len() - 1);
    let start = bounds[g] as int;
    let end = bounds[g + 1] as int;
    assert(is_group_bucket(buckets[g], s, start, end));
    assert(is_group(s, start, end));
    assert(s[p].0@ == s[start].0@);
    assert(buckets[g].stem@ == x.take(31));
    assert(has_stem(buckets, x.take(31)));
    assert(stem_pos(buckets, x.take(31)) == g);
    lemma_last_write_position(s, e, i, p, start, end);
    assert(buckets[g].bindings().contains_key(s[p].1));
    assert(x.len() == 32);
}

/// The buckets of the groups hold what the entries bind, each key with the
/// value written last.
pub proof fn lemma_group_buckets_bind(
    buckets: Seq<StemBucket>,
    s: Seq<Flat>,
    bounds: Seq<usize>,
    e: Seq<(Bytes32, Bytes32)>,
)
    requires
        sorted_flats_of(s, e),
        bounds_ok(s, bounds),
        are_group_buckets(buckets, s, bounds),
    ensures
        bindings_of(buckets) == apply_entries(Map::<Seq<u8>, Seq<u8>>::empty(), e),
{
    let empty = Map::<Seq<u8>, Seq<u8>>::empty();
    let m = apply_entries(empty, e);
    let bm = bindings_of(buckets);
    lemma_group_buckets_sorted(buckets, s, bounds);
    assert forall|x: Seq<u8>| #[trigger] bm.contains_key(x) <==> m.contains_key(x) by {
        lemma_apply_entries_domain(empty, e, x);
        if bm.contains_key(x) {
            lemma_bound_key_written(buckets, s, bounds, e, x);
        }
        if m.contains_key(x) {
            let i = lemma_last_write_exists(e, x);
            lemma_written_key_bound(buckets, s, bounds, e, i);
        }
    }
    assert forall|x: Seq<u8>| #[trigger] bm.contains_key(x) implies bm[x] == m[x] by {
        lemma_apply_entries_domain(empty, e, x);
        let i = lemma_last_write_exists(e, x);
        lemma_last_write_wins(empty, e, i);
        lemma_written_key_bound(buckets, s, bounds, e, i);
    }
    assert(bm =~= m);
}

} // verus!
