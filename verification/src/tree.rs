//! The binary state tree: buckets by stem, and the stem tree over them.

use crate::bits::{lemma_lex_asymmetric, lemma_lex_total, lemma_lex_transitive, lex_lt, stem_lt};
use crate::bucket::{leaves_sorted, subtree_root, StemBucket};
use crate::bulk::{
    are_group_buckets, bounds_ok, buckets_of_flats, is_group_bucket, lemma_group_buckets_bind,
    lemma_group_buckets_sorted, sorted_flats,
};
use crate::hash::{stem_leaf_hash, Bytes32, Stem};
use crate::merkle_proof::{
    bucket_siblings, hashes_view, lemma_node_path, lemma_proof_sound, prove_paths_sparse, trie_path,
    verify_spec,
};
use crate::node::{lemma_node_hash, stems_equal, trie_hash, upsert_stem, Node};
use crate::stem_tree::{
    bucket_hashes, build_stem_tree, build_stem_tree_sorted_parallel, has_stem,
    lemma_bucket_hashes_at, lemma_sorted_distinct, share_bits, stem_pos, stems_distinct,
    stems_sorted,
};
use vstd::prelude::*;

verus! {

/// Some key with stem `stem` is bound in `m`.
pub open spec fn stem_is_bound(m: Map<Seq<u8>, Seq<u8>>, stem: Seq<u8>) -> bool {
    exists|sub: u8| #[trigger] m.contains_key(stem.push(sub))
}

/// The bindings of `m` under `stem`: slot to value.
pub open spec fn bucket_of(m: Map<Seq<u8>, Seq<u8>>, stem: Seq<u8>) -> Map<u8, Seq<u8>> {
    Map::new(|sub: u8| m.contains_key(stem.push(sub)), |sub: u8| m[stem.push(sub)])
}

/// The leaf hash of every stem that has a binding in `m`.
pub open spec fn stem_hashes(m: Map<Seq<u8>, Seq<u8>>) -> Map<Seq<u8>, Seq<u8>> {
    Map::new(
        |stem: Seq<u8>| stem.len() == 31 && stem_is_bound(m, stem),
        |stem: Seq<u8>| stem_leaf_hash(stem, subtree_root(bucket_of(m, stem))),
    )
}

/// The state root of a set of bindings from 32-byte keys to values.
pub open spec fn state_root_of(m: Map<Seq<u8>, Seq<u8>>) -> Seq<u8> {
    trie_hash(stem_hashes(m), Seq::<bool>::empty())
}

/// The buckets bind `key`.
pub open spec fn binds(s: Seq<StemBucket>, key: Seq<u8>) -> bool {
    &&& key.len() == 32
    &&& has_stem(s, key.take(31))
    &&& s[stem_pos(s, key.take(31))].bindings().contains_key(key[31])
}

/// The bindings that a list of buckets holds: key to value.
pub open spec fn bindings_of(s: Seq<StemBucket>) -> Map<Seq<u8>, Seq<u8>> {
    Map::new(
        |key: Seq<u8>| binds(s, key),
        |key: Seq<u8>| s[stem_pos(s, key.take(31))].bindings()[key[31]],
    )
}

/// Every bucket is well formed and holds at least one leaf.
pub open spec fn buckets_wf(s: Seq<StemBucket>) -> bool {
    forall|i: int| 0 <= i < s.len() ==> (#[trigger] s[i]).wf() && s[i].leaves@.len() > 0
}

/// An updatable key-value state with a Merkle root over all bindings.
pub struct BinaryStateTree {
    /// The buckets, in increasing order of stem.
    pub stems: Vec<StemBucket>,
    /// The stem tree over the buckets.
    pub root: Node,
}

impl View for BinaryStateTree {
    type V = Map<Seq<u8>, Seq<u8>>;

    open spec fn view(&self) -> Map<Seq<u8>, Seq<u8>> {
        bindings_of(self.stems@)
    }
}

/// The bindings under the stem of a bucket are the bucket's own.
pub proof fn lemma_bucket_of(s: Seq<StemBucket>, i: int)
    requires
        stems_distinct(s),
        0 <= i < s.len(),
    ensures
        bucket_of(bindings_of(s), s[i].stem@) == s[i].bindings(),
{
    let stem = s[i].stem@;
    let m = bindings_of(s);
    assert(has_stem(s, stem));
    assert forall|sub: u8| bucket_of(m, stem).contains_key(sub) <==> s[i].bindings().contains_key(
        sub,
    ) by {
        let key = stem.push(sub);
        assert(key.take(31) =~= stem);
        assert(key[31] == sub);
    }
    assert forall|sub: u8| bucket_of(m, stem).contains_key(sub) implies bucket_of(m, stem)[sub]
        == s[i].bindings()[sub] by {
        let key = stem.push(sub);
        assert(key.take(31) =~= stem);
    }
    assert(bucket_of(m, stem) =~= s[i].bindings());
}

/// The leaf hashes cached in well-formed buckets are those of their bindings.
pub proof fn lemma_bucket_hashes_are_stem_hashes(s: Seq<StemBucket>)
    requires
        stems_distinct(s),
        buckets_wf(s),
    ensures
        bucket_hashes(s) == stem_hashes(bindings_of(s)),
{
    let m = bindings_of(s);
    assert forall|stem: Seq<u8>| bucket_hashes(s).contains_key(stem) <==> stem_hashes(m).contains_key(
        stem,
    ) by {
        if has_stem(s, stem) {
            let i = stem_pos(s, stem);
            lemma_bucket_of(s, i);
            let sub = s[i].leaves@[0].0;
            crate::bucket::lemma_leaves_map_at(s[i].leaves@, 0);
            assert(bucket_of(m, stem).contains_key(sub));
            assert(m.contains_key(stem.push(sub)));
        }
        if stem.len() == 31 && stem_is_bound(m, stem) {
            let sub = choose|sub: u8| #[trigger] m.contains_key(stem.push(sub));
            assert(stem.push(sub).take(31) =~= stem);
        }
    }
    assert forall|stem: Seq<u8>| bucket_hashes(s).contains_key(stem) implies bucket_hashes(s)[stem]
        == stem_hashes(m)[stem] by {
        let i = stem_pos(s, stem);
        lemma_bucket_of(s, i);
    }
    assert(bucket_hashes(s) =~= stem_hashes(m));
}

/// The stem and the slot of a key.
pub fn split_key(key: &Bytes32) -> (out: (Stem, u8))
    ensures
        out.0@ == key@.take(31),
        out.1 == key@[31],
{
    let mut stem: Stem = [0u8; 31];
    let mut i: usize = 0;
    while i < 31
        invariant
            i <= 31,
            forall|j: int| 0 <= j < i ==> stem@[j] == key@[j],
        decreases 31 - i,
    {
        stem[i] = key[i];
        i += 1;
    }
    assert(stem@ =~= key@.take(31));
    (stem, key[31])
}

/// The position of `stem` among sorted buckets: where it stands, or where it
/// would have to be put.
pub fn find_stem(stems: &Vec<StemBucket>, stem: &Stem) -> (out: (bool, usize))
    requires
        stems_sorted(stems@),
    ensures
        out.1 <= stems@.len(),
        out.0 ==> out.1 < stems@.len() && stems@[out.1 as int].stem@ == stem@,
        out.0 == has_stem(stems@, stem@),
        forall|i: int| 0 <= i < out.1 ==> lex_lt((#[trigger] stems@[i]).stem@, stem@),
        forall|i: int|
            out.1 <= i < stems@.len() && !(out.0 && i == out.1) ==> lex_lt(
                stem@,
                (#[trigger] stems@[i]).stem@,
            ),
{
    let ghost s = stems@;
    let mut lo: usize = 0;
    let mut hi: usize = stems.len();
    while lo < hi
        invariant
            lo <= hi <= s.len(),
            s == stems@,
            stems_sorted(s),
            forall|i: int| 0 <= i < lo ==> lex_lt((#[trigger] s[i]).stem@, stem@),
            forall|i: int| hi <= i < s.len() ==> lex_lt(stem@, (#[trigger] s[i]).stem@),
        decreases hi - lo,
    {
        let mid = lo + (hi - lo) / 2;
        let ghost ms = s[mid as int].stem@;
        if stem_lt(&stems[mid].stem, stem) {
            proof {
                assert forall|i: int| 0 <= i < mid + 1 implies lex_lt((#[trigger] s[i]).stem@, stem@) by {
                    if i < mid {
                        assert(lex_lt(s[i].stem@, ms));
                        lemma_lex_transitive(s[i].stem@, ms, stem@);
                    }
                }
            }
            lo = mid + 1;
        } else if stem_lt(stem, &stems[mid].stem) {
            proof {
                assert forall|i: int| mid <= i < s.len() implies lex_lt(stem@, (#[trigger] s[i]).stem@) by {
                    if i > mid {
                        assert(lex_lt(ms, s[i].stem@));
                        lemma_lex_transitive(stem@, ms, s[i].stem@);
                    }
                }
            }
            hi = mid;
        } else {
            proof {
                lemma_lex_total(ms, stem@);
                assert forall|i: int| 0 <= i < mid implies lex_lt((#[trigger] s[i]).stem@, stem@) by {
                    assert(lex_lt(s[i].stem@, ms));
                }
                assert forall|i: int| mid < i < s.len() implies lex_lt(stem@, (#[trigger] s[i]).stem@) by {
                    assert(lex_lt(ms, s[i].stem@));
                }
            }
            return (true, mid);
        }
    }
    proof {
        if has_stem(s, stem@) {
            let i = stem_pos(s, stem@);
            if i < lo {
                lemma_lex_asymmetric(s[i].stem@, stem@);
            } else {
                lemma_lex_asymmetric(stem@, s[i].stem@);
            }
        }
    }
    (false, lo)
}

impl BinaryStateTree {
    /// The buckets stand in order, each with its hashes up to date, and the
    /// stem tree is the canonical tree over their leaf hashes.
    pub open spec fn wf(&self) -> bool {
        &&& stems_sorted(self.stems@)
        &&& buckets_wf(self.stems@)
        &&& self.root.wf(Seq::<bool>::empty())
        &&& self.root.stems() == bucket_hashes(self.stems@)
    }

    /// The tree without bindings.
    pub fn new() -> (out: Self)
        ensures
            out.wf(),
            out@ == Map::<Seq<u8>, Seq<u8>>::empty(),
    {
        let out = BinaryStateTree { stems: Vec::new(), root: Node::Empty };
        proof {
            assert(out.root.stems() =~= bucket_hashes(out.stems@));
            assert(out@ =~= Map::<Seq<u8>, Seq<u8>>::empty());
        }
        out
    }

    /// The state root: the hash at the root of the stem tree.
    pub fn state_root(&self) -> (out: Bytes32)
        requires
            self.wf(),
        ensures
            out@ == state_root_of(self@),
    {
        proof {
            lemma_sorted_distinct(self.stems@);
            lemma_bucket_hashes_are_stem_hashes(self.stems@);
            lemma_node_hash(self.root, Seq::<bool>::empty(), self.root.stems());
        }
        self.root.hash()
    }

    /// The tree that binds what the entries bind, each key to the value of
    /// its last entry. The entries are taken apart and sorted by stem, slot
    /// and position; each group of one stem gives a bucket, with the value
    /// written last in every slot; the stem tree is built over the buckets.
    pub fn from_entries(entries: &[(Bytes32, Bytes32)]) -> (out: Self)
        ensures
            out.wf(),
            out@ == apply_entries(Map::<Seq<u8>, Seq<u8>>::empty(), entries@),
    {
        if entries.len() == 0 {
            return Self::new();
        }
        let flats = sorted_flats(entries);
        let buckets = buckets_of_flats(&flats);
        proof {
            let bounds = choose|bounds: Seq<usize>|
                bounds_ok(flats@, bounds) && are_group_buckets(buckets@, flats@, bounds);
            lemma_group_buckets_sorted(buckets@, flats@, bounds);
            lemma_group_buckets_bind(buckets@, flats@, bounds, entries@);
            assert forall|i: int| 0 <= i < buckets@.len() implies (#[trigger] buckets@[i]).wf()
                && buckets@[i].leaves@.len() > 0 by {
                assert(is_group_bucket(buckets@[i], flats@, bounds[i] as int, bounds[i + 1] as int));
            }
            assert(share_bits(buckets@, 0));
        }
        let root = build_stem_tree_sorted_parallel(buckets.as_slice(), 0);
        proof {
            if buckets@.len() > 0 {
                assert(crate::node::prefix_of(buckets@[0].stem@, 0) =~= Seq::<bool>::empty());
            }
        }
        BinaryStateTree { stems: buckets, root }
    }

    /// Writes the entries, in order, each over what was bound to its key
    /// before; then brings the hashes of the buckets that were written to up
    /// to date and builds the stem tree anew from all buckets.
    pub fn insert_many(&mut self, entries: &[(Bytes32, Bytes32)])
        requires
            old(self).wf(),
        ensures
            final(self).wf(),
            final(self)@ == apply_entries(old(self)@, entries@),
    {
        let ghost s0 = self.stems@;
        let touched = write_entries(&mut self.stems, entries);
        let ghost s1 = self.stems@;
        proof {
            assert forall|i: int| 0 <= i < s1.len() implies (#[trigger] s1[i]).wf() || touched_has(
                touched@,
                s1[i].stem@,
            ) by {
                if !touched_has(touched@, s1[i].stem@) {
                    let j = choose|j: int| 0 <= j < s0.len() && s0[j] == s1[i];
                    assert(s0[j].wf());
                }
            }
        }
        rehash_touched(&mut self.stems, &touched);
        let ghost s2 = self.stems@;
        let mut all: Vec<StemBucket> = Vec::with_capacity(self.stems.len());
        let mut i: usize = 0;
        while i < self.stems.len()
            invariant
                i <= self.stems@.len(),
                all@.len() == i,
                forall|j: int|
                    0 <= j < i ==> (#[trigger] all@[j]).stem == self.stems@[j].stem && all@[j].stem_hash
                        == self.stems@[j].stem_hash,
            decreases self.stems@.len() - i,
        {
            all.push(self.stems[i].duplicate());
            i += 1;
        }
        proof {
            lemma_sorted_distinct(s2);
            lemma_same_hashes(s2, all@);
            assert(stems_distinct(all@));
            assert(share_bits(all@, 0));
        }
        self.root = build_stem_tree(all, 0);
        proof {
            if s2.len() == 0 {
                assert(self.root.wf(Seq::<bool>::empty()));
            } else {
                assert(crate::node::prefix_of(all@[0].stem@, 0) =~= Seq::<bool>::empty());
            }
        }
    }

    /// Writes the entries, in order, each over what was bound to its key
    /// before; then brings the hashes of the buckets that were written to up
    /// to date and puts each of them into the stem tree, rehashing only the
    /// path to it.
    pub fn insert_many_incremental(&mut self, entries: &[(Bytes32, Bytes32)])
        requires
            old(self).wf(),
        ensures
            final(self).wf(),
            final(self)@ == apply_entries(old(self)@, entries@),
    {
        let ghost s0 = self.stems@;
        let ghost root0 = self.root;
        let touched = write_entries(&mut self.stems, entries);
        let ghost s1 = self.stems@;
        proof {
            lemma_sorted_distinct(s0);
            lemma_sorted_distinct(s1);
            assert forall|i: int| 0 <= i < s1.len() implies in_tree(root0, #[trigger] s1[i]) || touched_has(
                touched@,
                s1[i].stem@,
            ) by {
                if !touched_has(touched@, s1[i].stem@) {
                    let j = choose|j: int| 0 <= j < s0.len() && s0[j] == s1[i];
                    lemma_bucket_hashes_at(s0, j);
                }
            }
            assert forall|k: Seq<u8>| root0.stems().contains_key(k) implies has_stem(s1, k) by {
                let j = stem_pos(s0, k);
                assert(has_stem(s1, s0[j].stem@));
            }
            assert(touched@.skip(0) =~= touched@);
        }
        let mut t: usize = 0;
        while t < touched.len()
            invariant
                t <= touched@.len(),
                stems_sorted(self.stems@),
                buckets_shaped(self.stems@),
                bindings_of(self.stems@) == bindings_of(s1),
                self.root.wf(Seq::<bool>::empty()),
                forall|k: Seq<u8>| #[trigger] self.root.stems().contains_key(k) ==> has_stem(self.stems@, k),
                forall|i: int|
                    0 <= i < self.stems@.len() ==> in_tree(self.root, #[trigger] self.stems@[i])
                        || touched_has(touched@.skip(t as int), self.stems@[i].stem@),
                forall|a: int| 0 <= a < touched@.len() ==> has_stem(self.stems@, (#[trigger] touched@[a])@),
            decreases touched@.len() - t,
        {
            let ghost sa = self.stems@;
            let ghost root_a = self.root;
            let (found, idx) = find_stem(&self.stems, &touched[t]);
            assert(found);
            self.stems[idx].recompute_hashes();
            let stem: Stem = self.stems[idx].stem;
            let stem_hash: Bytes32 = self.stems[idx].stem_hash;
            proof {
                assert(crate::node::prefix_of(stem@, 0) =~= Seq::<bool>::empty());
            }
            upsert_stem(&mut self.root, stem, stem_hash, 0);
            proof {
                let sb = self.stems@;
                lemma_sorted_distinct(sa);
                lemma_same_leaves(sa, sb);
                assert forall|i: int| 0 <= i < sb.len() implies (#[trigger] sb[i]).stem@ == sa[i].stem@ by {}
                lemma_same_stems_sorted(sa, sb);
                lemma_sorted_distinct(sb);
                assert forall|k: Seq<u8>| has_stem(sa, k) implies has_stem(sb, k) by {
                    assert(sb[stem_pos(sa, k)].stem@ == k);
                }
                assert forall|i: int| 0 <= i < sb.len() implies in_tree(self.root, #[trigger] sb[i]) || touched_has(
                    touched@.skip(t + 1),
                    sb[i].stem@,
                ) by {
                    if i != idx {
                        assert(sb[i] == sa[i]);
                        assert(sb[i].stem@ != stem@);
                        if touched_has(touched@.skip(t as int), sa[i].stem@) {
                            let a = choose|a: int|
                                0 <= a < touched@.skip(t as int).len() && (#[trigger] touched@.skip(
                                    t as int,
                                )[a])@ == sa[i].stem@;
                            assert(a > 0);
                            assert(touched@.skip(t + 1)[a - 1]@ == sa[i].stem@);
                        }
                    }
                }
            }
            t += 1;
        }
        proof {
            let s2 = self.stems@;
            lemma_sorted_distinct(s2);
            assert forall|i: int| 0 <= i < s2.len() implies (#[trigger] s2[i]).wf() && s2[i].leaves@.len()
                > 0 by {
                assert(in_tree(self.root, s2[i]));
            }
            assert forall|k: Seq<u8>| bucket_hashes(s2).contains_key(k) implies self.root.stems().contains_key(
                k,
            ) && self.root.stems()[k] == bucket_hashes(s2)[k] by {
                let i = stem_pos(s2, k);
                assert(in_tree(self.root, s2[i]));
            }
            assert(self.root.stems() =~= bucket_hashes(s2));
        }
    }

    /// Takes away the bindings of the keys, and the buckets that are left
    /// without bindings; then brings the hashes of the buckets that were
    /// written to up to date and builds the stem tree anew.
    pub fn delete_many(&mut self, keys: &[Bytes32])
        requires
            old(self).wf(),
        ensures
            final(self).wf(),
            final(self)@ == remove_keys(old(self)@, keys@),
    {
        let ghost s0 = self.stems@;
        let ghost m0 = self@;
        let mut touched: Vec<Stem> = Vec::new();
        let mut i: usize = 0;
        proof {
            assert(keys@.take(0) =~= Seq::<Bytes32>::empty());
            assert forall|k: int| 0 <= k < s0.len() implies s0.contains(#[trigger] s0[k]) by {}
        }
        while i < keys.len()
            invariant
                i <= keys@.len(),
                buckets_wf(s0),
                stems_sorted(self.stems@),
                buckets_shaped(self.stems@),
                bindings_of(self.stems@) == remove_keys(m0, keys@.take(i as int)),
                forall|k: int|
                    0 <= k < self.stems@.len() && !touched_has(touched@, (#[trigger] self.stems@[k]).stem@)
                        ==> s0.contains(self.stems@[k]),
            decreases keys@.len() - i,
        {
            let ghost s1 = self.stems@;
            let ghost t1 = touched@;
            let key: Bytes32 = keys[i];
            let stem = remove_binding(&mut self.stems, &key);
            touched.push(stem);
            proof {
                let s2 = self.stems@;
                let t2 = touched@;
                assert(keys@.take(i + 1).drop_last() =~= keys@.take(i as int));
                assert(keys@.take(i + 1).last() == keys@[i as int]);
                assert(t2[t2.len() - 1]@ == stem@);
                assert forall|k: Seq<u8>| touched_has(t1, k) implies touched_has(t2, k) by {
                    let a = choose|a: int| 0 <= a < t1.len() && (#[trigger] t1[a])@ == k;
                    assert(t2[a]@ == k);
                }
                assert forall|k: int| 0 <= k < s2.len() && !touched_has(t2, (#[trigger] s2[k]).stem@) implies s0.contains(
                    s2[k],
                ) by {
                    assert(s2[k].stem@ != stem@);
                    assert(s1.contains(s2[k]));
                    let a = choose|a: int| 0 <= a < s1.len() && s1[a] == s2[k];
                    assert(!touched_has(t1, s1[a].stem@));
                }
            }
            i += 1;
        }
        proof {
            assert(keys@.take(keys@.len() as int) =~= keys@);
            let s1 = self.stems@;
            assert forall|k: int| 0 <= k < s1.len() implies (#[trigger] s1[k]).wf() || touched_has(
                touched@,
                s1[k].stem@,
            ) by {
                if !touched_has(touched@, s1[k].stem@) {
                    let j = choose|j: int| 0 <= j < s0.len() && s0[j] == s1[k];
                    assert(s0[j].wf());
                }
            }
        }
        rehash_touched(&mut self.stems, &touched);
        proof {
            assert(share_bits(self.stems@, 0));
        }
        self.root = build_stem_tree_sorted_parallel(self.stems.as_slice(), 0);
        proof {
            if self.stems@.len() > 0 {
                assert(crate::node::prefix_of(self.stems@[0].stem@, 0) =~= Seq::<bool>::empty());
            }
        }
    }

    /// The proof for `key`: the bound value, the eight sibling hashes inside
    /// its bucket and the sibling hashes along its stem's path; nothing where
    /// the key is not bound.
    pub fn prove_for_key(&self, key: &Bytes32) -> (out: Option<(Bytes32, [Bytes32; 8], Vec<Bytes32>)>)
        requires
            self.wf(),
        ensures
            out is Some <==> self@.contains_key(key@),
            out matches Some(p) ==> {
                &&& p.0@ == self@[key@]
                &&& hashes_view(p.1@) == bucket_siblings(bucket_of(self@, key@.take(31)), key@[31])
                &&& hashes_view(p.2@) == trie_path(
                    stem_hashes(self@),
                    key@.take(31),
                    Seq::<bool>::empty(),
                )
                &&& p.2@.len() <= 248
                &&& verify_spec(
                    state_root_of(self@),
                    key@,
                    p.0@,
                    hashes_view(p.1@),
                    hashes_view(p.2@),
                )
            },
    {
        let (stem, sub) = split_key(key);
        let ghost s = self.stems@;
        proof {
            lemma_sorted_distinct(s);
        }
        let (found, idx) = find_stem(&self.stems, &stem);
        if !found {
            return None;
        }
        let sb = &self.stems[idx];
        proof {
            lemma_bucket_hashes_at(s, idx as int);
            assert(stem_pos(s, stem@) == idx);
        }
        match sb.get(sub) {
            None => None,
            Some(value) => {
                let (sibs256, path) = prove_paths_sparse(&self.root, &stem, sub, &sb.leaves);
                proof {
                    lemma_bucket_of(s, idx as int);
                    lemma_bucket_hashes_are_stem_hashes(s);
                    assert(crate::node::prefix_of(stem@, 0) =~= Seq::<bool>::empty());
                    lemma_node_path(self.root, stem@, 0, self.root.stems());
                    lemma_proof_sound(self@, key@);
                }
                Some((value, sibs256, path))
            },
        }
    }
}

/// Every bucket has its leaves in order and holds at least one.
pub open spec fn buckets_shaped(s: Seq<StemBucket>) -> bool {
    forall|i: int| 0 <= i < s.len() ==> leaves_sorted((#[trigger] s[i]).leaves@) && s[i].leaves@.len() > 0
}

/// The bindings after a list of writes, each over what was bound before.
pub open spec fn apply_entries(m: Map<Seq<u8>, Seq<u8>>, e: Seq<(Bytes32, Bytes32)>) -> Map<
    Seq<u8>,
    Seq<u8>,
>
    decreases e.len(),
{
    if e.len() == 0 {
        m
    } else {
        apply_entries(m, e.drop_last()).insert(e.last().0@, e.last().1@)
    }
}

/// Binds `value` to `key` in the buckets, in a new bucket where the stem of
/// the key has none. Returns the stem. The cached hashes of the bucket that
/// was written are left as they were.
pub fn put_binding(stems: &mut Vec<StemBucket>, key: &Bytes32, value: &Bytes32) -> (out: Stem)
    requires
        stems_sorted(old(stems)@),
        buckets_shaped(old(stems)@),
    ensures
        stems_sorted(final(stems)@),
        buckets_shaped(final(stems)@),
        bindings_of(final(stems)@) == bindings_of(old(stems)@).insert(key@, value@),
        out@ == key@.take(31),
        has_stem(final(stems)@, out@),
        forall|i: int|
            0 <= i < final(stems)@.len() && (#[trigger] final(stems)@[i]).stem@ != out@ ==> old(
                stems,
            )@.contains(final(stems)@[i]),
        forall|j: int|
            0 <= j < old(stems)@.len() ==> has_stem(final(stems)@, (#[trigger] old(stems)@[j]).stem@),
{
    let (stem, sub) = split_key(key);
    let ghost s0 = stems@;
    proof {
        lemma_sorted_distinct(s0);
    }
    let (found, idx) = find_stem(stems, &stem);
    if found {
        stems[idx].set(sub, *value);
        let ghost b1 = stems@[idx as int];
        proof {
            let s1 = stems@;
            assert(s1 =~= s0.update(idx as int, b1));
            assert(s1.len() == s0.len());
            assert(b1.leaves@.len() > 0) by {
                if b1.leaves@.len() == 0 {
                    assert(!crate::bucket::has_leaf(b1.leaves@, sub));
                    assert(b1.bindings().contains_key(sub));
                }
            }
            assert forall|i: int| 0 <= i < s1.len() implies leaves_sorted((#[trigger] s1[i]).leaves@)
                && s1[i].leaves@.len() > 0 by {
                if i != idx {
                    assert(s1[i] == s0[i]);
                }
            }
            assert forall|i: int| 0 <= i < s1.len() implies (#[trigger] s1[i]).stem@ == s0[i].stem@ by {}
            lemma_same_stems_sorted(s0, s1);
            lemma_sorted_distinct(s1);
            assert forall|k: Seq<u8>| has_stem(s1, k) <==> has_stem(s0, k) by {
                if has_stem(s1, k) {
                    assert(s0[stem_pos(s1, k)].stem@ == k);
                }
                if has_stem(s0, k) {
                    assert(s1[stem_pos(s0, k)].stem@ == k);
                }
            }
            assert forall|k: Seq<u8>| has_stem(s1, k) implies stem_pos(s1, k) == stem_pos(s0, k) by {
                let a = stem_pos(s1, k);
                let b = stem_pos(s0, k);
                assert(s1[b].stem@ == k);
            }
            let m0 = bindings_of(s0);
            let m1 = bindings_of(s1);
            assert(stem_pos(s0, stem@) == idx);
            assert(key@.take(31) == stem@);
            assert forall|x: Seq<u8>| m1.contains_key(x) <==> m0.insert(key@, value@).contains_key(
                x,
            ) by {
                if x.len() == 32 && has_stem(s0, x.take(31)) {
                    let p = stem_pos(s0, x.take(31));
                    if p == idx {
                        if x[31] == sub {
                            lemma_key_parts(x, key@);
                        }
                    }
                }
            }
            assert forall|x: Seq<u8>| m1.contains_key(x) implies m1[x] == m0.insert(key@, value@)[x] by {
                let p = stem_pos(s0, x.take(31));
                if p == idx && x[31] == sub {
                    lemma_key_parts(x, key@);
                }
            }
            assert(m1 =~= m0.insert(key@, value@));
            assert forall|i: int| 0 <= i < s1.len() && (#[trigger] s1[i]).stem@ != stem@ implies s0.contains(
                s1[i],
            ) by {
                assert(s0[i] == s1[i]);
            }
            assert forall|j: int| 0 <= j < s0.len() implies has_stem(s1, (#[trigger] s0[j]).stem@) by {
                assert(s1[j].stem@ == s0[j].stem@);
            }
        }
    } else {
        let mut bucket = StemBucket::new(stem);
        bucket.set(sub, *value);
        let ghost b1 = bucket;
        stems.insert(idx, bucket);
        proof {
            let s1 = stems@;
            assert(s1 =~= s0.insert(idx as int, b1));
            assert(b1.bindings() =~= Map::<u8, Seq<u8>>::empty().insert(sub, value@));
            assert(b1.leaves@.len() > 0) by {
                if b1.leaves@.len() == 0 {
                    assert(!crate::bucket::has_leaf(b1.leaves@, sub));
                    assert(b1.bindings().contains_key(sub));
                }
            }
            assert forall|a: int, b: int| 0 <= a < b < s1.len() implies lex_lt(s1[a].stem@, s1[b].stem@) by {
                if a < idx && b > idx {
                    assert(lex_lt(s0[a].stem@, s0[b - 1].stem@));
                } else if a > idx {
                    assert(lex_lt(s0[a - 1].stem@, s0[b - 1].stem@));
                } else if b < idx {
                    assert(lex_lt(s0[a].stem@, s0[b].stem@));
                } else if a == idx {
                    assert(lex_lt(stem@, s0[b - 1].stem@));
                } else {
                    assert(lex_lt(s0[a].stem@, stem@));
                }
            }
            lemma_sorted_distinct(s1);
            assert forall|i: int| 0 <= i < s1.len() implies leaves_sorted((#[trigger] s1[i]).leaves@)
                && s1[i].leaves@.len() > 0 by {
                if i < idx {
                    assert(s1[i] == s0[i]);
                } else if i > idx {
                    assert(s1[i] == s0[i - 1]);
                }
            }
            assert forall|k: Seq<u8>| has_stem(s1, k) <==> (k == stem@ || has_stem(s0, k)) by {
                if has_stem(s1, k) {
                    let p = stem_pos(s1, k);
                    if p < idx {
                        assert(s0[p].stem@ == k);
                    } else if p > idx {
                        assert(s0[p - 1].stem@ == k);
                    }
                }
                if has_stem(s0, k) {
                    let p = stem_pos(s0, k);
                    if p < idx {
                        assert(s1[p].stem@ == k);
                    } else {
                        assert(s1[p + 1].stem@ == k);
                    }
                }
                assert(s1[idx as int].stem@ == stem@);
            }
            assert forall|k: Seq<u8>| has_stem(s0, k) implies s1[stem_pos(s1, k)] == s0[stem_pos(s0, k)] by {
                let p = stem_pos(s0, k);
                let q = stem_pos(s1, k);
                if p < idx {
                    assert(s1[p] == s0[p]);
                    assert(q == p);
                } else {
                    assert(s1[p + 1] == s0[p]);
                    assert(q == p + 1);
                }
            }
            assert(stem_pos(s1, stem@) == idx);
            let m0 = bindings_of(s0);
            let m1 = bindings_of(s1);
            assert(key@.take(31) == stem@);
            assert forall|x: Seq<u8>| m1.contains_key(x) <==> m0.insert(key@, value@).contains_key(
                x,
            ) by {
                if x.len() == 32 && x.take(31) == stem@ && x[31] == sub {
                    lemma_key_parts(x, key@);
                }
            }
            assert forall|x: Seq<u8>| m1.contains_key(x) implies m1[x] == m0.insert(key@, value@)[x] by {
                if x.take(31) == stem@ && x[31] == sub {
                    lemma_key_parts(x, key@);
                }
            }
            assert(m1 =~= m0.insert(key@, value@));
            assert forall|i: int| 0 <= i < s1.len() && (#[trigger] s1[i]).stem@ != stem@ implies s0.contains(
                s1[i],
            ) by {
                if i < idx {
                    assert(s0[i] == s1[i]);
                } else {
                    assert(s0[i - 1] == s1[i]);
                }
            }
        }
    }
    stem
}

/// The bindings after the bindings of a list of keys are taken away.
pub open spec fn remove_keys(m: Map<Seq<u8>, Seq<u8>>, keys: Seq<Bytes32>) -> Map<Seq<u8>, Seq<u8>>
    decreases keys.len(),
{
    if keys.len() == 0 {
        m
    } else {
        remove_keys(m, keys.drop_last()).remove(keys.last()@)
    }
}

/// Takes away the binding of `key` in the buckets, and the bucket of its
/// stem where that is left without bindings. Returns the stem. The cached
/// hashes of the bucket that was written are left as they were.
pub fn remove_binding(stems: &mut Vec<StemBucket>, key: &Bytes32) -> (out: Stem)
    requires
        stems_sorted(old(stems)@),
        buckets_shaped(old(stems)@),
    ensures
        stems_sorted(final(stems)@),
        buckets_shaped(final(stems)@),
        bindings_of(final(stems)@) == bindings_of(old(stems)@).remove(key@),
        out@ == key@.take(31),
        forall|i: int|
            0 <= i < final(stems)@.len() && (#[trigger] final(stems)@[i]).stem@ != out@ ==> old(
                stems,
            )@.contains(final(stems)@[i]),
{
    let (stem, sub) = split_key(key);
    let ghost s0 = stems@;
    let ghost m0 = bindings_of(s0);
    proof {
        lemma_sorted_distinct(s0);
    }
    let (found, idx) = find_stem(stems, &stem);
    if !found {
        proof {
            assert(m0 =~= m0.remove(key@));
            assert forall|i: int| 0 <= i < s0.len() implies s0.contains(#[trigger] s0[i]) by {}
        }
        return stem;
    }
    stems[idx].unset(sub);
    let ghost b1 = stems@[idx as int];
    let ghost s1 = stems@;
    let emptied = stems[idx].leaves.len() == 0;
    if emptied {
        stems.remove(idx);
    }
    proof {
        let s2 = stems@;
        assert(s1 =~= s0.update(idx as int, b1));
        assert(stem_pos(s0, stem@) == idx);
        assert(key@.take(31) == stem@);
        if emptied {
            assert(s2 =~= s0.remove(idx as int));
            assert(b1.bindings() =~= Map::<u8, Seq<u8>>::empty()) by {
                assert forall|k: u8| !crate::bucket::has_leaf(b1.leaves@, k) by {}
            }
            assert forall|a: int, b: int| 0 <= a < b < s2.len() implies lex_lt(s2[a].stem@, s2[b].stem@) by {
                let x = if a < idx {
                    a
                } else {
                    a + 1
                };
                let y = if b < idx {
                    b
                } else {
                    b + 1
                };
                assert(lex_lt(s0[x].stem@, s0[y].stem@));
            }
            assert forall|i: int| 0 <= i < s2.len() implies leaves_sorted((#[trigger] s2[i]).leaves@)
                && s2[i].leaves@.len() > 0 && s0.contains(s2[i]) && s2[i].stem@ != stem@ by {
                if i < idx {
                    assert(s2[i] == s0[i]);
                } else {
                    assert(s2[i] == s0[i + 1]);
                }
            }
            lemma_sorted_distinct(s2);
            assert forall|k: Seq<u8>| has_stem(s2, k) <==> (k != stem@ && has_stem(s0, k)) by {
                if has_stem(s2, k) {
                    let p = stem_pos(s2, k);
                    if p < idx {
                        assert(s0[p].stem@ == k);
                    } else {
                        assert(s0[p + 1].stem@ == k);
                    }
                }
                if k != stem@ && has_stem(s0, k) {
                    let p = stem_pos(s0, k);
                    if p < idx {
                        assert(s2[p].stem@ == k);
                    } else {
                        assert(s2[p - 1].stem@ == k);
                    }
                }
            }
            assert forall|k: Seq<u8>| has_stem(s2, k) implies s2[stem_pos(s2, k)] == s0[stem_pos(s0, k)] by {
                let q = stem_pos(s2, k);
                let p = stem_pos(s0, k);
                if q < idx {
                    assert(s0[q] == s2[q]);
                    assert(p == q);
                } else {
                    assert(s0[q + 1] == s2[q]);
                    assert(p == q + 1);
                }
            }
            let m2 = bindings_of(s2);
            assert forall|x: Seq<u8>| #[trigger] m2.contains_key(x) <==> m0.remove(key@).contains_key(x) by {
                if x.len() == 32 && has_stem(s0, x.take(31)) {
                    if x.take(31) == stem@ {
                        // The emptied bucket held the key alone.
                        if m0.contains_key(x) && x != key@ {
                            assert(s0[idx as int].bindings().contains_key(x[31]));
                            if x[31] == sub {
                                lemma_key_parts(x, key@);
                            }
                            assert(b1.bindings().contains_key(x[31]));
                        }
                    }
                }
            }
            assert forall|x: Seq<u8>| #[trigger] m2.contains_key(x) implies m2[x] == m0.remove(key@)[x] by {}
            assert(m2 =~= m0.remove(key@));
        } else {
            assert(s2 == s1);
            assert forall|i: int| 0 <= i < s2.len() implies (#[trigger] s2[i]).stem@ == s0[i].stem@ by {}
            lemma_same_stems_sorted(s0, s2);
            lemma_sorted_distinct(s2);
            assert forall|i: int| 0 <= i < s2.len() implies leaves_sorted((#[trigger] s2[i]).leaves@)
                && s2[i].leaves@.len() > 0 by {
                if i != idx {
                    assert(s2[i] == s0[i]);
                }
            }
            assert forall|i: int| 0 <= i < s2.len() && (#[trigger] s2[i]).stem@ != stem@ implies s0.contains(
                s2[i],
            ) by {
                assert(s0[i] == s2[i]);
            }
            assert forall|k: Seq<u8>| has_stem(s2, k) <==> has_stem(s0, k) by {
                if has_stem(s2, k) {
                    assert(s0[stem_pos(s2, k)].stem@ == k);
                }
                if has_stem(s0, k) {
                    assert(s2[stem_pos(s0, k)].stem@ == k);
                }
            }
            assert forall|k: Seq<u8>| has_stem(s2, k) implies stem_pos(s2, k) == stem_pos(s0, k) by {
                let b = stem_pos(s0, k);
                assert(s2[b].stem@ == k);
            }
            let m2 = bindings_of(s2);
            assert forall|x: Seq<u8>| #[trigger] m2.contains_key(x) <==> m0.remove(key@).contains_key(x) by {
                if x.len() == 32 && has_stem(s0, x.take(31)) {
                    let p = stem_pos(s0, x.take(31));
                    if p == idx && x[31] == sub {
                        lemma_key_parts(x, key@);
                    }
                }
            }
            assert forall|x: Seq<u8>| #[trigger] m2.contains_key(x) implies m2[x] == m0.remove(key@)[x] by {}
            assert(m2 =~= m0.remove(key@));
        }
    }
    stem
}

/// A key is its stem and its slot.
pub proof fn lemma_key_parts(x: Seq<u8>, y: Seq<u8>)
    requires
        x.len() == 32,
        y.len() == 32,
        x.take(31) == y.take(31),
        x[31] == y[31],
    ensures
        x == y,
{
    assert forall|i: int| 0 <= i < 32 implies x[i] == y[i] by {
        if i < 31 {
            assert(x.take(31)[i] == x[i]);
            assert(y.take(31)[i] == y[i]);
        }
    }
    assert(x =~= y);
}

/// A list with the stems of a sorted list, position by position, is sorted.
pub proof fn lemma_same_stems_sorted(a: Seq<StemBucket>, b: Seq<StemBucket>)
    requires
        stems_sorted(a),
        a.len() == b.len(),
        forall|i: int| 0 <= i < a.len() ==> (#[trigger] b[i]).stem@ == a[i].stem@,
    ensures
        stems_sorted(b),
{
    assert forall|i: int, j: int| 0 <= i < j < b.len() implies lex_lt(b[i].stem@, b[j].stem@) by {
        assert(lex_lt(a[i].stem@, a[j].stem@));
    }
}

/// Some stem of the list is `k`.
pub open spec fn touched_has(t: Seq<Stem>, k: Seq<u8>) -> bool {
    exists|i: int| 0 <= i < t.len() && (#[trigger] t[i])@ == k
}

/// Writing one more entry.
pub proof fn lemma_apply_step(m: Map<Seq<u8>, Seq<u8>>, e: Seq<(Bytes32, Bytes32)>, i: int)
    requires
        0 <= i < e.len(),
    ensures
        apply_entries(m, e.take(i + 1)) == apply_entries(m, e.take(i)).insert(e[i].0@, e[i].1@),
{
    assert(e.take(i + 1).drop_last() =~= e.take(i));
    assert(e.take(i + 1).last() == e[i]);
}

/// Writes every entry into the buckets, in order, and returns the stems that
/// were written to. The cached hashes of those buckets are left as they were.
pub fn write_entries(stems: &mut Vec<StemBucket>, entries: &[(Bytes32, Bytes32)]) -> (out: Vec<Stem>)
    requires
        stems_sorted(old(stems)@),
        buckets_shaped(old(stems)@),
    ensures
        stems_sorted(final(stems)@),
        buckets_shaped(final(stems)@),
        bindings_of(final(stems)@) == apply_entries(bindings_of(old(stems)@), entries@),
        forall|i: int|
            0 <= i < final(stems)@.len() && !touched_has(out@, (#[trigger] final(stems)@[i]).stem@)
                ==> old(stems)@.contains(final(stems)@[i]),
        forall|j: int|
            0 <= j < old(stems)@.len() ==> has_stem(final(stems)@, (#[trigger] old(stems)@[j]).stem@),
        forall|t: int| 0 <= t < out@.len() ==> has_stem(final(stems)@, (#[trigger] out@[t])@),
{
    let ghost s0 = stems@;
    let ghost m0 = bindings_of(s0);
    let mut touched: Vec<Stem> = Vec::new();
    let mut i: usize = 0;
    proof {
        assert(entries@.take(0) =~= Seq::<(Bytes32, Bytes32)>::empty());
        assert forall|k: int| 0 <= k < s0.len() implies has_stem(s0, (#[trigger] s0[k]).stem@) by {}
        assert forall|k: int| 0 <= k < s0.len() implies s0.contains(#[trigger] s0[k]) by {}
    }
    while i < entries.len()
        invariant
            i <= entries@.len(),
            stems_sorted(stems@),
            buckets_shaped(stems@),
            bindings_of(stems@) == apply_entries(m0, entries@.take(i as int)),
            forall|k: int|
                0 <= k < stems@.len() && !touched_has(touched@, (#[trigger] stems@[k]).stem@)
                    ==> s0.contains(stems@[k]),
            forall|j: int| 0 <= j < s0.len() ==> has_stem(stems@, (#[trigger] s0[j]).stem@),
            forall|t: int| 0 <= t < touched@.len() ==> has_stem(stems@, (#[trigger] touched@[t])@),
        decreases entries@.len() - i,
    {
        let ghost s1 = stems@;
        let ghost t1 = touched@;
        let key: Bytes32 = entries[i].0;
        let value: Bytes32 = entries[i].1;
        let stem = put_binding(stems, &key, &value);
        let repeat = touched.len() > 0 && stems_equal(&touched[touched.len() - 1], &stem);
        if !repeat {
            touched.push(stem);
        }
        proof {
            let s2 = stems@;
            let t2 = touched@;
            lemma_apply_step(m0, entries@, i as int);
            assert(touched_has(t2, stem@)) by {
                if repeat {
                    assert(t2[t2.len() - 1]@ == stem@);
                } else {
                    assert(t2[t2.len() - 1]@ == stem@);
                }
            }
            assert forall|k: Seq<u8>| touched_has(t1, k) implies touched_has(t2, k) by {
                let a = choose|a: int| 0 <= a < t1.len() && (#[trigger] t1[a])@ == k;
                assert(t2[a]@ == k);
            }
            assert forall|k: int| 0 <= k < s2.len() && !touched_has(t2, (#[trigger] s2[k]).stem@) implies s0.contains(
                s2[k],
            ) by {
                assert(s2[k].stem@ != stem@);
                assert(s1.contains(s2[k]));
                let a = choose|a: int| 0 <= a < s1.len() && s1[a] == s2[k];
                assert(!touched_has(t1, s1[a].stem@));
            }
            assert forall|j: int| 0 <= j < s0.len() implies has_stem(s2, (#[trigger] s0[j]).stem@) by {
                assert(has_stem(s1, s0[j].stem@));
                let a = stem_pos(s1, s0[j].stem@);
                assert(has_stem(s2, s1[a].stem@));
            }
            assert forall|t: int| 0 <= t < t2.len() implies has_stem(s2, (#[trigger] t2[t])@) by {
                if t < t1.len() {
                    assert(t2[t] == t1[t]);
                    assert(has_stem(s1, t1[t]@));
                    let a = stem_pos(s1, t1[t]@);
                    assert(has_stem(s2, s1[a].stem@));
                }
            }
        }
        i += 1;
    }
    assert(entries@.take(entries@.len() as int) =~= entries@);
    touched
}

/// The bucket has its hashes up to date and the stem tree holds its leaf hash.
pub open spec fn in_tree(root: Node, b: StemBucket) -> bool {
    &&& b.wf()
    &&& root.stems().contains_key(b.stem@)
    &&& root.stems()[b.stem@] == b.stem_hash@
}

/// Lists with the same stems and leaves, position by position, hold the same bindings.
pub proof fn lemma_same_leaves(a: Seq<StemBucket>, b: Seq<StemBucket>)
    requires
        a.len() == b.len(),
        stems_distinct(a),
        forall|i: int|
            0 <= i < a.len() ==> (#[trigger] b[i]).stem@ == a[i].stem@ && b[i].leaves@ == a[i].leaves@,
    ensures
        bindings_of(a) == bindings_of(b),
        buckets_shaped(a) ==> buckets_shaped(b),
{
    assert forall|k: Seq<u8>| has_stem(a, k) <==> has_stem(b, k) by {
        if has_stem(a, k) {
            assert(b[stem_pos(a, k)].stem@ == k);
        }
        if has_stem(b, k) {
            assert(a[stem_pos(b, k)].stem@ == k);
        }
    }
    assert forall|k: Seq<u8>| has_stem(a, k) implies a[stem_pos(a, k)].bindings() == b[stem_pos(
        b,
        k,
    )].bindings() by {
        let p = stem_pos(a, k);
        let q = stem_pos(b, k);
        assert(b[p].stem@ == k);
        assert(a[q].stem@ == k);
        assert(p == q);
    }
    assert(bindings_of(a) =~= bindings_of(b));
    if buckets_shaped(a) {
        assert forall|i: int| 0 <= i < b.len() implies leaves_sorted((#[trigger] b[i]).leaves@)
            && b[i].leaves@.len() > 0 by {
            assert(leaves_sorted(a[i].leaves@));
        }
    }
}

/// Lists with the same stems and leaf hashes, position by position, give the
/// same leaf hash to every stem.
pub proof fn lemma_same_hashes(a: Seq<StemBucket>, b: Seq<StemBucket>)
    requires
        a.len() == b.len(),
        stems_distinct(a),
        forall|i: int|
            0 <= i < a.len() ==> (#[trigger] b[i]).stem == a[i].stem && b[i].stem_hash
                == a[i].stem_hash,
    ensures
        bucket_hashes(a) == bucket_hashes(b),
        stems_distinct(b),
{
    assert forall|i: int, j: int| 0 <= i < b.len() && 0 <= j < b.len() && i != j implies b[i].stem@
        != b[j].stem@ by {
        assert(a[i].stem@ != a[j].stem@);
    }
    assert forall|k: Seq<u8>| has_stem(a, k) <==> has_stem(b, k) by {
        if has_stem(a, k) {
            assert(b[stem_pos(a, k)].stem@ == k);
        }
        if has_stem(b, k) {
            assert(a[stem_pos(b, k)].stem@ == k);
        }
    }
    assert forall|k: Seq<u8>| has_stem(a, k) implies a[stem_pos(a, k)].stem_hash@ == b[stem_pos(
        b,
        k,
    )].stem_hash@ by {
        let p = stem_pos(a, k);
        let q = stem_pos(b, k);
        assert(a[q].stem@ == k);
        assert(p == q);
    }
    assert(bucket_hashes(a) =~= bucket_hashes(b));
}

/// Brings the cached hashes of every bucket whose stem is in `touched` up to date.
pub fn rehash_touched(stems: &mut Vec<StemBucket>, touched: &Vec<Stem>)
    requires
        stems_sorted(old(stems)@),
        buckets_shaped(old(stems)@),
        forall|i: int|
            0 <= i < old(stems)@.len() ==> (#[trigger] old(stems)@[i]).wf() || touched_has(
                touched@,
                old(stems)@[i].stem@,
            ),
    ensures
        stems_sorted(final(stems)@),
        buckets_wf(final(stems)@),
        bindings_of(final(stems)@) == bindings_of(old(stems)@),
        final(stems)@.len() == old(stems)@.len(),
{
    let ghost s0 = stems@;
    let mut t: usize = 0;
    proof {
        assert(touched@.skip(0) =~= touched@);
    }
    while t < touched.len()
        invariant
            t <= touched@.len(),
            stems@.len() == s0.len(),
            stems_sorted(stems@),
            buckets_shaped(stems@),
            bindings_of(stems@) == bindings_of(s0),
            forall|i: int|
                0 <= i < stems@.len() ==> (#[trigger] stems@[i]).wf() || touched_has(
                    touched@.skip(t as int),
                    stems@[i].stem@,
                ),
        decreases touched@.len() - t,
    {
        let ghost sa = stems@;
        let (found, idx) = find_stem(stems, &touched[t]);
        if found {
            stems[idx].recompute_hashes();
        }
        proof {
            let sb = stems@;
            lemma_sorted_distinct(sa);
            assert forall|i: int| 0 <= i < sa.len() implies (#[trigger] sb[i]).stem@ == sa[i].stem@
                && sb[i].leaves@ == sa[i].leaves@ by {}
            lemma_same_leaves(sa, sb);
            lemma_same_stems_sorted(sa, sb);
            assert forall|i: int| 0 <= i < sb.len() implies (#[trigger] sb[i]).wf() || touched_has(
                touched@.skip(t + 1),
                sb[i].stem@,
            ) by {
                if !(found && i == idx) {
                    assert(sb[i] == sa[i]);
                    if !sa[i].wf() {
                        let a = choose|a: int|
                            0 <= a < touched@.skip(t as int).len() && (#[trigger] touched@.skip(
                                t as int,
                            )[a])@ == sa[i].stem@;
                        if a == 0 {
                            assert(has_stem(sa, touched@[t as int]@));
                        } else {
                            assert(touched@.skip(t + 1)[a - 1]@ == sa[i].stem@);
                        }
                    }
                }
            }
        }
        t += 1;
    }
    proof {
        assert forall|i: int| 0 <= i < stems@.len() implies (#[trigger] stems@[i]).wf() && stems@[i].leaves@.len()
            > 0 by {
            if touched_has(touched@.skip(t as int), stems@[i].stem@) {
            }
        }
    }
}

/// Some entry of the list is for key `k`.
pub open spec fn has_key(e: Seq<(Bytes32, Bytes32)>, k: Seq<u8>) -> bool {
    exists|i: int| 0 <= i < e.len() && (#[trigger] e[i]).0@ == k
}

/// Entry `i` is the last entry of the list for its key.
pub open spec fn is_last_write(e: Seq<(Bytes32, Bytes32)>, i: int) -> bool {
    &&& 0 <= i < e.len()
    &&& forall|j: int| i < j < e.len() ==> (#[trigger] e[j]).0@ != e[i].0@
}

/// After a list of writes a key is bound if it was bound before or was written.
pub proof fn lemma_apply_entries_domain(
    m: Map<Seq<u8>, Seq<u8>>,
    e: Seq<(Bytes32, Bytes32)>,
    k: Seq<u8>,
)
    ensures
        apply_entries(m, e).contains_key(k) <==> (m.contains_key(k) || has_key(e, k)),
        !has_key(e, k) && m.contains_key(k) ==> apply_entries(m, e)[k] == m[k],
    decreases e.len(),
{
    if e.len() > 0 {
        let d = e.drop_last();
        lemma_apply_entries_domain(m, d, k);
        if has_key(d, k) {
            let i = choose|i: int| 0 <= i < d.len() && (#[trigger] d[i]).0@ == k;
            assert(e[i].0@ == k);
        }
        if has_key(e, k) {
            let i = choose|i: int| 0 <= i < e.len() && (#[trigger] e[i]).0@ == k;
            if i < d.len() {
                assert(d[i].0@ == k);
            }
        }
        if e.last().0@ == k {
            assert(e[e.len() - 1].0@ == k);
        }
    }
}

/// Last-write-wins: after a list of writes, the value under a key is that of
/// the last entry for the key.
pub proof fn lemma_last_write_wins(m: Map<Seq<u8>, Seq<u8>>, e: Seq<(Bytes32, Bytes32)>, i: int)
    requires
        is_last_write(e, i),
    ensures
        apply_entries(m, e).contains_key(e[i].0@),
        apply_entries(m, e)[e[i].0@] == e[i].1@,
    decreases e.len(),
{
    if i < e.len() - 1 {
        let d = e.drop_last();
        assert(d[i] == e[i]);
        assert(is_last_write(d, i)) by {
            assert forall|j: int| i < j < d.len() implies (#[trigger] d[j]).0@ != d[i].0@ by {
                assert(d[j] == e[j]);
            }
        }
        lemma_last_write_wins(m, d, i);
        assert(e[e.len() - 1].0@ != e[i].0@);
    }
}

/// Every key that a list writes has a last entry.
pub proof fn lemma_last_write_exists(e: Seq<(Bytes32, Bytes32)>, k: Seq<u8>) -> (i: int)
    requires
        has_key(e, k),
    ensures
        is_last_write(e, i),
        e[i].0@ == k,
    decreases e.len(),
{
    let n = e.len() - 1;
    if e[n].0@ == k {
        n
    } else {
        let d = e.drop_last();
        let w = choose|w: int| 0 <= w < e.len() && (#[trigger] e[w]).0@ == k;
        assert(d[w].0@ == k);
        let i = lemma_last_write_exists(d, k);
        assert(d[i] == e[i]);
        assert forall|j: int| i < j < e.len() implies (#[trigger] e[j]).0@ != e[i].0@ by {
            if j < n {
                assert(d[j] == e[j]);
            }
        }
        i
    }
}

/// No two entries of the list are for the same key.
pub open spec fn keys_distinct(e: Seq<(Bytes32, Bytes32)>) -> bool {
    forall|i: int, j: int| 0 <= i < e.len() && 0 <= j < e.len() && i != j ==> e[i].0@ != e[j].0@
}

/// Incrementality: writing a list of entries at once binds what writing a
/// first part and then the rest binds. So a tree built from a base and a
/// delta together has the state root of the tree built from the base and
/// updated with the delta.
pub proof fn lemma_apply_entries_concat(
    m: Map<Seq<u8>, Seq<u8>>,
    base: Seq<(Bytes32, Bytes32)>,
    delta: Seq<(Bytes32, Bytes32)>,
)
    ensures
        apply_entries(m, base + delta) == apply_entries(apply_entries(m, base), delta),
    decreases delta.len(),
{
    if delta.len() == 0 {
        assert(base + delta =~= base);
    } else {
        lemma_apply_entries_concat(m, base, delta.drop_last());
        assert((base + delta).drop_last() =~= base + delta.drop_last());
        assert((base + delta).last() == delta.last());
    }
}

/// Determinism: two lists with the same entries in different orders, of
/// which no key occurs twice, bind the same; so their trees have the same
/// state root, however they were written.
pub proof fn lemma_order_independent(a: Seq<(Bytes32, Bytes32)>, b: Seq<(Bytes32, Bytes32)>)
    requires
        a.to_multiset() == b.to_multiset(),
        keys_distinct(a),
    ensures
        apply_entries(Map::<Seq<u8>, Seq<u8>>::empty(), a) == apply_entries(
            Map::<Seq<u8>, Seq<u8>>::empty(),
            b,
        ),
        state_root_of(apply_entries(Map::<Seq<u8>, Seq<u8>>::empty(), a)) == state_root_of(
            apply_entries(Map::<Seq<u8>, Seq<u8>>::empty(), b),
        ),
{
    broadcast use vstd::seq_lib::group_to_multiset_ensures;

    let empty = Map::<Seq<u8>, Seq<u8>>::empty();
    let ma = apply_entries(empty, a);
    let mb = apply_entries(empty, b);
    // The entries of `b` have distinct keys too.
    assert(a.no_duplicates()) by {
        assert forall|i: int, j: int| 0 <= i < a.len() && 0 <= j < a.len() && i != j implies a[i]
            != a[j] by {
            assert(a[i].0@ != a[j].0@);
        }
    }
    a.lemma_multiset_has_no_duplicates();
    b.lemma_multiset_has_no_duplicates_conv();
    assert forall|i: int| 0 <= i < b.len() implies a.contains(#[trigger] b[i]) by {
        assert(b.contains(b[i]));
        assert(a.to_multiset().count(b[i]) > 0);
    }
    assert forall|i: int| 0 <= i < a.len() implies b.contains(#[trigger] a[i]) by {
        assert(a.contains(a[i]));
        assert(b.to_multiset().count(a[i]) > 0);
    }
    assert(keys_distinct(b)) by {
        assert forall|i: int, j: int| 0 <= i < b.len() && 0 <= j < b.len() && i != j implies b[i].0@
            != b[j].0@ by {
            let i2 = choose|i2: int| 0 <= i2 < a.len() && a[i2] == b[i];
            let j2 = choose|j2: int| 0 <= j2 < a.len() && a[j2] == b[j];
            assert(a.contains(b[i]) && a.contains(b[j]));
            assert(b[i] != b[j]);
        }
    }
    assert forall|k: Seq<u8>| #[trigger] ma.contains_key(k) <==> mb.contains_key(k) by {
        lemma_apply_entries_domain(empty, a, k);
        lemma_apply_entries_domain(empty, b, k);
        if has_key(a, k) {
            let i = choose|i: int| 0 <= i < a.len() && (#[trigger] a[i]).0@ == k;
            assert(b.contains(a[i]));
            let j = choose|j: int| 0 <= j < b.len() && b[j] == a[i];
            assert(b[j].0@ == k);
        }
        if has_key(b, k) {
            let i = choose|i: int| 0 <= i < b.len() && (#[trigger] b[i]).0@ == k;
            assert(a.contains(b[i]));
            let j = choose|j: int| 0 <= j < a.len() && a[j] == b[i];
            assert(a[j].0@ == k);
        }
    }
    assert forall|k: Seq<u8>| #[trigger] ma.contains_key(k) implies ma[k] == mb[k] by {
        lemma_apply_entries_domain(empty, a, k);
        let i = choose|i: int| 0 <= i < a.len() && (#[trigger] a[i]).0@ == k;
        assert(b.contains(a[i]));
        let j = choose|j: int| 0 <= j < b.len() && b[j] == a[i];
        assert(is_last_write(a, i));
        assert(is_last_write(b, j));
        lemma_last_write_wins(empty, a, i);
        lemma_last_write_wins(empty, b, j);
    }
    assert(ma =~= mb);
}

/// Delete inverts insert: binding a key that was not bound and taking the
/// binding away again leaves the bindings, and with them the state root,
/// as they were.
pub proof fn lemma_delete_inverts_insert(m: Map<Seq<u8>, Seq<u8>>, entry: (Bytes32, Bytes32))
    requires
        !m.contains_key(entry.0@),
    ensures
        remove_keys(apply_entries(m, seq![entry]), seq![entry.0]) == m,
        state_root_of(remove_keys(apply_entries(m, seq![entry]), seq![entry.0])) == state_root_of(m),
{
    let e = seq![entry];
    let k = seq![entry.0];
    assert(e.drop_last() =~= Seq::<(Bytes32, Bytes32)>::empty());
    assert(k.drop_last() =~= Seq::<Bytes32>::empty());
    assert(apply_entries(m, e.drop_last()) == m);
    assert(e.last() == entry);
    assert(apply_entries(m, e) == m.insert(entry.0@, entry.1@));
    assert(remove_keys(m.insert(entry.0@, entry.1@), k.drop_last()) == m.insert(entry.0@, entry.1@));
    assert(k.last() == entry.0);
    assert(remove_keys(m.insert(entry.0@, entry.1@), k) == m.insert(entry.0@, entry.1@).remove(
        entry.0@,
    ));
    assert(m.insert(entry.0@, entry.1@).remove(entry.0@) =~= m);
}

/// Empty root: the state root of no bindings is thirty-two zero bytes.
pub proof fn lemma_empty_root()
    ensures
        state_root_of(Map::<Seq<u8>, Seq<u8>>::empty()) == crate::hash::zero32(),
{
    let m = Map::<Seq<u8>, Seq<u8>>::empty();
    assert forall|stem: Seq<u8>| !#[trigger] stem_hashes(m).contains_key(stem) by {
        if stem_is_bound(m, stem) {
            let sub = choose|sub: u8| #[trigger] m.contains_key(stem.push(sub));
        }
    }
    assert(crate::node::none_under(stem_hashes(m), Seq::<bool>::empty()));
}

} // verus!
