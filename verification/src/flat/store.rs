//! The ordered store of the flat engine: nodes by key, in the order of the keys.

use crate::flat::key::{
    key_le, key_less, key_lt, lemma_key_asymmetric, lemma_key_total, lemma_key_transitive, KeySpec,
    NodeKey,
};
use crate::flat::path::masked;
use crate::hash::Bytes32;
use vstd::prelude::*;

verus! {

/// One node of the store: its key and its hash.
pub type Entry = (NodeKey, Bytes32);

/// The entries stand in strictly increasing order of their keys.
pub open spec fn entries_sorted(s: Seq<Entry>) -> bool {
    forall|i: int, j: int| 0 <= i < j < s.len() ==> key_lt(s[i].0@, s[j].0@)
}

/// Some entry has key `k`.
pub open spec fn has_entry(s: Seq<Entry>, k: KeySpec) -> bool {
    exists|i: int| 0 <= i < s.len() && (#[trigger] s[i]).0@ == k
}

/// The position of the entry with key `k`.
pub open spec fn entry_pos(s: Seq<Entry>, k: KeySpec) -> int {
    choose|i: int| 0 <= i < s.len() && (#[trigger] s[i]).0@ == k
}

/// The entries as a map from key to hash.
pub open spec fn entries_map(s: Seq<Entry>) -> Map<KeySpec, Seq<u8>> {
    Map::new(|k: KeySpec| has_entry(s, k), |k: KeySpec| s[entry_pos(s, k)].1@)
}

/// A key that the store may hold: at most 256 bits, and zeros behind them.
pub open spec fn key_valid(k: KeySpec) -> bool {
    &&& k.0.len() == 32
    &&& 0 <= k.1 <= 256
    &&& masked(k.0, k.1) == k.0
}

/// Whether `key` is one that the store may hold.
pub fn is_valid_key(key: &NodeKey) -> (out: bool)
    ensures
        out == key_valid(key@),
{
    if key.len > 256 {
        return false;
    }
    let mut copy = key.path;
    crate::flat::path::mask_after_be(&mut copy, key.len);
    crate::flat::key::paths_equal(&copy, &key.path)
}

/// `k` is the greatest key of `m` that is not behind `bound`.
pub open spec fn is_greatest_le(m: Map<KeySpec, Seq<u8>>, bound: KeySpec, k: KeySpec) -> bool {
    &&& m.contains_key(k)
    &&& key_le(k, bound)
    &&& forall|o: KeySpec| #[trigger] m.contains_key(o) && key_le(o, bound) ==> key_le(o, k)
}

/// `k` is the least key of `m` that is not before `bound`.
pub open spec fn is_least_ge(m: Map<KeySpec, Seq<u8>>, bound: KeySpec, k: KeySpec) -> bool {
    &&& m.contains_key(k)
    &&& key_le(bound, k)
    &&& forall|o: KeySpec| #[trigger] m.contains_key(o) && key_le(bound, o) ==> key_le(k, o)
}

/// `k` is the least key of `m` behind `bound`.
pub open spec fn is_least_gt(m: Map<KeySpec, Seq<u8>>, bound: KeySpec, k: KeySpec) -> bool {
    &&& m.contains_key(k)
    &&& key_lt(bound, k)
    &&& forall|o: KeySpec| #[trigger] m.contains_key(o) && key_lt(bound, o) ==> key_le(k, o)
}

/// No key of `m` is at or before `bound`.
pub open spec fn none_le(m: Map<KeySpec, Seq<u8>>, bound: KeySpec) -> bool {
    forall|o: KeySpec| #[trigger] m.contains_key(o) ==> !key_le(o, bound)
}

/// No key of `m` is at or behind `bound`.
pub open spec fn none_ge(m: Map<KeySpec, Seq<u8>>, bound: KeySpec) -> bool {
    forall|o: KeySpec| #[trigger] m.contains_key(o) ==> !key_le(bound, o)
}

/// No key of `m` is behind `bound`.
pub open spec fn none_gt(m: Map<KeySpec, Seq<u8>>, bound: KeySpec) -> bool {
    forall|o: KeySpec| #[trigger] m.contains_key(o) ==> !key_lt(bound, o)
}

/// In a sorted list each key is looked up at its own position.
pub proof fn lemma_entry_at(s: Seq<Entry>, i: int)
    requires
        entries_sorted(s),
        0 <= i < s.len(),
    ensures
        entries_map(s).contains_key(s[i].0@),
        entries_map(s)[s[i].0@] == s[i].1@,
        entry_pos(s, s[i].0@) == i,
{
    assert(has_entry(s, s[i].0@));
    let p = entry_pos(s, s[i].0@);
    if p < i {
        lemma_key_asymmetric(s[p].0@, s[i].0@);
    } else if i < p {
        lemma_key_asymmetric(s[i].0@, s[p].0@);
    }
}

/// The nodes of the flat engine, in the order of their keys.
pub struct FlatStore {
    /// The nodes, in strictly increasing order of their keys.
    pub entries: Vec<Entry>,
}

impl View for FlatStore {
    type V = Map<KeySpec, Seq<u8>>;

    open spec fn view(&self) -> Map<KeySpec, Seq<u8>> {
        entries_map(self.entries@)
    }
}

impl FlatStore {
    /// The entries stand in order, and every key is one that the store may hold.
    pub open spec fn wf(&self) -> bool {
        &&& entries_sorted(self.entries@)
        &&& forall|i: int| 0 <= i < self.entries@.len() ==> key_valid((#[trigger] self.entries@[i]).0@)
    }

    /// The store without nodes.
    pub fn new() -> (out: Self)
        ensures
            out.wf(),
            out@ == Map::<KeySpec, Seq<u8>>::empty(),
    {
        let out = FlatStore { entries: Vec::new() };
        assert(out@ =~= Map::<KeySpec, Seq<u8>>::empty());
        out
    }

    /// The number of nodes.
    pub fn len(&self) -> (out: usize)
        ensures
            out == self.entries@.len(),
    {
        self.entries.len()
    }

    /// Where `key` stands among the entries, or where it would have to be put.
    pub fn find(&self, key: &NodeKey) -> (out: (bool, usize))
        requires
            entries_sorted(self.entries@),
        ensures
            out.1 <= self.entries@.len(),
            out.0 ==> out.1 < self.entries@.len() && self.entries@[out.1 as int].0@ == key@,
            out.0 == self@.contains_key(key@),
            forall|i: int| 0 <= i < out.1 ==> key_lt((#[trigger] self.entries@[i]).0@, key@),
            forall|i: int|
                out.1 <= i < self.entries@.len() && !(out.0 && i == out.1) ==> key_lt(
                    key@,
                    (#[trigger] self.entries@[i]).0@,
                ),
    {
        let ghost s = self.entries@;
        let mut lo: usize = 0;
        let mut hi: usize = self.entries.len();
        while lo < hi
            invariant
                lo <= hi <= s.len(),
                s == self.entries@,
                entries_sorted(s),
                forall|i: int| 0 <= i < lo ==> key_lt((#[trigger] s[i]).0@, key@),
                forall|i: int| hi <= i < s.len() ==> key_lt(key@, (#[trigger] s[i]).0@),
            decreases hi - lo,
        {
            let mid = lo + (hi - lo) / 2;
            let ghost mk = s[mid as int].0@;
            if key_less(&self.entries[mid].0, key) {
                proof {
                    assert forall|i: int| 0 <= i < mid + 1 implies key_lt((#[trigger] s[i]).0@, key@) by {
                        if i < mid {
                            assert(key_lt(s[i].0@, mk));
                            lemma_key_transitive(s[i].0@, mk, key@);
                        }
                    }
                }
                lo = mid + 1;
            } else if key_less(key, &self.entries[mid].0) {
                proof {
                    assert forall|i: int| mid <= i < s.len() implies key_lt(key@, (#[trigger] s[i]).0@) by {
                        if i > mid {
                            assert(key_lt(mk, s[i].0@));
                            lemma_key_transitive(key@, mk, s[i].0@);
                        }
                    }
                }
                hi = mid;
            } else {
                proof {
                    lemma_key_total(mk, key@);
                    assert forall|i: int| 0 <= i < mid implies key_lt((#[trigger] s[i]).0@, key@) by {
                        assert(key_lt(s[i].0@, mk));
                    }
                    assert forall|i: int| mid < i < s.len() implies key_lt(key@, (#[trigger] s[i]).0@) by {
                        assert(key_lt(mk, s[i].0@));
                    }
                    assert(has_entry(s, key@));
                }
                return (true, mid);
            }
        }
        proof {
            if has_entry(s, key@) {
                let i = entry_pos(s, key@);
                if i < lo {
                    lemma_key_asymmetric(s[i].0@, key@);
                } else {
                    lemma_key_asymmetric(key@, s[i].0@);
                }
            }
        }
        (false, lo)
    }

    /// The hash of the node with key `key`, if the store holds one.
    pub fn get(&self, key: &NodeKey) -> (out: Option<Bytes32>)
        requires
            entries_sorted(self.entries@),
        ensures
            out is Some <==> self@.contains_key(key@),
            out is Some ==> out->0@ == self@[key@],
    {
        let (found, idx) = self.find(key);
        if found {
            proof {
                lemma_entry_at(self.entries@, idx as int);
            }
            Some(self.entries[idx].1)
        } else {
            None
        }
    }

    /// Whether the store holds a node with key `key`.
    pub fn exists_raw(&self, key: &NodeKey) -> (out: bool)
        requires
            entries_sorted(self.entries@),
        ensures
            out == self@.contains_key(key@),
    {
        let (found, _) = self.find(key);
        found
    }

    /// Puts the node with key `key` and hash `val`, over the node with that
    /// key if the store holds one.
    pub fn insert_raw(&mut self, key: NodeKey, val: Bytes32)
        requires
            old(self).wf(),
            key_valid(key@),
        ensures
            final(self).wf(),
            final(self)@ == old(self)@.insert(key@, val@),
    {
        let ghost s0 = self.entries@;
        let (found, idx) = self.find(&key);
        if found {
            self.entries[idx] = (key, val);
            proof {
                let s1 = self.entries@;
                assert(s1 == s0.update(idx as int, (key, val)));
                assert forall|i: int, j: int| 0 <= i < j < s1.len() implies key_lt(s1[i].0@, s1[j].0@) by {
                    assert(key_lt(s0[i].0@, s0[j].0@));
                }
                assert forall|i: int| 0 <= i < s1.len() implies key_valid((#[trigger] s1[i]).0@) by {
                    if i != idx {
                        assert(s1[i] == s0[i]);
                    }
                }
                assert forall|k: KeySpec| has_entry(s1, k) <==> (k == key@ || has_entry(s0, k)) by {
                    if has_entry(s1, k) {
                        assert(s0[entry_pos(s1, k)].0@ == k);
                    }
                    if has_entry(s0, k) {
                        assert(s1[entry_pos(s0, k)].0@ == k);
                    }
                    assert(s1[idx as int].0@ == key@);
                }
                assert forall|k: KeySpec| has_entry(s1, k) implies #[trigger] entries_map(s1)[k]
                    == entries_map(s0).insert(key@, val@)[k] by {
                    let j = entry_pos(s1, k);
                    lemma_entry_at(s1, j);
                    if k != key@ {
                        assert(s0[j] == s1[j]);
                        lemma_entry_at(s0, j);
                    } else {
                        lemma_entry_at(s1, idx as int);
                    }
                }
                assert(entries_map(s1) =~= entries_map(s0).insert(key@, val@));
            }
        } else {
            self.entries.insert(idx, (key, val));
            proof {
                let s1 = self.entries@;
                assert(s1 == s0.insert(idx as int, (key, val)));
                assert forall|i: int, j: int| 0 <= i < j < s1.len() implies key_lt(s1[i].0@, s1[j].0@) by {
                    if i < idx && j > idx {
                        assert(key_lt(s0[i].0@, s0[j - 1].0@));
                    } else if i > idx {
                        assert(key_lt(s0[i - 1].0@, s0[j - 1].0@));
                    } else if j < idx {
                        assert(key_lt(s0[i].0@, s0[j].0@));
                    } else if i == idx {
                        assert(key_lt(key@, s0[j - 1].0@));
                    } else {
                        assert(key_lt(s0[i].0@, key@));
                    }
                }
                assert forall|i: int| 0 <= i < s1.len() implies key_valid((#[trigger] s1[i]).0@) by {
                    if i < idx {
                        assert(s1[i] == s0[i]);
                    } else if i > idx {
                        assert(s1[i] == s0[i - 1]);
                    }
                }
                assert forall|k: KeySpec| has_entry(s1, k) <==> (k == key@ || has_entry(s0, k)) by {
                    if has_entry(s1, k) {
                        let p = entry_pos(s1, k);
                        if p < idx {
                            assert(s0[p].0@ == k);
                        } else if p > idx {
                            assert(s0[p - 1].0@ == k);
                        }
                    }
                    if has_entry(s0, k) {
                        let p = entry_pos(s0, k);
                        if p < idx {
                            assert(s1[p].0@ == k);
                        } else {
                            assert(s1[p + 1].0@ == k);
                        }
                    }
                    assert(s1[idx as int].0@ == key@);
                }
                assert forall|k: KeySpec| has_entry(s1, k) implies #[trigger] entries_map(s1)[k]
                    == entries_map(s0).insert(key@, val@)[k] by {
                    let j = entry_pos(s1, k);
                    lemma_entry_at(s1, j);
                    if j < idx {
                        assert(s0[j] == s1[j]);
                        lemma_entry_at(s0, j);
                    } else if j > idx {
                        assert(s0[j - 1] == s1[j]);
                        lemma_entry_at(s0, j - 1);
                    }
                }
                assert(entries_map(s1) =~= entries_map(s0).insert(key@, val@));
            }
        }
    }

    /// Takes away the node with key `key`, if the store holds one.
    pub fn remove_raw(&mut self, key: &NodeKey)
        requires
            old(self).wf(),
        ensures
            final(self).wf(),
            final(self)@ == old(self)@.remove(key@),
    {
        let ghost s0 = self.entries@;
        let (found, idx) = self.find(key);
        if found {
            self.entries.remove(idx);
            proof {
                let s1 = self.entries@;
                assert(s1 == s0.remove(idx as int));
                assert forall|i: int, j: int| 0 <= i < j < s1.len() implies key_lt(s1[i].0@, s1[j].0@) by {
                    let a = if i < idx {
                        i
                    } else {
                        i + 1
                    };
                    let b = if j < idx {
                        j
                    } else {
                        j + 1
                    };
                    assert(key_lt(s0[a].0@, s0[b].0@));
                }
                assert forall|i: int| 0 <= i < s1.len() implies key_valid((#[trigger] s1[i]).0@) by {
                    if i < idx {
                        assert(s1[i] == s0[i]);
                    } else {
                        assert(s1[i] == s0[i + 1]);
                    }
                }
                assert forall|k: KeySpec| has_entry(s1, k) <==> (k != key@ && has_entry(s0, k)) by {
                    if has_entry(s1, k) {
                        let p = entry_pos(s1, k);
                        if p < idx {
                            assert(s0[p].0@ == k);
                            lemma_key_asymmetric(s0[p].0@, s0[idx as int].0@);
                        } else {
                            assert(s0[p + 1].0@ == k);
                            lemma_key_asymmetric(s0[idx as int].0@, s0[p + 1].0@);
                        }
                    }
                    if k != key@ && has_entry(s0, k) {
                        let p = entry_pos(s0, k);
                        if p < idx {
                            assert(s1[p].0@ == k);
                        } else {
                            assert(s1[p - 1].0@ == k);
                        }
                    }
                }
                assert forall|k: KeySpec| has_entry(s1, k) implies #[trigger] entries_map(s1)[k]
                    == entries_map(s0)[k] by {
                    let j = entry_pos(s1, k);
                    lemma_entry_at(s1, j);
                    if j < idx {
                        assert(s0[j] == s1[j]);
                        lemma_entry_at(s0, j);
                    } else {
                        assert(s0[j + 1] == s1[j]);
                        lemma_entry_at(s0, j + 1);
                    }
                }
                assert(entries_map(s1) =~= entries_map(s0).remove(key@));
            }
        } else {
            assert(self@ =~= old(self)@.remove(key@));
        }
    }
}

/// The key of the leaf with path `path`.
pub open spec fn leaf_key(path: Seq<u8>) -> KeySpec {
    (path, 256)
}

/// `k` is the last leaf of `m` before the leaf with path `path`.
pub open spec fn is_prev_leaf(m: Map<KeySpec, Seq<u8>>, path: Seq<u8>, k: KeySpec) -> bool {
    &&& m.contains_key(k)
    &&& k.1 == 256
    &&& key_lt(k, leaf_key(path))
    &&& forall|o: KeySpec|
        #[trigger] m.contains_key(o) && o.1 == 256 && key_lt(o, leaf_key(path)) ==> key_le(o, k)
}

/// `k` is the first leaf of `m` behind the leaf with path `path`.
pub open spec fn is_next_leaf(m: Map<KeySpec, Seq<u8>>, path: Seq<u8>, k: KeySpec) -> bool {
    &&& m.contains_key(k)
    &&& k.1 == 256
    &&& key_lt(leaf_key(path), k)
    &&& forall|o: KeySpec|
        #[trigger] m.contains_key(o) && o.1 == 256 && key_lt(leaf_key(path), o) ==> key_le(k, o)
}

/// No leaf of `m` stands before the leaf with path `path`.
pub open spec fn no_prev_leaf(m: Map<KeySpec, Seq<u8>>, path: Seq<u8>) -> bool {
    forall|o: KeySpec| #[trigger] m.contains_key(o) && o.1 == 256 ==> !key_lt(o, leaf_key(path))
}

/// No leaf of `m` stands behind the leaf with path `path`.
pub open spec fn no_next_leaf(m: Map<KeySpec, Seq<u8>>, path: Seq<u8>) -> bool {
    forall|o: KeySpec| #[trigger] m.contains_key(o) && o.1 == 256 ==> !key_lt(leaf_key(path), o)
}

impl FlatStore {
    /// The entry at a position, as key and hash.
    fn entry_at(&self, idx: usize) -> (out: (NodeKey, Bytes32))
        requires
            entries_sorted(self.entries@),
            idx < self.entries@.len(),
        ensures
            out == self.entries@[idx as int],
            self@.contains_key(out.0@),
            self@[out.0@] == out.1@,
    {
        proof {
            lemma_entry_at(self.entries@, idx as int);
        }
        self.entries[idx]
    }

    /// The position of the last node at or before `key`.
    pub fn seek_prev_index(&self, key: &NodeKey) -> (out: Option<usize>)
        requires
            entries_sorted(self.entries@),
        ensures
            match out {
                Some(i) => i < self.entries@.len() && is_greatest_le(
                    self@,
                    key@,
                    self.entries@[i as int].0@,
                ) && self@[self.entries@[i as int].0@] == self.entries@[i as int].1@ && forall|j: int|
                    i < j < self.entries@.len() ==> key_lt(key@, (#[trigger] self.entries@[j]).0@),
                None => none_le(self@, key@),
            },
    {
        let ghost s = self.entries@;
        let (found, idx) = self.find(key);
        if found {
            proof {
                lemma_entry_at(s, idx as int);
                assert forall|o: KeySpec| #[trigger] self@.contains_key(o) && key_le(o, key@) implies key_le(
                    o,
                    s[idx as int].0@,
                ) by {}
            }
            Some(idx)
        } else if idx > 0 {
            proof {
                lemma_entry_at(s, idx - 1);
                assert forall|o: KeySpec| #[trigger] self@.contains_key(o) && key_le(o, key@) implies key_le(
                    o,
                    s[idx - 1].0@,
                ) by {
                    let j = entry_pos(s, o);
                    if j >= idx {
                        lemma_key_asymmetric(key@, s[j].0@);
                    } else if j < idx - 1 {
                        assert(key_lt(s[j].0@, s[idx - 1].0@));
                    }
                }
            }
            Some(idx - 1)
        } else {
            proof {
                assert forall|o: KeySpec| #[trigger] self@.contains_key(o) implies !key_le(o, key@) by {
                    let j = entry_pos(s, o);
                    lemma_key_asymmetric(key@, s[j].0@);
                }
            }
            None
        }
    }

    /// The last node at or before `key`.
    pub fn seek_prev(&self, key: &NodeKey) -> (out: Option<(NodeKey, Bytes32)>)
        requires
            entries_sorted(self.entries@),
        ensures
            match out {
                Some((k, v)) => is_greatest_le(self@, key@, k@) && self@[k@] == v@,
                None => none_le(self@, key@),
            },
    {
        match self.seek_prev_index(key) {
            Some(i) => Some(self.entries[i]),
            None => None,
        }
    }

    /// The first node at or behind `key`.
    pub fn seek(&self, key: &NodeKey) -> (out: Option<(NodeKey, Bytes32)>)
        requires
            entries_sorted(self.entries@),
        ensures
            match out {
                Some((k, v)) => is_least_ge(self@, key@, k@) && self@[k@] == v@,
                None => none_ge(self@, key@),
            },
    {
        let ghost s = self.entries@;
        let (found, idx) = self.find(key);
        if idx < self.entries.len() {
            let e = self.entry_at(idx);
            proof {
                assert forall|o: KeySpec| #[trigger] self@.contains_key(o) && key_le(key@, o) implies key_le(
                    e.0@,
                    o,
                ) by {
                    let j = entry_pos(s, o);
                    if j < idx {
                        lemma_key_asymmetric(s[j].0@, key@);
                    } else if j > idx {
                        assert(key_lt(s[idx as int].0@, s[j].0@));
                    }
                }
            }
            Some(e)
        } else {
            proof {
                assert forall|o: KeySpec| #[trigger] self@.contains_key(o) implies !key_le(key@, o) by {
                    let j = entry_pos(s, o);
                    lemma_key_asymmetric(s[j].0@, key@);
                }
            }
            None
        }
    }

    /// The first node behind `key`.
    pub fn seek_next(&self, key: &NodeKey) -> (out: Option<(NodeKey, Bytes32)>)
        requires
            entries_sorted(self.entries@),
        ensures
            match out {
                Some((k, v)) => is_least_gt(self@, key@, k@) && self@[k@] == v@,
                None => none_gt(self@, key@),
            },
    {
        let ghost s = self.entries@;
        let n = self.entries.len();
        let (found, idx) = self.find(key);
        let at: usize = if found {
            idx + 1
        } else {
            idx
        };
        if at < n {
            let e = self.entry_at(at);
            proof {
                assert forall|o: KeySpec| #[trigger] self@.contains_key(o) && key_lt(key@, o) implies key_le(
                    e.0@,
                    o,
                ) by {
                    let j = entry_pos(s, o);
                    if j < at {
                        if found && j == idx {
                            lemma_key_asymmetric(key@, o);
                        } else {
                            lemma_key_asymmetric(s[j].0@, key@);
                        }
                    } else if j > at {
                        assert(key_lt(s[at as int].0@, s[j].0@));
                    }
                }
                if found {
                    assert(key_lt(s[idx as int].0@, s[at as int].0@));
                }
            }
            Some(e)
        } else {
            proof {
                assert forall|o: KeySpec| #[trigger] self@.contains_key(o) implies !key_lt(key@, o) by {
                    let j = entry_pos(s, o);
                    if found && j == idx {
                        if key_lt(key@, o) {
                            lemma_key_asymmetric(key@, o);
                        }
                    } else {
                        lemma_key_asymmetric(s[j].0@, key@);
                    }
                }
            }
            None
        }
    }

    /// The first node of the store.
    pub fn first(&self) -> (out: Option<(NodeKey, Bytes32)>)
        requires
            entries_sorted(self.entries@),
        ensures
            match out {
                Some((k, v)) => self@.contains_key(k@) && self@[k@] == v@ && forall|o: KeySpec|
                    #[trigger] self@.contains_key(o) ==> key_le(k@, o),
                None => self@ == Map::<KeySpec, Seq<u8>>::empty(),
            },
    {
        let ghost s = self.entries@;
        if self.entries.len() > 0 {
            let e = self.entry_at(0);
            proof {
                assert forall|o: KeySpec| #[trigger] self@.contains_key(o) implies key_le(e.0@, o) by {
                    let j = entry_pos(s, o);
                    if j > 0 {
                        assert(key_lt(s[0].0@, s[j].0@));
                    }
                }
            }
            Some(e)
        } else {
            assert(self@ =~= Map::<KeySpec, Seq<u8>>::empty());
            None
        }
    }

    /// The last leaf before the leaf with path `path`.
    pub fn prev_leaf(&self, path: &crate::flat::path::Path) -> (out: Option<NodeKey>)
        requires
            entries_sorted(self.entries@),
        ensures
            match out {
                Some(k) => is_prev_leaf(self@, path@, k@),
                None => no_prev_leaf(self@, path@),
            },
    {
        let ghost s = self.entries@;
        let key = NodeKey { path: *path, len: 256 };
        let (found, idx) = self.find(&key);
        let mut i: usize = idx;
        while i > 0
            invariant
                i <= idx <= s.len(),
                s == self.entries@,
                entries_sorted(s),
                key@ == leaf_key(path@),
                found ==> idx < s.len() && s[idx as int].0@ == key@,
                forall|j: int| 0 <= j < idx ==> key_lt((#[trigger] s[j]).0@, key@),
                forall|j: int|
                    idx <= j < s.len() && !(found && j == idx) ==> key_lt(key@, (#[trigger] s[j]).0@),
                forall|j: int| i <= j < idx ==> (#[trigger] s[j]).0.len != 256,
            decreases i,
        {
            i -= 1;
            if self.entries[i].0.len == 256 {
                let e = self.entry_at(i);
                proof {
                    assert forall|o: KeySpec|
                        #[trigger] self@.contains_key(o) && o.1 == 256 && key_lt(o, key@) implies key_le(
                        o,
                        e.0@,
                    ) by {
                        let j = entry_pos(s, o);
                        if j >= idx {
                            if found && j == idx {
                                lemma_key_asymmetric(o, key@);
                            } else {
                                lemma_key_asymmetric(key@, s[j].0@);
                            }
                        } else if j < i {
                            assert(key_lt(s[j].0@, s[i as int].0@));
                        }
                    }
                }
                return Some(e.0);
            }
        }
        proof {
            assert forall|o: KeySpec| #[trigger] self@.contains_key(o) && o.1 == 256 implies !key_lt(
                o,
                key@,
            ) by {
                let j = entry_pos(s, o);
                if found && j == idx {
                    if key_lt(o, key@) {
                        lemma_key_asymmetric(o, key@);
                    }
                } else {
                    lemma_key_asymmetric(key@, s[j].0@);
                }
            }
        }
        None
    }

    /// The first leaf behind the leaf with path `path`.
    pub fn next_leaf(&self, path: &crate::flat::path::Path) -> (out: Option<NodeKey>)
        requires
            entries_sorted(self.entries@),
        ensures
            match out {
                Some(k) => is_next_leaf(self@, path@, k@),
                None => no_next_leaf(self@, path@),
            },
    {
        let ghost s = self.entries@;
        let n = self.entries.len();
        let key = NodeKey { path: *path, len: 256 };
        let (found, idx) = self.find(&key);
        let start: usize = if found {
            idx + 1
        } else {
            idx
        };
        let mut i: usize = start;
        while i < n
            invariant
                start <= i <= s.len(),
                n == s.len(),
                s == self.entries@,
                entries_sorted(s),
                key@ == leaf_key(path@),
                start == if found {
                    idx + 1
                } else {
                    idx as int
                },
                found ==> idx < s.len() && s[idx as int].0@ == key@,
                forall|j: int| 0 <= j < idx ==> key_lt((#[trigger] s[j]).0@, key@),
                forall|j: int|
                    idx <= j < s.len() && !(found && j == idx) ==> key_lt(key@, (#[trigger] s[j]).0@),
                forall|j: int| start <= j < i ==> (#[trigger] s[j]).0.len != 256,
            decreases s.len() - i,
        {
            if self.entries[i].0.len == 256 {
                let e = self.entry_at(i);
                proof {
                    if found {
                        assert(key_lt(s[idx as int].0@, s[i as int].0@));
                    }
                    assert forall|o: KeySpec|
                        #[trigger] self@.contains_key(o) && o.1 == 256 && key_lt(key@, o) implies key_le(
                        e.0@,
                        o,
                    ) by {
                        let j = entry_pos(s, o);
                        if j < start {
                            if found && j == idx {
                                lemma_key_asymmetric(key@, o);
                            } else {
                                lemma_key_asymmetric(s[j].0@, key@);
                            }
                        } else if j > i {
                            assert(key_lt(s[i as int].0@, s[j].0@));
                        }
                    }
                }
                return Some(e.0);
            }
            i += 1;
        }
        proof {
            assert forall|o: KeySpec| #[trigger] self@.contains_key(o) && o.1 == 256 implies !key_lt(
                key@,
                o,
            ) by {
                let j = entry_pos(s, o);
                if j < start {
                    if found && j == idx {
                        if key_lt(key@, o) {
                            lemma_key_asymmetric(key@, o);
                        }
                    } else {
                        lemma_key_asymmetric(s[j].0@, key@);
                    }
                }
            }
        }
        None
    }
}

/// One write to an ordered store of nodes.
#[derive(Debug, Clone, Copy, PartialEq, Eq)]
pub enum StoreWrite {
    /// Puts the node with this key and hash.
    Put(NodeKey, Bytes32),
    /// Takes away the node with this key.
    Delete(NodeKey),
}

/// The store after a list of writes, first to last.
pub open spec fn replay(m: Map<KeySpec, Seq<u8>>, writes: Seq<StoreWrite>) -> Map<KeySpec, Seq<u8>>
    decreases writes.len(),
{
    if writes.len() == 0 {
        m
    } else {
        match writes.last() {
            StoreWrite::Put(k, h) => replay(m, writes.drop_last()).insert(k@, h@),
            StoreWrite::Delete(k) => replay(m, writes.drop_last()).remove(k@),
        }
    }
}

/// `r` holds under `k` what `m` holds under it.
pub open spec fn same_at(r: Map<KeySpec, Seq<u8>>, m: Map<KeySpec, Seq<u8>>, k: KeySpec) -> bool {
    r.contains_key(k) == m.contains_key(k) && (r.contains_key(k) ==> r[k] == m[k])
}

/// `k` comes before the entries of `a` from `i` on and those of `b` from `j` on.
pub open spec fn is_done(a: Seq<Entry>, b: Seq<Entry>, i: int, j: int, k: KeySpec) -> bool {
    &&& k.0.len() == 32
    &&& i < a.len() ==> key_lt(k, a[i].0@)
    &&& j < b.len() ==> key_lt(k, b[j].0@)
}

/// `r` holds what `b` holds under the keys that are done, and what `a` holds
/// under the others.
pub open spec fn merged(r: Map<KeySpec, Seq<u8>>, a: Seq<Entry>, b: Seq<Entry>, i: int, j: int) -> bool {
    forall|k: KeySpec|
        if #[trigger] is_done(a, b, i, j, k) {
            same_at(r, entries_map(b), k)
        } else {
            same_at(r, entries_map(a), k)
        }
}

/// A key before an entry of a sorted list is none of the entries from there on.
proof fn lemma_before_is_absent(s: Seq<Entry>, i: int, k: KeySpec)
    requires
        entries_sorted(s),
        0 <= i <= s.len(),
        i < s.len() ==> key_lt(k, s[i].0@),
        forall|p: int| 0 <= p < i ==> (#[trigger] s[p]).0@ != k,
    ensures
        !entries_map(s).contains_key(k),
{
    if has_entry(s, k) {
        let p = entry_pos(s, k);
        if p > i {
            assert(key_lt(s[i].0@, s[p].0@));
            lemma_key_transitive(k, s[i].0@, s[p].0@);
            lemma_key_asymmetric(k, s[p].0@);
        } else if p == i {
            lemma_key_asymmetric(k, s[i].0@);
        }
    }
}

/// One step of the comparison of two stores keeps the writes so far in line
/// with the stores.
proof fn lemma_diff_step(
    r0: Map<KeySpec, Seq<u8>>,
    r1: Map<KeySpec, Seq<u8>>,
    a: Seq<Entry>,
    b: Seq<Entry>,
    i: int,
    j: int,
    i1: int,
    j1: int,
)
    requires
        entries_sorted(a),
        entries_sorted(b),
        forall|p: int| 0 <= p < a.len() ==> (#[trigger] a[p]).0@.0.len() == 32,
        forall|p: int| 0 <= p < b.len() ==> (#[trigger] b[p]).0@.0.len() == 32,
        0 <= i <= a.len(),
        0 <= j <= b.len(),
        i < a.len() || j < b.len(),
        merged(r0, a, b, i, j),
        forall|p: int| 0 <= p < i && j < b.len() ==> key_lt((#[trigger] a[p]).0@, b[j].0@),
        forall|q: int| 0 <= q < j && i < a.len() ==> key_lt((#[trigger] b[q]).0@, a[i].0@),
        // The step: the smaller of the two current keys is dealt with.
        ({
            let take_a = j >= b.len() || (i < a.len() && key_lt(a[i].0@, b[j].0@));
            let take_b = !take_a && (i >= a.len() || key_lt(b[j].0@, a[i].0@));
            if take_a {
                i1 == i + 1 && j1 == j && r1 == r0.remove(a[i].0@)
            } else if take_b {
                i1 == i && j1 == j + 1 && r1 == r0.insert(b[j].0@, b[j].1@)
            } else {
                i1 == i + 1 && j1 == j + 1 && r1 == if a[i].1@ == b[j].1@ {
                    r0
                } else {
                    r0.insert(b[j].0@, b[j].1@)
                }
            }
        }),
    ensures
        merged(r1, a, b, i1, j1),
        forall|p: int| 0 <= p < i1 && j1 < b.len() ==> key_lt((#[trigger] a[p]).0@, b[j1].0@),
        forall|q: int| 0 <= q < j1 && i1 < a.len() ==> key_lt((#[trigger] b[q]).0@, a[i1].0@),
{
    let take_a = j >= b.len() || (i < a.len() && key_lt(a[i].0@, b[j].0@));
    let take_b = !take_a && (i >= a.len() || key_lt(b[j].0@, a[i].0@));
    if i < a.len() {
        lemma_entry_at(a, i);
    }
    if j < b.len() {
        lemma_entry_at(b, j);
    }
    if !take_a && !take_b {
        lemma_key_total(a[i].0@, b[j].0@);
    }
    let c: KeySpec = if take_a {
        a[i].0@
    } else {
        b[j].0@
    };
    if i1 < a.len() && i1 > i {
        assert(key_lt(a[i].0@, a[i1].0@));
    }
    if j1 < b.len() && j1 > j {
        assert(key_lt(b[j].0@, b[j1].0@));
    }
    assert forall|p: int| 0 <= p < i1 && j1 < b.len() implies key_lt((#[trigger] a[p]).0@, b[j1].0@) by {
        if p < i {
            if j1 > j {
                lemma_key_transitive(a[p].0@, b[j].0@, b[j1].0@);
            }
        }
    }
    assert forall|q: int| 0 <= q < j1 && i1 < a.len() implies key_lt((#[trigger] b[q]).0@, a[i1].0@) by {
        if q < j {
            if i1 > i {
                lemma_key_transitive(b[q].0@, a[i].0@, a[i1].0@);
            }
        }
    }
    assert forall|k: KeySpec|
        if #[trigger] is_done(a, b, i1, j1, k) {
            same_at(r1, entries_map(b), k)
        } else {
            same_at(r1, entries_map(a), k)
        } by {
        let was = is_done(a, b, i, j, k);
        let now = is_done(a, b, i1, j1, k);
        if was {
            // What was done stays done.
            if i1 < a.len() && i1 > i {
                lemma_key_transitive(k, a[i].0@, a[i1].0@);
            }
            if j1 < b.len() && j1 > j {
                lemma_key_transitive(k, b[j].0@, b[j1].0@);
            }
            assert(k != c) by {
                if k == c {
                    lemma_key_asymmetric(k, c);
                }
            }
        } else if k == c {
            // The current key is done now.
            if take_a {
                assert forall|q: int| 0 <= q < j implies (#[trigger] b[q]).0@ != k by {
                    lemma_key_asymmetric(b[q].0@, a[i].0@);
                }
                lemma_before_is_absent(b, j, k);
            }
        } else if now {
            // A key between the current key and the next ones is in neither store.
            assert forall|p: int| 0 <= p < i1 implies (#[trigger] a[p]).0@ != k by {
                if a[p].0@ == k {
                    if p < i {
                        assert(key_lt(a[p].0@, a[i].0@));
                    }
                }
            }
            assert forall|q: int| 0 <= q < j1 implies (#[trigger] b[q]).0@ != k by {
                if b[q].0@ == k {
                    if q < j {
                        assert(key_lt(b[q].0@, b[j].0@));
                    }
                }
            }
            lemma_before_is_absent(a, i1, k);
            lemma_before_is_absent(b, j1, k);
        }
    }
}

/// The writes that turn the store `before` into the store `after`: a delete
/// for every key that only `before` holds, a put for every node of `after`
/// that `before` lacks or holds with another hash.
pub fn diff(before: &FlatStore, after: &FlatStore) -> (out: Vec<StoreWrite>)
    requires
        before.wf(),
        after.wf(),
    ensures
        replay(before@, out@) == after@,
{
    let ghost a = before.entries@;
    let ghost b = after.entries@;
    let na = before.entries.len();
    let nb = after.entries.len();
    let mut out: Vec<StoreWrite> = Vec::new();
    let mut i: usize = 0;
    let mut j: usize = 0;
    proof {
        assert forall|p: int| 0 <= p < a.len() implies (#[trigger] a[p]).0@.0.len() == 32 by {
            assert(key_valid(a[p].0@));
        }
        assert forall|p: int| 0 <= p < b.len() implies (#[trigger] b[p]).0@.0.len() == 32 by {
            assert(key_valid(b[p].0@));
        }
        assert forall|k: KeySpec| #[trigger] is_done(a, b, 0, 0, k) implies same_at(before@, after@, k) by {
            lemma_before_is_absent(a, 0, k);
            lemma_before_is_absent(b, 0, k);
        }
    }
    while i < na || j < nb
        invariant
            i <= na,
            j <= nb,
            na == a.len(),
            nb == b.len(),
            a == before.entries@,
            b == after.entries@,
            entries_sorted(a),
            entries_sorted(b),
            forall|p: int| 0 <= p < a.len() ==> (#[trigger] a[p]).0@.0.len() == 32,
            forall|p: int| 0 <= p < b.len() ==> (#[trigger] b[p]).0@.0.len() == 32,
            merged(replay(before@, out@), a, b, i as int, j as int),
            forall|p: int| 0 <= p < i && j < nb ==> key_lt((#[trigger] a[p]).0@, b[j as int].0@),
            forall|q: int| 0 <= q < j && i < na ==> key_lt((#[trigger] b[q]).0@, a[i as int].0@),
        decreases (na - i) + (nb - j),
    {
        let ghost r0 = replay(before@, out@);
        let ghost out0 = out@;
        let ghost i0 = i as int;
        let ghost j0 = j as int;
        let take_a = j >= nb || (i < na && key_less(&before.entries[i].0, &after.entries[j].0));
        let take_b = !take_a && (i >= na || key_less(&after.entries[j].0, &before.entries[i].0));
        if take_a {
            out.push(StoreWrite::Delete(before.entries[i].0));
            i += 1;
        } else if take_b {
            out.push(StoreWrite::Put(after.entries[j].0, after.entries[j].1));
            j += 1;
        } else {
            if !crate::merkle_proof::hashes_equal(&before.entries[i].1, &after.entries[j].1) {
                out.push(StoreWrite::Put(after.entries[j].0, after.entries[j].1));
            }
            i += 1;
            j += 1;
        }
        proof {
            if out@.len() > out0.len() {
                assert(out@.drop_last() =~= out0);
            }
            lemma_diff_step(r0, replay(before@, out@), a, b, i0, j0, i as int, j as int);
        }
    }
    proof {
        let r = replay(before@, out@);
        assert forall|k: KeySpec| same_at(r, after@, k) by {
            if is_done(a, b, i as int, j as int, k) {
            } else {
                assert(k.0.len() != 32);
                if has_entry(a, k) {
                    assert(a[entry_pos(a, k)].0@.0.len() == 32);
                }
                if has_entry(b, k) {
                    assert(b[entry_pos(b, k)].0@.0.len() == 32);
                }
            }
        }
        assert forall|k: KeySpec| #[trigger] r.contains_key(k) <==> after@.contains_key(k) by {
            assert(same_at(r, after@, k));
        }
        assert forall|k: KeySpec| #[trigger] r.contains_key(k) implies r[k] == after@[k] by {
            assert(same_at(r, after@, k));
        }
        assert(r =~= after@);
    }
    out
}

} // verus!
