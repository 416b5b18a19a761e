//! The dirty set: the keys of the nodes to rehash, deepest first.

use crate::bits::{lemma_lex_asymmetric, lemma_lex_total, lemma_lex_transitive, lex_lt};
use crate::flat::key::{path_lt, KeySpec, NodeKey};
use vstd::prelude::*;

verus! {

/// The order in which dirty nodes are rehashed: longer keys first, and keys
/// of one length by path.
pub open spec fn deeper_lt(a: KeySpec, b: KeySpec) -> bool {
    a.1 > b.1 || (a.1 == b.1 && lex_lt(a.0, b.0))
}

/// The keys stand in strictly increasing rehash order.
pub open spec fn deep_sorted(s: Seq<KeySpec>) -> bool {
    forall|i: int, j: int| 0 <= i < j < s.len() ==> deeper_lt(s[i], s[j])
}

/// `s` lists the keys of `set`, each once, in rehash order.
pub open spec fn is_deep_order(s: Seq<KeySpec>, set: Set<KeySpec>) -> bool {
    &&& deep_sorted(s)
    &&& forall|k: KeySpec| set.contains(k) <==> s.contains(k)
}

/// The keys of a list of nodes.
pub open spec fn keys_view(s: Seq<NodeKey>) -> Seq<KeySpec> {
    Seq::new(s.len(), |i: int| s[i]@)
}

/// No key comes before itself in rehash order, and no two before each other.
pub proof fn lemma_deeper_asymmetric(a: KeySpec, b: KeySpec)
    requires
        deeper_lt(a, b),
    ensures
        !deeper_lt(b, a),
        a != b,
{
    if lex_lt(a.0, b.0) {
        lemma_lex_asymmetric(a.0, b.0);
    }
    if lex_lt(b.0, a.0) {
        lemma_lex_asymmetric(b.0, a.0);
    }
}

/// The rehash order is transitive.
pub proof fn lemma_deeper_transitive(a: KeySpec, b: KeySpec, c: KeySpec)
    requires
        deeper_lt(a, b),
        deeper_lt(b, c),
    ensures
        deeper_lt(a, c),
{
    if lex_lt(a.0, b.0) && lex_lt(b.0, c.0) {
        lemma_lex_transitive(a.0, b.0, c.0);
    }
}

/// The rehash order of a set of keys is unique: two lists of the same keys
/// in rehash order are the same list.
pub proof fn lemma_deep_order_unique(a: Seq<KeySpec>, b: Seq<KeySpec>, set: Set<KeySpec>)
    requires
        is_deep_order(a, set),
        is_deep_order(b, set),
    ensures
        a == b,
    decreases a.len(),
{
    if a.len() == 0 {
        if b.len() > 0 {
            assert(b.contains(b[0]));
            assert(a.contains(b[0]));
        }
        assert(a =~= b);
    } else if b.len() == 0 {
        assert(a.contains(a[0]));
        assert(b.contains(a[0]));
    } else {
        // The first key of each list is the first of the set.
        assert(a.contains(a[0]) && b.contains(b[0]));
        assert(b.contains(a[0]) && a.contains(b[0]));
        let i = choose|i: int| 0 <= i < b.len() && b[i] == a[0];
        let j = choose|j: int| 0 <= j < a.len() && a[j] == b[0];
        if i > 0 {
            assert(deeper_lt(b[0], b[i]));
            if j > 0 {
                assert(deeper_lt(a[0], a[j]));
                lemma_deeper_asymmetric(a[0], b[0]);
            }
        }
        assert(a[0] == b[0]);
        let rest = set.remove(a[0]);
        let ta = a.drop_first();
        let tb = b.drop_first();
        assert forall|k: KeySpec| rest.contains(k) <==> ta.contains(k) by {
            if rest.contains(k) {
                let p = choose|p: int| 0 <= p < a.len() && a[p] == k;
                assert(ta[p - 1] == k);
            }
            if ta.contains(k) {
                let p = choose|p: int| 0 <= p < ta.len() && ta[p] == k;
                assert(a[p + 1] == k);
                assert(a.contains(k));
                assert(deeper_lt(a[0], a[p + 1]));
                lemma_deeper_asymmetric(a[0], k);
            }
        }
        assert forall|k: KeySpec| rest.contains(k) <==> tb.contains(k) by {
            if rest.contains(k) {
                let p = choose|p: int| 0 <= p < b.len() && b[p] == k;
                assert(tb[p - 1] == k);
            }
            if tb.contains(k) {
                let p = choose|p: int| 0 <= p < tb.len() && tb[p] == k;
                assert(b[p + 1] == k);
                assert(b.contains(k));
                assert(deeper_lt(b[0], b[p + 1]));
                lemma_deeper_asymmetric(b[0], k);
            }
        }
        assert(deep_sorted(ta)) by {
            assert forall|x: int, y: int| 0 <= x < y < ta.len() implies deeper_lt(ta[x], ta[y]) by {
                assert(deeper_lt(a[x + 1], a[y + 1]));
            }
        }
        assert(deep_sorted(tb)) by {
            assert forall|x: int, y: int| 0 <= x < y < tb.len() implies deeper_lt(tb[x], tb[y]) by {
                assert(deeper_lt(b[x + 1], b[y + 1]));
            }
        }
        lemma_deep_order_unique(ta, tb, rest);
        assert(a =~= seq![a[0]] + ta);
        assert(b =~= seq![b[0]] + tb);
    }
}

/// Whether key `a` is rehashed before key `b`.
pub fn key_deeper(a: &NodeKey, b: &NodeKey) -> (out: bool)
    ensures
        out == deeper_lt(a@, b@),
{
    if a.len > b.len {
        return true;
    }
    a.len == b.len && path_lt(&a.path, &b.path)
}

/// The keys of the nodes to rehash.
pub struct DirtySet {
    /// The keys, in rehash order.
    pub nodes: Vec<NodeKey>,
}

impl View for DirtySet {
    type V = Set<KeySpec>;

    open spec fn view(&self) -> Set<KeySpec> {
        Set::new(|k: KeySpec| keys_view(self.nodes@).contains(k))
    }
}

impl DirtySet {
    /// The keys in the order in which they are rehashed.
    pub open spec fn order(&self) -> Seq<KeySpec> {
        keys_view(self.nodes@)
    }

    /// The keys stand in rehash order.
    pub open spec fn wf(&self) -> bool {
        deep_sorted(self.order())
    }

    /// The set without keys.
    pub fn new() -> (out: Self)
        ensures
            out.wf(),
            out@ == Set::<KeySpec>::empty(),
    {
        let out = DirtySet { nodes: Vec::new() };
        assert(out@ =~= Set::<KeySpec>::empty());
        out
    }

    /// The list of a well-formed set is the rehash order of its keys.
    pub proof fn lemma_order(&self)
        requires
            self.wf(),
        ensures
            is_deep_order(self.order(), self@),
    {
    }

    /// Adds `key`, unless the set holds it.
    pub fn insert(&mut self, key: NodeKey)
        requires
            old(self).wf(),
        ensures
            final(self).wf(),
            final(self)@ == old(self)@.insert(key@),
    {
        let ghost s0 = self.order();
        let mut lo: usize = 0;
        let mut hi: usize = self.nodes.len();
        let mut found = false;
        while lo < hi
            invariant_except_break
                !found,
            invariant
                lo <= hi <= s0.len(),
                s0 == keys_view(self.nodes@),
                self.nodes@ == old(self).nodes@,
                deep_sorted(s0),
                forall|i: int| 0 <= i < lo ==> deeper_lt(#[trigger] s0[i], key@),
                forall|i: int| hi <= i < s0.len() ==> deeper_lt(key@, #[trigger] s0[i]),
            ensures
                lo <= s0.len(),
                s0 == keys_view(self.nodes@),
                self.nodes@ == old(self).nodes@,
                found ==> lo < s0.len() && s0[lo as int] == key@,
                forall|i: int| 0 <= i < lo ==> deeper_lt(#[trigger] s0[i], key@),
                !found ==> forall|i: int| lo <= i < s0.len() ==> deeper_lt(key@, #[trigger] s0[i]),
            decreases hi - lo,
        {
            let mid = lo + (hi - lo) / 2;
            let ghost mk = s0[mid as int];
            assert(mk == self.nodes@[mid as int]@);
            if key_deeper(&self.nodes[mid], &key) {
                proof {
                    assert forall|i: int| 0 <= i < mid + 1 implies deeper_lt(#[trigger] s0[i], key@) by {
                        if i < mid {
                            assert(deeper_lt(s0[i], mk));
                            lemma_deeper_transitive(s0[i], mk, key@);
                        }
                    }
                }
                lo = mid + 1;
            } else if key_deeper(&key, &self.nodes[mid]) {
                proof {
                    assert forall|i: int| mid <= i < s0.len() implies deeper_lt(key@, #[trigger] s0[i]) by {
                        if i > mid {
                            assert(deeper_lt(mk, s0[i]));
                            lemma_deeper_transitive(key@, mk, s0[i]);
                        }
                    }
                }
                hi = mid;
            } else {
                proof {
                    lemma_lex_total(mk.0, key@.0);
                    assert(mk == key@);
                    assert forall|i: int| 0 <= i < mid implies deeper_lt(#[trigger] s0[i], key@) by {
                        assert(deeper_lt(s0[i], mk));
                    }
                }
                lo = mid;
                found = true;
                break;
            }
        }
        if found {
            proof {
                assert(s0.contains(key@));
                assert(self@ =~= old(self)@.insert(key@));
            }
            return;
        }
        self.nodes.insert(lo, key);
        proof {
            let s1 = self.order();
            assert(s1 =~= s0.insert(lo as int, key@));
            assert forall|i: int, j: int| 0 <= i < j < s1.len() implies deeper_lt(s1[i], s1[j]) by {
                if i < lo && j > lo {
                    assert(deeper_lt(s0[i], s0[j - 1]));
                } else if i > lo {
                    assert(deeper_lt(s0[i - 1], s0[j - 1]));
                } else if j < lo {
                    assert(deeper_lt(s0[i], s0[j]));
                } else if i == lo {
                    assert(deeper_lt(key@, s0[j - 1]));
                } else {
                    assert(deeper_lt(s0[i], key@));
                }
            }
            assert forall|k: KeySpec| s1.contains(k) <==> (k == key@ || s0.contains(k)) by {
                if s1.contains(k) {
                    let p = choose|p: int| 0 <= p < s1.len() && s1[p] == k;
                    if p < lo {
                        assert(s0[p] == k);
                    } else if p > lo {
                        assert(s0[p - 1] == k);
                    }
                }
                if s0.contains(k) {
                    let p = choose|p: int| 0 <= p < s0.len() && s0[p] == k;
                    if p < lo {
                        assert(s1[p] == k);
                    } else {
                        assert(s1[p + 1] == k);
                    }
                }
                assert(s1[lo as int] == key@);
            }
            assert(self@ =~= old(self)@.insert(key@));
        }
    }
}

} // verus!
