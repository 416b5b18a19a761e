//! The keys of the store are well ordered: every set of stored keys that is
//! not empty has a first and a last key.

use crate::bits::{less_at, lex_lt};
use crate::flat::consistency::map_valid;
use crate::flat::key::{key_le, key_lt, lemma_key_total, KeySpec};
use crate::flat::store::{is_least_ge, is_next_leaf, is_prev_leaf, key_valid, leaf_key};
use crate::varint::be_value;
use vstd::prelude::*;

verus! {

/// The place of a key in the order of all keys.
pub open spec fn rank(k: KeySpec) -> nat {
    (be_value(k.0) * 257 + k.1) as nat
}

/// A path that comes first spells the smaller number.
pub proof fn lemma_lex_is_numeric(a: Seq<u8>, b: Seq<u8>)
    requires
        a.len() == b.len(),
        lex_lt(a, b),
    ensures
        be_value(a) < be_value(b),
    decreases a.len(),
{
    let k = choose|k: int| #[trigger] less_at(a, b, k);
    let n = a.len() as int;
    let da = a.drop_last();
    let db = b.drop_last();
    if k == n - 1 {
        assert(da =~= db);
    } else {
        assert(less_at(da, db, k)) by {
            assert forall|i: int| 0 <= i < k implies da[i] == db[i] by {
                assert(a[i] == b[i]);
            }
        }
        lemma_lex_is_numeric(da, db);
        assert(be_value(da) * 256 + 256 <= be_value(db) * 256) by (nonlinear_arith)
            requires
                be_value(da) < be_value(db),
        ;
    }
}

/// A key that comes first has the smaller rank.
pub proof fn lemma_rank_grows(a: KeySpec, b: KeySpec)
    requires
        key_valid(a),
        key_valid(b),
        key_lt(a, b),
    ensures
        rank(a) < rank(b),
{
    if lex_lt(a.0, b.0) {
        lemma_lex_is_numeric(a.0, b.0);
        assert(be_value(a.0) * 257 + 257 <= be_value(b.0) * 257) by (nonlinear_arith)
            requires
                be_value(a.0) < be_value(b.0),
        ;
    }
}

/// A set of keys of a valid store with a key at or behind a bound has a
/// first key at or behind the bound.
pub proof fn lemma_least_exists(m: Map<KeySpec, Seq<u8>>, bound: KeySpec, w: KeySpec) -> (k: KeySpec)
    requires
        map_valid(m),
        m.contains_key(w),
        key_le(bound, w),
    ensures
        is_least_ge(m, bound, k),
    decreases rank(w),
{
    if forall|o: KeySpec| #[trigger] m.contains_key(o) && key_le(bound, o) ==> key_le(w, o) {
        w
    } else {
        let o = choose|o: KeySpec| #[trigger] m.contains_key(o) && key_le(bound, o) && !key_le(w, o);
        assert(key_valid(o) && key_valid(w));
        lemma_key_total(o, w);
        lemma_rank_grows(o, w);
        lemma_least_exists(m, bound, o)
    }
}

/// Where some leaf stands before the leaf with path `t`, there is a last one.
pub proof fn lemma_prev_leaf_exists(m: Map<KeySpec, Seq<u8>>, t: Seq<u8>, w: KeySpec) -> (k: KeySpec)
    requires
        map_valid(m),
        t.len() == 32,
        m.contains_key(w),
        w.1 == 256,
        key_lt(w, leaf_key(t)),
    ensures
        is_prev_leaf(m, t, k),
    decreases rank(leaf_key(t)) - rank(w),
{
    crate::flat::path::lemma_masked_all(t, 256);
    assert(key_valid(w));
    lemma_rank_grows(w, leaf_key(t));
    if forall|o: KeySpec|
        #[trigger] m.contains_key(o) && o.1 == 256 && key_lt(o, leaf_key(t)) ==> key_le(o, w) {
        w
    } else {
        let o = choose|o: KeySpec|
            #[trigger] m.contains_key(o) && o.1 == 256 && key_lt(o, leaf_key(t)) && !key_le(o, w);
        assert(key_valid(o));
        lemma_key_total(o, w);
        lemma_rank_grows(w, o);
        lemma_rank_grows(o, leaf_key(t));
        lemma_prev_leaf_exists(m, t, o)
    }
}

/// Where some leaf stands behind the leaf with path `t`, there is a first one.
pub proof fn lemma_next_leaf_exists(m: Map<KeySpec, Seq<u8>>, t: Seq<u8>, w: KeySpec) -> (k: KeySpec)
    requires
        map_valid(m),
        t.len() == 32,
        m.contains_key(w),
        w.1 == 256,
        key_lt(leaf_key(t), w),
    ensures
        is_next_leaf(m, t, k),
    decreases rank(w),
{
    crate::flat::path::lemma_masked_all(t, 256);
    assert(key_valid(w));
    if forall|o: KeySpec|
        #[trigger] m.contains_key(o) && o.1 == 256 && key_lt(leaf_key(t), o) ==> key_le(w, o) {
        w
    } else {
        let o = choose|o: KeySpec|
            #[trigger] m.contains_key(o) && o.1 == 256 && key_lt(leaf_key(t), o) && !key_le(w, o);
        assert(key_valid(o));
        lemma_key_total(o, w);
        lemma_rank_grows(o, w);
        lemma_next_leaf_exists(m, t, o)
    }
}

} // verus!
