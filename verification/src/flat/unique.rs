//! The result of a batch is unique: the order of the prepared writes and the
//! order of the rehash are fixed by the batch and the store.

use crate::bits::{lemma_lex_asymmetric, lex_lt};
use crate::flat::batch::{
    batch_state, has_position, is_batch_result, is_prepared_of, prep_view, prepared_le,
    sorted_prepared_of, Op, Prepared,
};
use crate::flat::dirty::{is_deep_order, lemma_deep_order_unique};
use crate::flat::hubt::rehash_fold;
use crate::flat::key::KeySpec;
use vstd::prelude::*;

verus! {

/// Two prepared writes of one batch with the same position are the same.
pub proof fn lemma_prepared_by_position(x: Prepared, y: Prepared, ops: Seq<Op>)
    requires
        is_prepared_of(x, ops),
        is_prepared_of(y, ops),
        x.1 == y.1,
    ensures
        x == y,
{
    assert(x.0 =~= y.0);
    assert(x.3 =~= y.3);
}

/// The prepared writes of a batch stand in one order only.
pub proof fn lemma_prepared_unique(a: Seq<Prepared>, b: Seq<Prepared>, ops: Seq<Op>, n: int)
    requires
        sorted_prepared_of(a, ops),
        sorted_prepared_of(b, ops),
        0 <= n <= a.len(),
    ensures
        a.take(n) == b.take(n),
    decreases n,
{
    if n > 0 {
        lemma_prepared_unique(a, b, ops, n - 1);
        let i = n - 1;
        // The write at `i` of one list stands at `i` of the other: before it
        // stand the same writes in both, and it comes before all others.
        assert(has_position(b, a[i].1 as int)) by {
            assert(is_prepared_of(a[i], ops));
        }
        let j = choose|j: int| 0 <= j < b.len() && (#[trigger] b[j]).1 == a[i].1;
        assert(is_prepared_of(b[j], ops));
        lemma_prepared_by_position(a[i], b[j], ops);
        assert(has_position(a, b[i].1 as int)) by {
            assert(is_prepared_of(b[i], ops));
        }
        let k = choose|k: int| 0 <= k < a.len() && (#[trigger] a[k]).1 == b[i].1;
        assert(is_prepared_of(a[k], ops));
        lemma_prepared_by_position(a[k], b[i], ops);
        if j < i {
            assert(a.take(i)[j] == b.take(i)[j]);
            assert(a[j].1 == a[i].1);
        }
        if k < i {
            assert(a.take(i)[k] == b.take(i)[k]);
            assert(b[k].1 == b[i].1);
        }
        if j > i && k > i {
            assert(prepared_le(a[i], a[k]));
            assert(prepared_le(b[i], b[j]));
            if lex_lt(a[i].0@, a[k].0@) {
                lemma_lex_asymmetric(a[i].0@, a[k].0@);
            }
            if lex_lt(b[i].0@, b[j].0@) {
                lemma_lex_asymmetric(b[i].0@, b[j].0@);
            }
            assert(a[i].1 != a[k].1);
        }
        assert(a[i] == b[i]);
        assert(a.take(n) =~= a.take(i).push(a[i]));
        assert(b.take(n) =~= b.take(i).push(b[i]));
    }
}

/// Determinism of the flat engine: a batch has one result.
pub proof fn lemma_batch_result_unique(
    before: Map<KeySpec, Seq<u8>>,
    ops: Seq<Op>,
    one: Map<KeySpec, Seq<u8>>,
    other: Map<KeySpec, Seq<u8>>,
)
    requires
        is_batch_result(before, ops, one),
        is_batch_result(before, ops, other),
    ensures
        one == other,
{
    let (s1, o1): (Seq<Prepared>, Seq<KeySpec>) = choose|s: Seq<Prepared>, order: Seq<KeySpec>|
     #[trigger]
        sorted_prepared_of(s, ops) && #[trigger] is_deep_order(order, batch_state(before, prep_view(s)).1)
            && one == rehash_fold(batch_state(before, prep_view(s)).0, order);
    let (s2, o2): (Seq<Prepared>, Seq<KeySpec>) = choose|s: Seq<Prepared>, order: Seq<KeySpec>|
     #[trigger]
        sorted_prepared_of(s, ops) && #[trigger] is_deep_order(order, batch_state(before, prep_view(s)).1)
            && other == rehash_fold(batch_state(before, prep_view(s)).0, order);
    lemma_prepared_unique(s1, s2, ops, s1.len() as int);
    assert(s1.take(s1.len() as int) =~= s1);
    assert(s2.take(s2.len() as int) =~= s2);
    lemma_deep_order_unique(o1, o2, batch_state(before, prep_view(s1)).1);
}

} // verus!
