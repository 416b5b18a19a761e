//! Sorting in parallel of items that carry a 32-byte key and a position.

use crate::bits::{less_at, lex_lt};
use crate::hash::Bytes32;
use rayon::slice::ParallelSliceMut;
use vstd::prelude::*;

verus! {

/// An item to sort: its key, its position in the input, a flag, and a
/// payload of 32 bytes.
pub type Keyed = (Bytes32, usize, bool, Bytes32);

/// The order of keyed items: by key, then by position.
pub open spec fn keyed_le(x: Keyed, y: Keyed) -> bool {
    lex_lt(x.0@, y.0@) || (x.0@ == y.0@ && x.1 <= y.1)
}

/// The list is in order.
pub open spec fn keyed_sorted(s: Seq<Keyed>) -> bool {
    forall|i: int, j: int| 0 <= i < j < s.len() ==> keyed_le(s[i], s[j])
}

/// Sorts the list with rayon's `par_sort_unstable`, by the order of its
/// items: tuples compare field by field, arrays of bytes lexicographically.
/// The list afterwards holds the same items, and is in order by key and
/// position; the order of items that are equal in all fields is open.
#[verifier::external_body]
pub(crate) fn par_sort_keyed(list: &mut Vec<Keyed>)
    ensures
        final(list)@.to_multiset() == old(list)@.to_multiset(),
        keyed_sorted(final(list)@),
{
    list.par_sort_unstable();
}

/// Keys in order have their first 31 bytes in order, and where those are the
/// same, their last byte.
pub proof fn lemma_key_order_parts(a: Seq<u8>, b: Seq<u8>)
    requires
        a.len() == 32,
        b.len() == 32,
        lex_lt(a, b),
    ensures
        lex_lt(a.take(31), b.take(31)) || (a.take(31) == b.take(31) && a[31] < b[31]),
{
    let k = choose|k: int| #[trigger] less_at(a, b, k);
    if k < 31 {
        assert(less_at(a.take(31), b.take(31), k));
    } else {
        assert(a.take(31) =~= b.take(31));
    }
}

} // verus!
