//! Bit and prefix utilities over byte paths, most significant bit first.

use crate::hash::Stem;
use vstd::prelude::*;

verus! {

/// Bit `k` of a byte, counting from the most significant bit (`k` in `0..8`).
pub open spec fn byte_bit(b: u8, k: int) -> bool {
    (b >> ((7 - k) as u8)) & 1u8 == 1u8
}

/// Bit `i` of a path, most significant bit of byte 0 first.
pub open spec fn bit_at(path: Seq<u8>, i: int) -> bool {
    byte_bit(path[i / 8], i % 8)
}

/// Two bytes with the same eight bits are the same byte.
pub proof fn lemma_byte_from_bits(a: u8, b: u8)
    requires
        forall|k: int| 0 <= k < 8 ==> byte_bit(a, k) == byte_bit(b, k),
    ensures
        a == b,
{
    assert(byte_bit(a, 0) == byte_bit(b, 0));
    assert(byte_bit(a, 1) == byte_bit(b, 1));
    assert(byte_bit(a, 2) == byte_bit(b, 2));
    assert(byte_bit(a, 3) == byte_bit(b, 3));
    assert(byte_bit(a, 4) == byte_bit(b, 4));
    assert(byte_bit(a, 5) == byte_bit(b, 5));
    assert(byte_bit(a, 6) == byte_bit(b, 6));
    assert(byte_bit(a, 7) == byte_bit(b, 7));
    assert((((a >> 7u8) & 1u8 == 1u8) == ((b >> 7u8) & 1u8 == 1u8)
        && ((a >> 6u8) & 1u8 == 1u8) == ((b >> 6u8) & 1u8 == 1u8)
        && ((a >> 5u8) & 1u8 == 1u8) == ((b >> 5u8) & 1u8 == 1u8)
        && ((a >> 4u8) & 1u8 == 1u8) == ((b >> 4u8) & 1u8 == 1u8)
        && ((a >> 3u8) & 1u8 == 1u8) == ((b >> 3u8) & 1u8 == 1u8)
        && ((a >> 2u8) & 1u8 == 1u8) == ((b >> 2u8) & 1u8 == 1u8)
        && ((a >> 1u8) & 1u8 == 1u8) == ((b >> 1u8) & 1u8 == 1u8)
        && ((a >> 0u8) & 1u8 == 1u8) == ((b >> 0u8) & 1u8 == 1u8)) ==> a == b) by (bit_vector);
}

/// The bit of `stem` at `depth`, as 0 or 1.
pub fn stem_bit(stem: &Stem, depth: usize) -> (out: u8)
    requires
        depth < 248,
    ensures
        out == 0 || out == 1,
        (out == 1) == bit_at(stem@, depth as int),
{
    let byte = stem[depth / 8];
    let shift: u8 = 7 - (depth % 8) as u8;
    let out = (byte >> shift) & 1;
    assert(out == 0 || out == 1) by (bit_vector)
        requires
            out == (byte >> shift) & 1u8,
    ;
    out
}

/// Two byte strings of one length with the same bits are the same string.
pub proof fn lemma_path_from_bits(a: Seq<u8>, b: Seq<u8>)
    requires
        a.len() == b.len(),
        forall|i: int| 0 <= i < 8 * a.len() ==> bit_at(a, i) == bit_at(b, i),
    ensures
        a == b,
{
    assert forall|j: int| 0 <= j < a.len() implies a[j] == b[j] by {
        assert forall|k: int| 0 <= k < 8 implies byte_bit(a[j], k) == byte_bit(b[j], k) by {
            let i = 8 * j + k;
            assert(i / 8 == j && i % 8 == k);
            assert(bit_at(a, i) == bit_at(b, i));
        }
        lemma_byte_from_bits(a[j], b[j]);
    }
    assert(a =~= b);
}

/// The first bit, from the top, at which two bytes differ; 8 if they are equal.
pub open spec fn first_diff_bit(a: u8, b: u8) -> int {
    if byte_bit(a, 0) != byte_bit(b, 0) {
        0
    } else if byte_bit(a, 1) != byte_bit(b, 1) {
        1
    } else if byte_bit(a, 2) != byte_bit(b, 2) {
        2
    } else if byte_bit(a, 3) != byte_bit(b, 3) {
        3
    } else if byte_bit(a, 4) != byte_bit(b, 4) {
        4
    } else if byte_bit(a, 5) != byte_bit(b, 5) {
        5
    } else if byte_bit(a, 6) != byte_bit(b, 6) {
        6
    } else if byte_bit(a, 7) != byte_bit(b, 7) {
        7
    } else {
        8
    }
}

/// Of two different bytes the smaller has a 0 and the larger a 1 at the first
/// bit where they differ.
pub proof fn lemma_byte_order_bit(a: u8, b: u8)
    requires
        a < b,
    ensures
        0 <= first_diff_bit(a, b) < 8,
        !byte_bit(a, first_diff_bit(a, b)),
        byte_bit(b, first_diff_bit(a, b)),
        forall|k: int| 0 <= k < first_diff_bit(a, b) ==> byte_bit(a, k) == byte_bit(b, k),
{
    if first_diff_bit(a, b) == 8 {
        lemma_byte_from_bits(a, b);
    }
    assert(a < b && (((a >> 7u8) & 1u8 == 1u8) != ((b >> 7u8) & 1u8 == 1u8)) ==> !((a >> 7u8) & 1u8 == 1u8) && ((b >> 7u8) & 1u8 == 1u8)) by (bit_vector);
    assert(a < b && (((a >> 7u8) & 1u8 == 1u8) == ((b >> 7u8) & 1u8 == 1u8)) && (((a >> 6u8) & 1u8 == 1u8) != ((b >> 6u8) & 1u8 == 1u8)) ==> !((a >> 6u8) & 1u8 == 1u8) && ((b >> 6u8) & 1u8 == 1u8)) by (bit_vector);
    assert(a < b && (((a >> 7u8) & 1u8 == 1u8) == ((b >> 7u8) & 1u8 == 1u8)) && (((a >> 6u8) & 1u8 == 1u8) == ((b >> 6u8) & 1u8 == 1u8)) && (((a >> 5u8) & 1u8 == 1u8) != ((b >> 5u8) & 1u8 == 1u8)) ==> !((a >> 5u8) & 1u8 == 1u8) && ((b >> 5u8) & 1u8 == 1u8)) by (bit_vector);
    assert(a < b && (((a >> 7u8) & 1u8 == 1u8) == ((b >> 7u8) & 1u8 == 1u8)) && (((a >> 6u8) & 1u8 == 1u8) == ((b >> 6u8) & 1u8 == 1u8)) && (((a >> 5u8) & 1u8 == 1u8) == ((b >> 5u8) & 1u8 == 1u8)) && (((a >> 4u8) & 1u8 == 1u8) != ((b >> 4u8) & 1u8 == 1u8)) ==> !((a >> 4u8) & 1u8 == 1u8) && ((b >> 4u8) & 1u8 == 1u8)) by (bit_vector);
    assert(a < b && (((a >> 7u8) & 1u8 == 1u8) == ((b >> 7u8) & 1u8 == 1u8)) && (((a >> 6u8) & 1u8 == 1u8) == ((b >> 6u8) & 1u8 == 1u8)) && (((a >> 5u8) & 1u8 == 1u8) == ((b >> 5u8) & 1u8 == 1u8)) && (((a >> 4u8) & 1u8 == 1u8) == ((b >> 4u8) & 1u8 == 1u8)) && (((a >> 3u8) & 1u8 == 1u8) != ((b >> 3u8) & 1u8 == 1u8)) ==> !((a >> 3u8) & 1u8 == 1u8) && ((b >> 3u8) & 1u8 == 1u8)) by (bit_vector);
    assert(a < b && (((a >> 7u8) & 1u8 == 1u8) == ((b >> 7u8) & 1u8 == 1u8)) && (((a >> 6u8) & 1u8 == 1u8) == ((b >> 6u8) & 1u8 == 1u8)) && (((a >> 5u8) & 1u8 == 1u8) == ((b >> 5u8) & 1u8 == 1u8)) && (((a >> 4u8) & 1u8 == 1u8) == ((b >> 4u8) & 1u8 == 1u8)) && (((a >> 3u8) & 1u8 == 1u8) == ((b >> 3u8) & 1u8 == 1u8)) && (((a >> 2u8) & 1u8 == 1u8) != ((b >> 2u8) & 1u8 == 1u8)) ==> !((a >> 2u8) & 1u8 == 1u8) && ((b >> 2u8) & 1u8 == 1u8)) by (bit_vector);
    assert(a < b && (((a >> 7u8) & 1u8 == 1u8) == ((b >> 7u8) & 1u8 == 1u8)) && (((a >> 6u8) & 1u8 == 1u8) == ((b >> 6u8) & 1u8 == 1u8)) && (((a >> 5u8) & 1u8 == 1u8) == ((b >> 5u8) & 1u8 == 1u8)) && (((a >> 4u8) & 1u8 == 1u8) == ((b >> 4u8) & 1u8 == 1u8)) && (((a >> 3u8) & 1u8 == 1u8) == ((b >> 3u8) & 1u8 == 1u8)) && (((a >> 2u8) & 1u8 == 1u8) == ((b >> 2u8) & 1u8 == 1u8)) && (((a >> 1u8) & 1u8 == 1u8) != ((b >> 1u8) & 1u8 == 1u8)) ==> !((a >> 1u8) & 1u8 == 1u8) && ((b >> 1u8) & 1u8 == 1u8)) by (bit_vector);
    assert(a < b && (((a >> 7u8) & 1u8 == 1u8) == ((b >> 7u8) & 1u8 == 1u8)) && (((a >> 6u8) & 1u8 == 1u8) == ((b >> 6u8) & 1u8 == 1u8)) && (((a >> 5u8) & 1u8 == 1u8) == ((b >> 5u8) & 1u8 == 1u8)) && (((a >> 4u8) & 1u8 == 1u8) == ((b >> 4u8) & 1u8 == 1u8)) && (((a >> 3u8) & 1u8 == 1u8) == ((b >> 3u8) & 1u8 == 1u8)) && (((a >> 2u8) & 1u8 == 1u8) == ((b >> 2u8) & 1u8 == 1u8)) && (((a >> 1u8) & 1u8 == 1u8) == ((b >> 1u8) & 1u8 == 1u8)) && (((a >> 0u8) & 1u8 == 1u8) != ((b >> 0u8) & 1u8 == 1u8)) ==> !((a >> 0u8) & 1u8 == 1u8) && ((b >> 0u8) & 1u8 == 1u8)) by (bit_vector);
}

/// `a` and `b` have the same bytes before position `k`.
pub open spec fn same_bytes_before(a: Seq<u8>, b: Seq<u8>, k: int) -> bool {
    forall|i: int| 0 <= i < k ==> a[i] == b[i]
}

/// `a` and `b` first differ at byte `k`, where `a` has the smaller byte.
pub open spec fn less_at(a: Seq<u8>, b: Seq<u8>, k: int) -> bool {
    0 <= k < a.len() && k < b.len() && same_bytes_before(a, b, k) && a[k] < b[k]
}

/// Lexicographic order on byte strings of one length: the order of arrays of bytes.
pub open spec fn lex_lt(a: Seq<u8>, b: Seq<u8>) -> bool {
    exists|k: int| #[trigger] less_at(a, b, k)
}

/// `a` and `b` have the same bits before position `i`.
pub open spec fn same_bits_before(a: Seq<u8>, b: Seq<u8>, i: int) -> bool {
    forall|j: int| 0 <= j < i ==> bit_at(a, j) == bit_at(b, j)
}

/// Strings with the same bytes before `k` have the same bits before `8 * k`.
pub proof fn lemma_bytes_give_bits(a: Seq<u8>, b: Seq<u8>, k: int)
    requires
        same_bytes_before(a, b, k),
    ensures
        same_bits_before(a, b, 8 * k),
{
    assert forall|j: int| 0 <= j < 8 * k implies bit_at(a, j) == bit_at(b, j) by {
        assert(a[j / 8] == b[j / 8]);
    }
}

/// The lexicographic order is the order by the first differing bit: the
/// smaller string has a 0 there, the larger a 1.
pub proof fn lemma_lex_first_bit(a: Seq<u8>, b: Seq<u8>) -> (i: int)
    requires
        lex_lt(a, b),
    ensures
        0 <= i < 8 * a.len(),
        i < 8 * b.len(),
        same_bits_before(a, b, i),
        !bit_at(a, i),
        bit_at(b, i),
{
    let k = choose|k: int| #[trigger] less_at(a, b, k);
    lemma_byte_order_bit(a[k], b[k]);
    lemma_bytes_give_bits(a, b, k);
    let t = first_diff_bit(a[k], b[k]);
    let i = 8 * k + t;
    assert(i / 8 == k && i % 8 == t);
    assert forall|j: int| 0 <= j < i implies bit_at(a, j) == bit_at(b, j) by {
        if j >= 8 * k {
            assert(j / 8 == k);
            assert(0 <= j % 8 < t);
        }
    }
    i
}

/// No string is below itself, and no two strings are below each other.
pub proof fn lemma_lex_asymmetric(a: Seq<u8>, b: Seq<u8>)
    requires
        lex_lt(a, b),
    ensures
        !lex_lt(b, a),
        a != b,
{
    let k = choose|k: int| #[trigger] less_at(a, b, k);
    if lex_lt(b, a) {
        let j = choose|j: int| #[trigger] less_at(b, a, j);
        if j < k {
            assert(a[j] == b[j]);
        } else if k < j {
            assert(b[k] == a[k]);
        }
    }
}

/// The lexicographic order is transitive.
pub proof fn lemma_lex_transitive(a: Seq<u8>, b: Seq<u8>, c: Seq<u8>)
    requires
        lex_lt(a, b),
        lex_lt(b, c),
    ensures
        lex_lt(a, c),
{
    let k = choose|k: int| #[trigger] less_at(a, b, k);
    let j = choose|j: int| #[trigger] less_at(b, c, j);
    let m = if k < j {
        k
    } else {
        j
    };
    assert forall|i: int| 0 <= i < m implies a[i] == c[i] by {
        assert(a[i] == b[i] && b[i] == c[i]);
    }
    if k < j {
        assert(b[k] == c[k]);
    } else if j < k {
        assert(a[j] == b[j]);
    }
    assert(less_at(a, c, m));
}

/// Of two strings of one length, one is below the other or they are equal.
pub proof fn lemma_lex_total(a: Seq<u8>, b: Seq<u8>)
    requires
        a.len() == b.len(),
    ensures
        lex_lt(a, b) || lex_lt(b, a) || a == b,
{
    if !lex_lt(a, b) && !lex_lt(b, a) {
        lemma_lex_same_prefix(a, b, a.len() as int);
        assert(a =~= b);
    }
}

/// Strings of which neither is below the other agree byte by byte.
proof fn lemma_lex_same_prefix(a: Seq<u8>, b: Seq<u8>, k: int)
    requires
        a.len() == b.len(),
        0 <= k <= a.len(),
        !lex_lt(a, b),
        !lex_lt(b, a),
    ensures
        same_bytes_before(a, b, k),
    decreases k,
{
    if k > 0 {
        lemma_lex_same_prefix(a, b, k - 1);
        assert(same_bytes_before(b, a, k - 1));
        if a[k - 1] < b[k - 1] {
            assert(less_at(a, b, k - 1));
        } else if b[k - 1] < a[k - 1] {
            assert(less_at(b, a, k - 1));
        }
    }
}

/// Between two strings that share their first `d` bits, in lexicographic
/// order, lie only strings that share them too.
pub proof fn lemma_lex_between(a: Seq<u8>, x: Seq<u8>, b: Seq<u8>, d: int)
    requires
        a.len() == x.len() == b.len(),
        0 <= d <= 8 * a.len(),
        lex_lt(a, x) || a == x,
        lex_lt(x, b) || x == b,
        same_bits_before(a, b, d),
    ensures
        same_bits_before(a, x, d),
{
    if a != x && x != b {
        let i = lemma_lex_first_bit(a, x);
        let j = lemma_lex_first_bit(x, b);
        if i < d {
            assert(bit_at(a, i) == bit_at(b, i));
            if j < i {
                assert(bit_at(a, j) == bit_at(x, j));
                assert(bit_at(a, j) == bit_at(b, j));
            } else if j > i {
                assert(bit_at(x, i) == bit_at(b, i));
            }
        }
    }
}

/// Of two strings in lexicographic order that share their first `d` bits, the
/// smaller cannot have a 1 at bit `d` where the larger has a 0.
pub proof fn lemma_lex_next_bit(a: Seq<u8>, b: Seq<u8>, d: int)
    requires
        a.len() == b.len(),
        0 <= d < 8 * a.len(),
        lex_lt(a, b),
        same_bits_before(a, b, d),
    ensures
        bit_at(a, d) ==> bit_at(b, d),
{
    let i = lemma_lex_first_bit(a, b);
    if i < d {
        assert(bit_at(a, i) == bit_at(b, i));
    } else if i > d {
        assert(bit_at(a, d) == bit_at(b, d));
    }
}

/// Whether stem `a` comes before stem `b` in lexicographic order.
pub fn stem_lt(a: &Stem, b: &Stem) -> (out: bool)
    ensures
        out == lex_lt(a@, b@),
{
    let mut i: usize = 0;
    while i < 31
        invariant
            i <= 31,
            same_bytes_before(a@, b@, i as int),
        decreases 31 - i,
    {
        if a[i] < b[i] {
            assert(less_at(a@, b@, i as int));
            return true;
        }
        if a[i] > b[i] {
            assert(less_at(b@, a@, i as int));
            proof {
                lemma_lex_asymmetric(b@, a@);
            }
            return false;
        }
        i += 1;
    }
    proof {
        assert(a@ =~= b@);
        if lex_lt(a@, b@) {
            lemma_lex_asymmetric(a@, b@);
        }
    }
    false
}

/// The first bit at or after `from` at which two stems differ, or 248 if
/// they agree from there on.
pub fn lcp_bits_from(a: &Stem, b: &Stem, from: usize) -> (out: usize)
    requires
        from <= 248,
    ensures
        from <= out <= 248,
        forall|i: int| from <= i < out ==> bit_at(a@, i) == bit_at(b@, i),
        out < 248 ==> bit_at(a@, out as int) != bit_at(b@, out as int),
{
    let mut i: usize = from;
    while i < 248
        invariant
            from <= i <= 248,
            forall|j: int| from <= j < i ==> bit_at(a@, j) == bit_at(b@, j),
        decreases 248 - i,
    {
        if stem_bit(a, i) != stem_bit(b, i) {
            return i;
        }
        i += 1;
    }
    i
}

} // verus!
