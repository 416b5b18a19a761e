//! Bits, masks and common prefixes of 256-bit paths.

use crate::bits::{
    bit_at, byte_bit, lemma_lex_first_bit, lemma_lex_total, lemma_path_from_bits, lex_lt,
    same_bits_before,
};
use vstd::prelude::*;

verus! {

/// The path of a node: 32 bytes, of which the first `len` bits count.
pub type Path = [u8; 32];

/// A byte with its first `keep` bits kept and the others cleared.
pub open spec fn masked_byte(b: u8, keep: int) -> u8 {
    if keep <= 0 {
        0u8
    } else if keep >= 8 {
        b
    } else {
        b & ((0xff00u16 >> (keep as u16)) & 0xffu16) as u8
    }
}

/// A path with its first `len` bits kept and the others cleared.
pub open spec fn masked(path: Seq<u8>, len: int) -> Seq<u8> {
    Seq::new(path.len(), |i: int| masked_byte(path[i], len - 8 * i))
}

/// A path with bit `index` set to `val`.
pub open spec fn with_bit(path: Seq<u8>, index: int, val: bool) -> Seq<u8> {
    path.update(
        index / 8,
        if val {
            path[index / 8] | (0x80u8 >> ((index % 8) as u8))
        } else {
            path[index / 8] & !(0x80u8 >> ((index % 8) as u8))
        },
    )
}

/// The bits of a masked byte: those kept are as before, the others 0.
pub proof fn lemma_masked_byte_bits(b: u8, keep: int, t: int)
    requires
        0 <= t < 8,
    ensures
        byte_bit(masked_byte(b, keep), t) == (t < keep && byte_bit(b, t)),
{
    if keep <= 0 {
        let s: u8 = (7 - t) as u8;
        assert((0u8 >> s) & 1u8 == 0u8) by (bit_vector);
    } else if keep >= 8 {
    } else {
        let k: u16 = keep as u16;
        let s: u8 = (7 - t) as u8;
        let m: u8 = ((0xff00u16 >> k) & 0xffu16) as u8;
        assert(((b & m) >> s) & 1u8 == (if 7 - s < k {
            (b >> s) & 1u8
        } else {
            0u8
        })) by (bit_vector)
            requires
                m == ((0xff00u16 >> k) & 0xffu16) as u8,
                1 <= k < 8,
                s < 8,
        ;
    }
}

/// The bits of a masked path: the first `len` are as before, the others 0.
pub proof fn lemma_masked_bits(path: Seq<u8>, len: int, j: int)
    requires
        0 <= j < 8 * path.len(),
    ensures
        bit_at(masked(path, len), j) == (j < len && bit_at(path, j)),
{
    let i = j / 8;
    let t = j % 8;
    lemma_masked_byte_bits(path[i], len - 8 * i, t);
}

/// The bits of a byte with one bit set or cleared.
pub proof fn lemma_with_bit_byte(b: u8, k: int, val: bool, t: int)
    requires
        0 <= k < 8,
        0 <= t < 8,
    ensures
        byte_bit(
            if val {
                b | (0x80u8 >> (k as u8))
            } else {
                b & !(0x80u8 >> (k as u8))
            },
            t,
        ) == (if t == k {
            val
        } else {
            byte_bit(b, t)
        }),
{
    let ku: u8 = k as u8;
    let s: u8 = (7 - t) as u8;
    assert(((b | (0x80u8 >> ku)) >> s) & 1u8 == (if 7 - s == ku {
        1u8
    } else {
        (b >> s) & 1u8
    })) by (bit_vector)
        requires
            ku < 8,
            s < 8,
    ;
    assert(((b & !(0x80u8 >> ku)) >> s) & 1u8 == (if 7 - s == ku {
        0u8
    } else {
        (b >> s) & 1u8
    })) by (bit_vector)
        requires
            ku < 8,
            s < 8,
    ;
}

/// The bits of a path with one bit set or cleared.
pub proof fn lemma_with_bit_bits(path: Seq<u8>, index: int, val: bool, j: int)
    requires
        0 <= index < 8 * path.len(),
        0 <= j < 8 * path.len(),
    ensures
        bit_at(with_bit(path, index, val), j) == (if j == index {
            val
        } else {
            bit_at(path, j)
        }),
{
    if j / 8 == index / 8 {
        lemma_with_bit_byte(path[index / 8], index % 8, val, j % 8);
    }
}

/// Bit `index` of a path, as 0 or 1; 0 beyond the last bit.
pub fn get_bit_be(data: &Path, index: u16) -> (out: u8)
    ensures
        out == 0 || out == 1,
        (out == 1) == (index < 256 && bit_at(data@, index as int)),
{
    if index >= 256 {
        return 0;
    }
    let byte_idx: usize = (index / 8) as usize;
    let shift: u8 = 7 - (index % 8) as u8;
    let byte = data[byte_idx];
    let out = (byte >> shift) & 1;
    assert(out == 0 || out == 1) by (bit_vector)
        requires
            out == (byte >> shift) & 1u8,
    ;
    out
}

/// Sets bit `index` of a path to `val`; does nothing beyond the last bit.
pub fn set_bit_be(data: &mut Path, index: u16, val: u8)
    ensures
        final(data)@ == if index < 256 {
            with_bit(old(data)@, index as int, val == 1)
        } else {
            old(data)@
        },
{
    if index >= 256 {
        return;
    }
    let byte_idx: usize = (index / 8) as usize;
    let bit: u8 = 0x80u8 >> (index % 8) as u8;
    if val == 1 {
        data[byte_idx] = data[byte_idx] | bit;
    } else {
        data[byte_idx] = data[byte_idx] & !bit;
    }
    assert(data@ =~= with_bit(old(data)@, index as int, val == 1));
}

/// Clears the bits of a path from `len` on; does nothing from 256 on.
pub fn mask_after_be(data: &mut Path, len: u16)
    ensures
        final(data)@ == masked(old(data)@, len as int),
{
    let ghost before = data@;
    if len >= 256 {
        assert(data@ =~= masked(before, len as int));
        return;
    }
    let byte_idx: usize = (len / 8) as usize;
    let rem: u16 = len % 8;
    if rem == 0 {
        data[byte_idx] = 0;
    } else {
        let m: u8 = ((0xff00u16 >> rem) & 0xff) as u8;
        data[byte_idx] = data[byte_idx] & m;
    }
    let mut i: usize = byte_idx + 1;
    while i < 32
        invariant
            byte_idx < i <= 32,
            byte_idx == len / 8,
            forall|j: int| 0 <= j <= byte_idx ==> data@[j] == masked(before, len as int)[j],
            forall|j: int| byte_idx < j < i ==> data@[j] == 0u8,
        decreases 32 - i,
    {
        data[i] = 0;
        i += 1;
    }
    assert(data@ =~= masked(before, len as int));
}

/// Whether the first `len` bits of `target` are those of `path`.
pub fn prefix_match_be(target: &Path, path: &Path, len: u16) -> (out: bool)
    requires
        len <= 256,
    ensures
        out == same_bits_before(target@, path@, len as int),
{
    let full_bytes: usize = (len / 8) as usize;
    let mut i: usize = 0;
    while i < full_bytes
        invariant
            i <= full_bytes <= 32,
            full_bytes == len / 8,
            forall|j: int| 0 <= j < i ==> target@[j] == path@[j],
        decreases full_bytes - i,
    {
        if target[i] != path[i] {
            proof {
                lemma_bytes_differ(target@, path@, i as int);
                assert(8 * i + 8 <= len);
                if same_bits_before(target@, path@, len as int) {
                    assert(same_bits_before(target@, path@, 8 * i + 8));
                }
            }
            return false;
        }
        i += 1;
    }
    let rem: u16 = len % 8;
    if rem > 0 {
        let m: u8 = ((0xff00u16 >> rem) & 0xff) as u8;
        let a: u8 = target[full_bytes] & m;
        let b: u8 = path[full_bytes] & m;
        proof {
            let ta = target@[full_bytes as int];
            let pa = path@[full_bytes as int];
            assert(a == masked_byte(ta, rem as int));
            assert(b == masked_byte(pa, rem as int));
            assert forall|t: int| 0 <= t < 8 implies byte_bit(a, t) == (t < rem && byte_bit(ta, t)) by {
                lemma_masked_byte_bits(ta, rem as int, t);
            }
            assert forall|t: int| 0 <= t < 8 implies byte_bit(b, t) == (t < rem && byte_bit(pa, t)) by {
                lemma_masked_byte_bits(pa, rem as int, t);
            }
            if a == b {
                assert forall|j: int| 0 <= j < len implies bit_at(target@, j) == bit_at(path@, j) by {
                    if j / 8 == full_bytes {
                        assert(byte_bit(a, j % 8) == byte_bit(b, j % 8));
                    } else {
                        assert(target@[j / 8] == path@[j / 8]);
                    }
                }
            } else {
                if same_bits_before(target@, path@, len as int) {
                    assert forall|t: int| 0 <= t < 8 implies byte_bit(a, t) == byte_bit(b, t) by {
                        if t < rem {
                            let j = 8 * full_bytes + t;
                            assert(j / 8 == full_bytes && j % 8 == t);
                            assert(bit_at(target@, j) == bit_at(path@, j));
                        }
                    }
                    crate::bits::lemma_byte_from_bits(a, b);
                }
            }
        }
        return a == b;
    }
    proof {
        assert forall|j: int| 0 <= j < len implies bit_at(target@, j) == bit_at(path@, j) by {
            assert(target@[j / 8] == path@[j / 8]);
        }
    }
    true
}

/// Two paths with different bytes at `i` differ in one of the bits of that byte.
pub proof fn lemma_bytes_differ(a: Seq<u8>, b: Seq<u8>, i: int)
    requires
        0 <= i < a.len(),
        i < b.len(),
        a[i] != b[i],
    ensures
        !same_bits_before(a, b, 8 * i + 8),
{
    if same_bits_before(a, b, 8 * i + 8) {
        assert forall|t: int| 0 <= t < 8 implies byte_bit(a[i], t) == byte_bit(b[i], t) by {
            let j = 8 * i + t;
            assert(j / 8 == i && j % 8 == t);
            assert(bit_at(a, j) == bit_at(b, j));
        }
        crate::bits::lemma_byte_from_bits(a[i], b[i]);
    }
}

/// The number of leading bits that two paths share.
pub open spec fn is_lcp_len(a: Seq<u8>, b: Seq<u8>, len: int) -> bool {
    &&& 0 <= len <= 256
    &&& same_bits_before(a, b, len)
    &&& len < 256 ==> bit_at(a, len) != bit_at(b, len)
}

/// The longest common prefix of two paths: its bits, with zeros behind them,
/// and their number.
pub fn lcp_be(a: &Path, b: &Path) -> (out: (Path, u16))
    ensures
        is_lcp_len(a@, b@, out.1 as int),
        out.0@ == masked(a@, out.1 as int),
{
    let mut byte_idx: usize = 0;
    while byte_idx < 32 && a[byte_idx] == b[byte_idx]
        invariant
            byte_idx <= 32,
            forall|j: int| 0 <= j < byte_idx ==> a@[j] == b@[j],
        decreases 32 - byte_idx,
    {
        byte_idx += 1;
    }
    let mut len: u16 = (byte_idx * 8) as u16;
    proof {
        assert forall|j: int| 0 <= j < len implies bit_at(a@, j) == bit_at(b@, j) by {
            assert(a@[j / 8] == b@[j / 8]);
        }
    }
    if byte_idx < 32 {
        proof {
            lemma_bytes_differ(a@, b@, byte_idx as int);
        }
        let mut i: u16 = 0;
        while i < 8
            invariant
                i <= 8,
                byte_idx < 32,
                len == byte_idx * 8 + i,
                same_bits_before(a@, b@, len as int),
                !same_bits_before(a@, b@, 8 * byte_idx + 8),
            decreases 8 - i,
        {
            if get_bit_be(a, len) != get_bit_be(b, len) {
                let mut prefix: Path = *a;
                mask_after_be(&mut prefix, len);
                return (prefix, len);
            }
            len += 1;
            i += 1;
        }
    }
    let mut prefix: Path = *a;
    mask_after_be(&mut prefix, len);
    (prefix, len)
}

/// The order by the first differing bit is the lexicographic order: a path
/// with a 0 where another, equal before, has a 1, comes first.
pub proof fn lemma_bits_give_lex(a: Seq<u8>, b: Seq<u8>, i: int)
    requires
        a.len() == b.len(),
        0 <= i < 8 * a.len(),
        same_bits_before(a, b, i),
        !bit_at(a, i),
        bit_at(b, i),
    ensures
        lex_lt(a, b),
{
    lemma_lex_total(a, b);
    if lex_lt(b, a) {
        let j = lemma_lex_first_bit(b, a);
        if j < i {
            assert(bit_at(a, j) == bit_at(b, j));
        } else if j > i {
            assert(bit_at(b, i) == bit_at(a, i));
        }
    }
}

/// `a` is `b` or comes before it.
pub open spec fn lex_le(a: Seq<u8>, b: Seq<u8>) -> bool {
    a == b || lex_lt(a, b)
}

/// A masked path is the path or comes before it.
pub proof fn lemma_masked_le(t: Seq<u8>, len: int)
    ensures
        lex_le(masked(t, len), t),
{
    let m = masked(t, len);
    lemma_lex_total(m, t);
    if lex_lt(t, m) {
        let j = lemma_lex_first_bit(t, m);
        lemma_masked_bits(t, len, j);
    }
}

/// Masking twice is masking to the shorter length.
pub proof fn lemma_masked_twice(t: Seq<u8>, a: int, b: int)
    requires
        a <= b,
    ensures
        masked(masked(t, b), a) == masked(t, a),
        masked(masked(t, a), b) == masked(t, a),
{
    let x = masked(masked(t, b), a);
    let y = masked(masked(t, a), b);
    let z = masked(t, a);
    assert forall|j: int| 0 <= j < 8 * t.len() implies bit_at(x, j) == bit_at(z, j) && bit_at(y, j)
        == bit_at(z, j) by {
        lemma_masked_bits(masked(t, b), a, j);
        lemma_masked_bits(masked(t, a), b, j);
        lemma_masked_bits(t, a, j);
        lemma_masked_bits(t, b, j);
    }
    lemma_path_from_bits(x, z);
    lemma_path_from_bits(y, z);
}

/// Masking to a shorter length gives the same path or an earlier one.
pub proof fn lemma_masked_monotone(t: Seq<u8>, a: int, b: int)
    requires
        a <= b,
    ensures
        lex_le(masked(t, a), masked(t, b)),
{
    lemma_masked_twice(t, a, b);
    lemma_masked_le(masked(t, b), a);
}

/// A path shares with its mask the bits that the mask keeps.
pub proof fn lemma_masked_shares(t: Seq<u8>, len: int)
    requires
        len <= 8 * t.len(),
    ensures
        same_bits_before(t, masked(t, len), len),
{
    assert forall|j: int| 0 <= j < len implies bit_at(t, j) == bit_at(masked(t, len), j) by {
        lemma_masked_bits(t, len, j);
    }
}

/// A path that is its own mask at `len`, and shares `len` bits with `t`, is
/// the mask of `t` at `len`.
pub proof fn lemma_prefix_is_mask(t: Seq<u8>, p: Seq<u8>, len: int)
    requires
        t.len() == p.len(),
        masked(p, len) == p,
        same_bits_before(t, p, len),
    ensures
        p == masked(t, len),
{
    let m = masked(t, len);
    assert forall|j: int| 0 <= j < 8 * p.len() implies bit_at(p, j) == bit_at(m, j) by {
        lemma_masked_bits(p, len, j);
        lemma_masked_bits(t, len, j);
    }
    lemma_path_from_bits(p, m);
}

/// Masking at or beyond the last bit changes nothing.
pub proof fn lemma_masked_all(t: Seq<u8>, len: int)
    requires
        len >= 8 * t.len(),
    ensures
        masked(t, len) == t,
{
    assert(masked(t, len) =~= t);
}

} // verus!
