//! Canonical variable-length integers: a head byte with the sign bit and the
//! number of magnitude bytes, then the magnitude, big-endian, without leading
//! zero bytes. Zero is the single byte 0.

use vstd::prelude::*;

verus! {

/// 256 to the power `n`.
pub open spec fn pow256(n: nat) -> nat
    decreases n,
{
    if n == 0 {
        1
    } else {
        256 * pow256((n - 1) as nat)
    }
}

/// The number that a byte string spells, big-endian.
pub open spec fn be_value(bytes: Seq<u8>) -> nat
    decreases bytes.len(),
{
    if bytes.len() == 0 {
        0
    } else {
        be_value(bytes.drop_last()) * 256 + bytes.last() as nat
    }
}

/// The shortest big-endian spelling of a number; empty for zero.
pub open spec fn be_bytes(v: nat) -> Seq<u8>
    decreases v,
{
    if v == 0 {
        Seq::<u8>::empty()
    } else {
        be_bytes(v / 256).push((v % 256) as u8)
    }
}

/// The magnitude of an integer.
pub open spec fn magnitude(v: int) -> nat {
    if v < 0 {
        (-v) as nat
    } else {
        v as nat
    }
}

/// The head byte of a varint: 128 for a negative number, plus the number of
/// magnitude bytes.
pub open spec fn head_byte(negative: bool, len: nat) -> u8 {
    if negative {
        (128 + len) as u8
    } else {
        len as u8
    }
}

/// The encoding of an integer.
pub open spec fn varint_bytes(v: int) -> Seq<u8> {
    if v == 0 {
        seq![0u8]
    } else {
        seq![head_byte(v < 0, be_bytes(magnitude(v)).len())] + be_bytes(magnitude(v))
    }
}

/// Why a byte string is not a varint.
#[derive(PartialEq, Eq, Structural, Clone, Copy, Debug)]
pub enum VarintError {
    /// The input ends inside the varint.
    Eof,
    /// The magnitude has more than sixteen bytes.
    TooLong,
    /// A negative zero, or a magnitude with a leading zero byte.
    NonCanonical,
    /// The number does not fit in 128 bits with sign.
    OutOfRange,
}

/// The varint that starts at `pos` of `input`: its value and the position
/// behind it, or the reason why there is none.
pub open spec fn varint_at(input: Seq<u8>, pos: int) -> Result<(int, int), VarintError> {
    if pos < 0 || pos >= input.len() {
        Err(VarintError::Eof)
    } else if input[pos] == 0 {
        Ok((0, pos + 1))
    } else {
        let negative = input[pos] >= 128;
        let len = input[pos] as int % 128;
        if len == 0 {
            Err(VarintError::NonCanonical)
        } else if len > 16 {
            Err(VarintError::TooLong)
        } else if pos + 1 + len > input.len() {
            Err(VarintError::Eof)
        } else if input[pos + 1] == 0 {
            Err(VarintError::NonCanonical)
        } else {
            let mag = be_value(input.subrange(pos + 1, pos + 1 + len));
            if negative && mag > 0x8000_0000_0000_0000_0000_0000_0000_0000 {
                Err(VarintError::OutOfRange)
            } else if !negative && mag > 0x7fff_ffff_ffff_ffff_ffff_ffff_ffff_ffff {
                Err(VarintError::OutOfRange)
            } else if negative {
                Ok((-(mag as int), pos + 1 + len))
            } else {
                Ok((mag as int, pos + 1 + len))
            }
        }
    }
}

/// The first seventeen powers of 256.
pub proof fn lemma_pow256_values()
    ensures
        pow256(0) == 1,
        pow256(1) == 0x100,
        pow256(2) == 0x1_0000,
        pow256(3) == 0x100_0000,
        pow256(4) == 0x1_0000_0000,
        pow256(8) == 0x1_0000_0000_0000_0000,
        pow256(15) == 0x100_0000_0000_0000_0000_0000_0000_0000,
        pow256(16) == 0x1_0000_0000_0000_0000_0000_0000_0000_0000,
{
    reveal_with_fuel(pow256, 17);
}

/// Powers of 256 grow with the exponent.
pub proof fn lemma_pow256_monotone(a: nat, b: nat)
    requires
        a <= b,
    ensures
        pow256(a) <= pow256(b),
        pow256(a) >= 1,
    decreases b,
{
    if a < b {
        lemma_pow256_monotone(a, (b - 1) as nat);
    } else if a > 0 {
        lemma_pow256_monotone((a - 1) as nat, (a - 1) as nat);
    }
}

/// A byte string of `n` bytes spells a number below `256^n`.
pub proof fn lemma_be_value_bound(bytes: Seq<u8>)
    ensures
        be_value(bytes) < pow256(bytes.len()),
    decreases bytes.len(),
{
    if bytes.len() > 0 {
        lemma_be_value_bound(bytes.drop_last());
    }
}

/// A byte string that does not start with zero spells at least `256^(n-1)`.
pub proof fn lemma_be_value_lower(bytes: Seq<u8>)
    requires
        bytes.len() > 0,
        bytes[0] != 0,
    ensures
        be_value(bytes) >= pow256((bytes.len() - 1) as nat),
    decreases bytes.len(),
{
    if bytes.len() == 1 {
        assert(bytes.drop_last().len() == 0);
        assert(be_value(bytes.drop_last()) == 0);
    } else {
        assert(bytes.drop_last()[0] == bytes[0]);
        lemma_be_value_lower(bytes.drop_last());
    }
}

/// The shortest spelling of a number spells that number.
pub proof fn lemma_be_value_of_bytes(v: nat)
    ensures
        be_value(be_bytes(v)) == v,
    decreases v,
{
    if v > 0 {
        lemma_be_value_of_bytes(v / 256);
        assert(be_bytes(v).drop_last() =~= be_bytes(v / 256));
    }
}

/// The shortest spelling of a positive number is not empty and does not
/// start with zero.
pub proof fn lemma_be_bytes_canonical(v: nat)
    requires
        v > 0,
    ensures
        be_bytes(v).len() > 0,
        be_bytes(v)[0] != 0,
    decreases v,
{
    if v / 256 > 0 {
        lemma_be_bytes_canonical(v / 256);
    } else {
        assert(be_bytes(v / 256).len() == 0);
        assert(be_bytes(v)[0] == (v % 256) as u8);
    }
}

/// A number below `256^n` has a shortest spelling of at most `n` bytes.
pub proof fn lemma_be_bytes_len(v: nat, n: nat)
    requires
        v < pow256(n),
    ensures
        be_bytes(v).len() <= n,
    decreases v,
{
    if v > 0 {
        if n == 0 {
        } else {
            lemma_be_bytes_len(v / 256, (n - 1) as nat);
        }
    }
}

/// A byte string that does not start with zero is the shortest spelling of
/// the number it spells.
pub proof fn lemma_be_bytes_of_value(bytes: Seq<u8>)
    requires
        bytes.len() > 0 ==> bytes[0] != 0,
    ensures
        be_bytes(be_value(bytes)) == bytes,
    decreases bytes.len(),
{
    if bytes.len() > 0 {
        let v = be_value(bytes);
        let d = bytes.drop_last();
        if d.len() > 0 {
            assert(d[0] == bytes[0]);
            lemma_be_value_lower(d);
            lemma_pow256_monotone(0, (d.len() - 1) as nat);
        } else {
            assert(be_value(d) == 0);
        }
        lemma_be_bytes_of_value(d);
        assert(v / 256 == be_value(d));
        assert(v % 256 == bytes.last() as nat);
        assert(v > 0);
        assert(be_bytes(v) =~= bytes);
    }
}

/// Round trip: the encoding of a number that fits in 128 bits with sign,
/// with anything behind it, decodes to that number and ends where the
/// encoding ends.
pub proof fn lemma_varint_round_trip(v: int, rest: Seq<u8>)
    requires
        -0x8000_0000_0000_0000_0000_0000_0000_0000 <= v <= 0x7fff_ffff_ffff_ffff_ffff_ffff_ffff_ffff,
    ensures
        varint_at(varint_bytes(v) + rest, 0) == Ok::<(int, int), VarintError>(
            (v, varint_bytes(v).len() as int),
        ),
{
    let input = varint_bytes(v) + rest;
    if v != 0 {
        let mag = magnitude(v);
        let body = be_bytes(mag);
        lemma_pow256_values();
        lemma_be_bytes_len(mag, 16);
        lemma_be_bytes_canonical(mag);
        lemma_be_value_of_bytes(mag);
        let len = body.len() as int;
        assert(input[0] == head_byte(v < 0, body.len()));
        assert(input[0] as int % 128 == len);
        assert(input.subrange(1, 1 + len) =~= body);
        assert(input[1] == body[0]);
    }
}

/// Canonical form: the bytes of a varint that decodes are the encoding of its value.
pub proof fn lemma_varint_canonical(input: Seq<u8>, pos: int)
    requires
        varint_at(input, pos) is Ok,
    ensures
        input.subrange(pos, varint_at(input, pos)->Ok_0.1) == varint_bytes(
            varint_at(input, pos)->Ok_0.0,
        ),
{
    let (v, end) = varint_at(input, pos)->Ok_0;
    if input[pos] == 0 {
        assert(input.subrange(pos, end) =~= seq![0u8]);
    } else {
        let len = input[pos] as int % 128;
        let body = input.subrange(pos + 1, pos + 1 + len);
        assert(body[0] == input[pos + 1]);
        lemma_be_bytes_of_value(body);
        lemma_be_value_lower(body);
        lemma_pow256_monotone(0, (len - 1) as nat);
        assert(magnitude(v) == be_value(body));
        assert(input.subrange(pos, end) =~= seq![input[pos]] + body);
    }
}

/// Appends the encoding of `v` to `buf`.
pub fn encode_varint(buf: &mut Vec<u8>, v: i128)
    ensures
        final(buf)@ == old(buf)@ + varint_bytes(v as int),
{
    let ghost start = buf@;
    if v == 0 {
        buf.push(0);
        assert(buf@ =~= start + varint_bytes(0));
        return;
    }
    let negative = v < 0;
    let mag: u128 = if v >= 0 {
        v as u128
    } else if v == i128::MIN {
        0x8000_0000_0000_0000_0000_0000_0000_0000u128
    } else {
        (-v) as u128
    };
    assert(mag as nat == magnitude(v as int));
    // The magnitude bytes, lowest first.
    let mut low_first: Vec<u8> = Vec::new();
    let mut m: u128 = mag;
    while m > 0
        invariant
            be_bytes(mag as nat) == be_bytes(m as nat) + low_first@.reverse(),
            low_first@.len() + be_bytes(m as nat).len() == be_bytes(mag as nat).len(),
        decreases m,
    {
        let ghost before = low_first@;
        let b: u8 = (m % 256) as u8;
        low_first.push(b);
        proof {
            assert(be_bytes(m as nat) == be_bytes((m / 256) as nat).push(b));
            assert(low_first@.reverse() =~= seq![b] + before.reverse());
            assert(be_bytes((m / 256) as nat).push(b) + before.reverse() =~= be_bytes(
                (m / 256) as nat,
            ) + (seq![b] + before.reverse()));
        }
        m = m / 256;
    }
    proof {
        lemma_pow256_values();
        lemma_be_bytes_len(mag as nat, 16);
        assert(be_bytes(0) + low_first@.reverse() =~= low_first@.reverse());
    }
    let len = low_first.len();
    let head: u8 = if negative {
        128 + len as u8
    } else {
        len as u8
    };
    buf.push(head);
    let mut k: usize = len;
    while k > 0
        invariant
            k <= len,
            len == low_first@.len(),
            buf@ == start.push(head) + low_first@.reverse().take(len - k),
        decreases k,
    {
        k -= 1;
        let ghost before = buf@;
        buf.push(low_first[k]);
        proof {
            let r = low_first@.reverse();
            assert(r[len - 1 - k] == low_first@[k as int]);
            assert(r.take(len - k) =~= r.take(len - k - 1).push(r[len - k - 1]));
            assert(buf@ =~= start.push(head) + r.take(len - k));
        }
    }
    proof {
        let r = low_first@.reverse();
        assert(r.take(len as int) =~= r);
        assert(buf@ =~= start + varint_bytes(v as int));
    }
}

/// Reads the varint at `*pos` of `input` and moves `*pos` behind it. Where
/// there is none, `*pos` stays.
pub fn decode_varint(input: &[u8], pos: &mut usize) -> (out: Result<i128, VarintError>)
    ensures
        match varint_at(input@, *old(pos) as int) {
            Ok((v, end)) => out == Ok::<i128, VarintError>(v as i128) && v == out->Ok_0 as int
                && *final(pos) == end,
            Err(e) => out == Err::<i128, VarintError>(e) && *final(pos) == *old(pos),
        },
{
    let start = *pos;
    let n = input.len();
    if start >= n {
        return Err(VarintError::Eof);
    }
    let b0 = input[start];
    if b0 == 0 {
        *pos = start + 1;
        return Ok(0);
    }
    let negative = b0 >= 128;
    let len: usize = (b0 % 128) as usize;
    if len == 0 {
        return Err(VarintError::NonCanonical);
    }
    if len > 16 {
        return Err(VarintError::TooLong);
    }
    if n - start - 1 < len {
        return Err(VarintError::Eof);
    }
    if input[start + 1] == 0 {
        return Err(VarintError::NonCanonical);
    }
    let ghost body = input@.subrange(start + 1, start + 1 + len);
    let mut mag: u128 = 0;
    let mut k: usize = 0;
    while k < len
        invariant
            k <= len <= 16,
            n == input@.len(),
            start + 1 + len <= n,
            body == input@.subrange(start + 1, start + 1 + len),
            mag as nat == be_value(body.take(k as int)),
        decreases len - k,
    {
        let b = input[start + 1 + k];
        proof {
            let t = body.take(k + 1);
            assert(t.drop_last() =~= body.take(k as int));
            assert(t.last() == b);
            lemma_be_value_bound(body.take(k as int));
            lemma_pow256_monotone(k as nat, 15);
            lemma_pow256_values();
        }
        mag = mag * 256 + b as u128;
        k += 1;
    }
    assert(body.take(len as int) =~= body);
    if negative {
        if mag > 0x8000_0000_0000_0000_0000_0000_0000_0000u128 {
            return Err(VarintError::OutOfRange);
        }
        *pos = start + 1 + len;
        if mag == 0x8000_0000_0000_0000_0000_0000_0000_0000u128 {
            Ok(i128::MIN)
        } else {
            Ok(-(mag as i128))
        }
    } else {
        if mag > 0x7fff_ffff_ffff_ffff_ffff_ffff_ffff_ffffu128 {
            return Err(VarintError::OutOfRange);
        }
        *pos = start + 1 + len;
        Ok(mag as i128)
    }
}

} // verus!
