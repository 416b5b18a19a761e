//! Hash primitives: SHA-256 behind a named result, and the zero-collapse rule.

use sha2::Digest;
use vstd::prelude::*;

verus! {

/// A 32-byte hash, key or value.
pub type Bytes32 = [u8; 32];

/// The first 31 bytes of a key.
pub type Stem = [u8; 31];

/// The SHA-256 digest of a byte string, as the `sha2` crate computes it.
pub uninterp spec fn sha256_spec(data: Seq<u8>) -> Seq<u8>;

/// Thirty-two zero bytes: the hash of every subtree without bindings.
pub open spec fn zero32() -> Seq<u8> {
    Seq::new(32, |i: int| 0u8)
}

/// Every byte of `s` is zero.
pub open spec fn all_zero(s: Seq<u8>) -> bool {
    forall|i: int| 0 <= i < s.len() ==> s[i] == 0u8
}

/// SHA-256 under the zero-collapse rule: sixty-four zero bytes hash to
/// thirty-two zero bytes, everything else to its digest.
pub open spec fn collapse_hash(data: Seq<u8>) -> Seq<u8> {
    if data.len() == 64 && all_zero(data) {
        zero32()
    } else {
        sha256_spec(data)
    }
}

/// The hash of an internal node over its two children.
pub open spec fn pair_hash(left: Seq<u8>, right: Seq<u8>) -> Seq<u8> {
    collapse_hash(left + right)
}

/// The hash of a stem leaf: the stem, a zero separator byte, the bucket root.
pub open spec fn stem_leaf_hash(stem: Seq<u8>, subtree_root: Seq<u8>) -> Seq<u8> {
    collapse_hash(stem + seq![0u8] + subtree_root)
}

/// Zero-collapse: the pair of two zero hashes is the zero hash.
pub proof fn lemma_pair_of_zeros()
    ensures
        pair_hash(zero32(), zero32()) == zero32(),
{
    assert((zero32() + zero32()).len() == 64);
    assert(all_zero(zero32() + zero32()));
}

/// Calls `sha2::Sha256::digest` on `data` and converts the output to an array.
/// The contract names the digest: equal inputs give equal outputs.
#[verifier::external_body]
fn digest_of(data: &[u8]) -> (out: Bytes32)
    ensures
        out@ == sha256_spec(data@),
{
    sha2::Sha256::digest(data).into()
}

/// The SHA-256 digest of `data`.
pub fn sha256_32(data: &[u8]) -> (out: Bytes32)
    ensures
        out@ == sha256_spec(data@),
{
    digest_of(data)
}

/// Thirty-two zero bytes.
pub fn zero_hash() -> (out: Bytes32)
    ensures
        out@ == zero32(),
{
    let out = [0u8; 32];
    assert(out@ =~= zero32());
    out
}

/// Whether every byte of `data` is zero.
pub fn is_all_zero(data: &[u8]) -> (out: bool)
    ensures
        out == all_zero(data@),
{
    let mut i: usize = 0;
    while i < data.len()
        invariant
            i <= data@.len(),
            forall|j: int| 0 <= j < i ==> data@[j] == 0u8,
        decreases data@.len() - i,
    {
        if data[i] != 0 {
            return false;
        }
        i += 1;
    }
    true
}

/// SHA-256 of `data`, except that sixty-four zero bytes give thirty-two zero bytes.
pub fn h32or64(data: &[u8]) -> (out: Bytes32)
    ensures
        out@ == collapse_hash(data@),
{
    if data.len() == 64 && is_all_zero(data) {
        return zero_hash();
    }
    sha256_32(data)
}

/// The hash of an internal node with children `left` and `right`.
pub fn h_pair(left: &Bytes32, right: &Bytes32) -> (out: Bytes32)
    ensures
        out@ == pair_hash(left@, right@),
{
    let mut buf = [0u8; 64];
    let mut i: usize = 0;
    while i < 32
        invariant
            i <= 32,
            forall|j: int| 0 <= j < i ==> buf@[j] == left@[j] && buf@[32 + j] == right@[j],
        decreases 32 - i,
    {
        buf[i] = left[i];
        buf[32 + i] = right[i];
        i += 1;
    }
    assert(buf@ =~= left@ + right@);
    h32or64(&buf)
}

/// The hash of the stem leaf for `stem` whose bucket has root `subtree_root`.
pub fn stem_node_hash(stem: &Stem, subtree_root: &Bytes32) -> (out: Bytes32)
    ensures
        out@ == stem_leaf_hash(stem@, subtree_root@),
{
    let mut buf = [0u8; 64];
    let mut i: usize = 0;
    while i < 31
        invariant
            i <= 31,
            buf@[31] == 0u8,
            forall|j: int| 0 <= j < i ==> buf@[j] == stem@[j],
        decreases 31 - i,
    {
        buf[i] = stem[i];
        i += 1;
    }
    let mut k: usize = 0;
    while k < 32
        invariant
            k <= 32,
            buf@[31] == 0u8,
            forall|j: int| 0 <= j < 31 ==> buf@[j] == stem@[j],
            forall|j: int| 0 <= j < k ==> buf@[32 + j] == subtree_root@[j],
        decreases 32 - k,
    {
        buf[32 + k] = subtree_root[k];
        k += 1;
    }
    assert(buf@ =~= stem@ + seq![0u8] + subtree_root@);
    h32or64(&buf)
}

/// An input that is not what an operation asks for.
#[derive(Debug, Clone, Copy, PartialEq, Eq)]
pub enum InputError {
    /// A key, a value or a hash that does not have 32 bytes.
    MalformedInput,
}

/// The 32 bytes of `data` as a key, a value or a hash; an error where `data`
/// has another length.
pub fn bytes32_from_slice(data: &[u8]) -> (out: Result<Bytes32, InputError>)
    ensures
        match out {
            Ok(bytes) => data@.len() == 32 && bytes@ == data@,
            Err(e) => data@.len() != 32,
        },
{
    if data.len() != 32 {
        return Err(InputError::MalformedInput);
    }
    let mut bytes: Bytes32 = [0u8; 32];
    let mut i: usize = 0;
    while i < 32
        invariant
            i <= 32,
            data@.len() == 32,
            forall|j: int| 0 <= j < i ==> bytes@[j] == data@[j],
        decreases 32 - i,
    {
        bytes[i] = data[i];
        i += 1;
    }
    assert(bytes@ =~= data@);
    Ok(bytes)
}

/// Every pair has a key and a value of 32 bytes.
pub open spec fn all_sized(pairs: Seq<(Vec<u8>, Vec<u8>)>) -> bool {
    forall|i: int| 0 <= i < pairs.len() ==> (#[trigger] pairs[i]).0@.len() == 32 && pairs[i].1@.len() == 32
}

/// The pairs as entries of 32-byte keys and values; an error where a key or
/// a value has another length.
pub fn entries_from_slices(pairs: &[(Vec<u8>, Vec<u8>)]) -> (out: Result<Vec<(Bytes32, Bytes32)>, InputError>)
    ensures
        match out {
            Ok(entries) => all_sized(pairs@) && entries@.len() == pairs@.len() && forall|i: int|
                0 <= i < entries@.len() ==> (#[trigger] entries@[i]).0@ == pairs@[i].0@ && entries@[i].1@
                    == pairs@[i].1@,
            Err(e) => !all_sized(pairs@),
        },
{
    let mut entries: Vec<(Bytes32, Bytes32)> = Vec::with_capacity(pairs.len());
    let mut i: usize = 0;
    while i < pairs.len()
        invariant
            i <= pairs@.len(),
            entries@.len() == i,
            forall|j: int|
                0 <= j < i ==> (#[trigger] pairs@[j]).0@.len() == 32 && pairs@[j].1@.len() == 32,
            forall|j: int|
                0 <= j < i ==> (#[trigger] entries@[j]).0@ == pairs@[j].0@ && entries@[j].1@
                    == pairs@[j].1@,
        decreases pairs@.len() - i,
    {
        let key = match bytes32_from_slice(pairs[i].0.as_slice()) {
            Ok(key) => key,
            Err(e) => {
                return Err(e);
            },
        };
        let value = match bytes32_from_slice(pairs[i].1.as_slice()) {
            Ok(value) => value,
            Err(e) => {
                return Err(e);
            },
        };
        entries.push((key, value));
        i += 1;
    }
    Ok(entries)
}

} // verus!
