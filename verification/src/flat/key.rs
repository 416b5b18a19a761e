//! The key of a node in the flat store, its order, and its 34-byte form.

use crate::bits::{
    lemma_lex_asymmetric, lemma_lex_total, lemma_lex_transitive, less_at, lex_lt, same_bytes_before,
};
use crate::flat::path::Path;
use vstd::prelude::*;

verus! {

/// The key of a node: the bits of its path, and how many of them count. A
/// key with 256 bits is a leaf; a shorter one is a split point.
#[derive(Clone, Copy, Debug, PartialEq, Eq, PartialOrd, Ord)]
pub struct NodeKey {
    /// The path, with zeros behind the bits that count.
    pub path: Path,
    /// The number of bits that count, up to 256.
    pub len: u16,
}

/// A key in specifications: the bytes of the path and the number of bits.
pub type KeySpec = (Seq<u8>, int);

impl View for NodeKey {
    type V = KeySpec;

    open spec fn view(&self) -> KeySpec {
        (self.path@, self.len as int)
    }
}

/// The order of keys: by path, lexicographically, and then by length.
pub open spec fn key_lt(a: KeySpec, b: KeySpec) -> bool {
    lex_lt(a.0, b.0) || (a.0 == b.0 && a.1 < b.1)
}

/// `a` is `b` or comes before it.
pub open spec fn key_le(a: KeySpec, b: KeySpec) -> bool {
    a == b || key_lt(a, b)
}

/// No key comes before itself, and no two keys come before each other.
pub proof fn lemma_key_asymmetric(a: KeySpec, b: KeySpec)
    requires
        key_lt(a, b),
    ensures
        !key_lt(b, a),
        a != b,
{
    if lex_lt(a.0, b.0) {
        lemma_lex_asymmetric(a.0, b.0);
    }
    if lex_lt(b.0, a.0) {
        lemma_lex_asymmetric(b.0, a.0);
    }
}

/// The order of keys is transitive.
pub proof fn lemma_key_transitive(a: KeySpec, b: KeySpec, c: KeySpec)
    requires
        key_lt(a, b),
        key_lt(b, c),
    ensures
        key_lt(a, c),
{
    if lex_lt(a.0, b.0) && lex_lt(b.0, c.0) {
        lemma_lex_transitive(a.0, b.0, c.0);
    }
}

/// Of two keys with paths of one length, one comes first or they are equal.
pub proof fn lemma_key_total(a: KeySpec, b: KeySpec)
    requires
        a.0.len() == b.0.len(),
    ensures
        key_lt(a, b) || key_lt(b, a) || a == b,
{
    lemma_lex_total(a.0, b.0);
}

/// Whether path `a` comes before path `b` in lexicographic order.
pub fn path_lt(a: &Path, b: &Path) -> (out: bool)
    ensures
        out == lex_lt(a@, b@),
{
    let mut i: usize = 0;
    while i < 32
        invariant
            i <= 32,
            same_bytes_before(a@, b@, i as int),
        decreases 32 - i,
    {
        if a[i] < b[i] {
            assert(less_at(a@, b@, i as int));
            return true;
        }
        if a[i] > b[i] {
            assert(less_at(b@, a@, i as int));
            proof {
                lemma_lex_asymmetric(b@, a@);
            }
            return false;
        }
        i += 1;
    }
    proof {
        assert(a@ =~= b@);
        if lex_lt(a@, b@) {
            lemma_lex_asymmetric(a@, b@);
        }
    }
    false
}

/// Whether two paths are the same 32 bytes.
pub fn paths_equal(a: &Path, b: &Path) -> (out: bool)
    ensures
        out == (a@ == b@),
{
    crate::merkle_proof::hashes_equal(a, b)
}

/// Whether key `a` comes before key `b`.
pub fn key_less(a: &NodeKey, b: &NodeKey) -> (out: bool)
    ensures
        out == key_lt(a@, b@),
{
    if path_lt(&a.path, &b.path) {
        return true;
    }
    paths_equal(&a.path, &b.path) && a.len < b.len
}

/// Whether two keys are the same.
pub fn keys_equal(a: &NodeKey, b: &NodeKey) -> (out: bool)
    ensures
        out == (a@ == b@),
{
    a.len == b.len && paths_equal(&a.path, &b.path)
}

/// The 34-byte form of a key: the path, then the length, high byte first.
pub open spec fn key_bytes(k: KeySpec) -> Seq<u8> {
    k.0 + seq![(k.1 / 256) as u8, (k.1 % 256) as u8]
}

/// The 34-byte form of a key, under which the store holds its node. The
/// byte order of these forms is the order of the keys
/// (`lemma_serialized_order`).
pub fn serialize_key(key: &NodeKey) -> (out: Vec<u8>)
    ensures
        out@ == key_bytes(key@),
        out@.len() == 34,
{
    let mut v: Vec<u8> = Vec::with_capacity(34);
    let mut i: usize = 0;
    while i < 32
        invariant
            i <= 32,
            v@ == key.path@.take(i as int),
        decreases 32 - i,
    {
        v.push(key.path[i]);
        assert(key.path@.take(i + 1) =~= key.path@.take(i as int).push(key.path@[i as int]));
        i += 1;
    }
    v.push((key.len / 256) as u8);
    v.push((key.len % 256) as u8);
    assert(v@ =~= key_bytes(key@));
    v
}

/// Two keys stand in the order of what `serialize_key` gives for them,
/// compared byte by byte: a store ordered by those bytes walks the nodes in
/// the order of their keys, and a seek in it is a seek among the keys.
pub proof fn lemma_serialized_order(a: NodeKey, b: NodeKey)
    ensures
        key_lt(a@, b@) <==> lex_lt(key_bytes(a@), key_bytes(b@)),
        a@ == b@ <==> key_bytes(a@) == key_bytes(b@),
{
    lemma_key_order_is_byte_order(a@, b@);
    lemma_key_round_trip(a@);
    lemma_key_round_trip(b@);
}

/// The key whose 34-byte form `data` starts with.
pub fn deserialize_key(data: &[u8]) -> (out: NodeKey)
    requires
        data@.len() >= 34,
    ensures
        out.path@ == data@.subrange(0, 32),
        out.len == data@[32] as int * 256 + data@[33] as int,
{
    let mut path: Path = [0u8; 32];
    let mut i: usize = 0;
    while i < 32
        invariant
            i <= 32,
            data@.len() >= 34,
            forall|j: int| 0 <= j < i ==> path@[j] == data@[j],
        decreases 32 - i,
    {
        path[i] = data[i];
        i += 1;
    }
    assert(path@ =~= data@.subrange(0, 32));
    let len: u16 = (data[32] as u16) * 256 + data[33] as u16;
    NodeKey { path, len }
}

/// Round trip: a key read from its 34-byte form is the key.
pub proof fn lemma_key_round_trip(k: KeySpec)
    requires
        k.0.len() == 32,
        0 <= k.1 < 65536,
    ensures
        key_bytes(k).len() == 34,
        key_bytes(k).subrange(0, 32) == k.0,
        key_bytes(k)[32] as int * 256 + key_bytes(k)[33] as int == k.1,
{
    assert(key_bytes(k).subrange(0, 32) =~= k.0);
}

/// The order of keys is the lexicographic order of their 34-byte forms, so
/// an ordered store of bytes holds the nodes in the order of their keys.
pub proof fn lemma_key_order_is_byte_order(a: KeySpec, b: KeySpec)
    requires
        a.0.len() == 32,
        b.0.len() == 32,
        0 <= a.1 < 65536,
        0 <= b.1 < 65536,
    ensures
        key_lt(a, b) <==> lex_lt(key_bytes(a), key_bytes(b)),
{
    let x = key_bytes(a);
    let y = key_bytes(b);
    if key_lt(a, b) {
        lemma_key_less_bytes(a, b);
    }
    if lex_lt(x, y) {
        lemma_key_total(a, b);
        if key_lt(b, a) {
            lemma_key_less_bytes(b, a);
            lemma_lex_asymmetric(x, y);
        } else if a == b {
            lemma_lex_asymmetric(x, y);
        }
    }
}

/// A key that comes before another has the smaller 34-byte form.
proof fn lemma_key_less_bytes(a: KeySpec, b: KeySpec)
    requires
        a.0.len() == 32,
        b.0.len() == 32,
        0 <= a.1 < 65536,
        0 <= b.1 < 65536,
        key_lt(a, b),
    ensures
        lex_lt(key_bytes(a), key_bytes(b)),
{
    let x = key_bytes(a);
    let y = key_bytes(b);
    if lex_lt(a.0, b.0) {
        let k = choose|k: int| #[trigger] less_at(a.0, b.0, k);
        assert(less_at(x, y, k)) by {
            assert forall|i: int| 0 <= i < k implies x[i] == y[i] by {
                assert(a.0[i] == b.0[i]);
            }
        }
    } else {
        assert forall|i: int| 0 <= i < 32 implies x[i] == y[i] by {
            assert(x[i] == a.0[i]);
        }
        if a.1 / 256 < b.1 / 256 {
            assert(less_at(x, y, 32));
        } else {
            assert(a.1 / 256 == b.1 / 256);
            assert(x[32] == y[32]);
            assert(less_at(x, y, 33));
        }
    }
}

} // verus!
