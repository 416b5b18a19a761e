//! Writing terms as bytes.

use crate::de::{TAG_BYTES, TAG_FALSE, TAG_INT, TAG_MAP, TAG_SEQ, TAG_TRUE, TAG_UNIT};
use crate::error::{is_message, Error};
use crate::varint::{encode_varint, varint_bytes};
use vstd::prelude::*;
use vstd::string::StringSliceAdditionalSpecFns;

verus! {

/// A writer that collects the bytes of the terms written to it.
pub struct Serializer {
    /// The bytes written so far.
    pub output: Vec<u8>,
}

/// The encoding of a truth value.
pub open spec fn bool_bytes(v: bool) -> Seq<u8> {
    if v {
        seq![TAG_TRUE]
    } else {
        seq![TAG_FALSE]
    }
}

/// The encoding of an integer term.
pub open spec fn int_bytes(v: int) -> Seq<u8> {
    seq![TAG_INT] + varint_bytes(v)
}

/// The encoding of a byte string.
pub open spec fn binary_bytes(v: Seq<u8>) -> Seq<u8> {
    seq![TAG_BYTES] + varint_bytes(v.len() as int) + v
}

/// The head of a list of `len` terms.
pub open spec fn seq_head_bytes(len: int) -> Seq<u8> {
    seq![TAG_SEQ] + varint_bytes(len)
}

/// The head of a map of `len` pairs.
pub open spec fn map_head_bytes(len: int) -> Seq<u8> {
    seq![TAG_MAP] + varint_bytes(len)
}

/// The head of an enum variant with content: a map of one pair, whose key is
/// the name of the variant.
pub open spec fn variant_head_bytes(name: Seq<u8>) -> Seq<u8> {
    map_head_bytes(1) + binary_bytes(name)
}

impl Serializer {
    /// A writer that has written nothing.
    pub fn new() -> (out: Self)
        ensures
            out.output@ == Seq::<u8>::empty(),
    {
        Serializer { output: Vec::new() }
    }

    /// Writes a truth value.
    pub fn write_bool(&mut self, v: bool)
        ensures
            final(self).output@ == old(self).output@ + bool_bytes(v),
    {
        self.output.push(if v {
            TAG_TRUE
        } else {
            TAG_FALSE
        });
        assert(self.output@ =~= old(self).output@ + bool_bytes(v));
    }

    /// Writes an integer.
    pub fn write_i128(&mut self, v: i128)
        ensures
            final(self).output@ == old(self).output@ + int_bytes(v as int),
    {
        self.output.push(TAG_INT);
        encode_varint(&mut self.output, v);
        assert(self.output@ =~= old(self).output@ + int_bytes(v as int));
    }

    /// Writes an unsigned integer, if it fits in 128 bits with sign.
    pub fn write_u128(&mut self, v: u128) -> (out: Result<(), Error>)
        ensures
            match out {
                Ok(_) => v <= i128::MAX && final(self).output@ == old(self).output@ + int_bytes(
                    v as int,
                ),
                Err(e) => v > i128::MAX && is_message(e, "u128 too large"@) && final(self).output@
                    == old(self).output@,
            },
    {
        if v > i128::MAX as u128 {
            return Err(Error::Message("u128 too large".to_owned()));
        }
        self.write_i128(v as i128);
        Ok(())
    }

    /// Writes a byte string.
    pub fn write_bytes(&mut self, v: &[u8])
        requires
            v@.len() <= i128::MAX,
        ensures
            final(self).output@ == old(self).output@ + binary_bytes(v@),
    {
        self.output.push(TAG_BYTES);
        encode_varint(&mut self.output, v.len() as i128);
        append_bytes(&mut self.output, v);
        assert(self.output@ =~= old(self).output@ + binary_bytes(v@));
    }

    /// Writes a text, as the byte string of its UTF-8 form.
    pub fn write_str(&mut self, v: &str)
        requires
            v.spec_bytes().len() <= i128::MAX,
        ensures
            final(self).output@ == old(self).output@ + binary_bytes(v.spec_bytes()),
    {
        self.write_bytes(v.as_bytes());
    }

    /// Writes the unit term, which also stands for an absent value.
    pub fn write_unit(&mut self)
        ensures
            final(self).output@ == old(self).output@ + seq![TAG_UNIT],
    {
        self.output.push(TAG_UNIT);
        assert(self.output@ =~= old(self).output@ + seq![TAG_UNIT]);
    }

    /// Writes the head of a list; a list of unknown length is given length 0.
    pub fn write_seq_head(&mut self, len: Option<usize>)
        ensures
            final(self).output@ == old(self).output@ + seq_head_bytes(
                match len {
                    Some(n) => n as int,
                    None => 0,
                },
            ),
    {
        let n: usize = match len {
            Some(n) => n,
            None => 0,
        };
        self.output.push(TAG_SEQ);
        encode_varint(&mut self.output, n as i128);
        assert(self.output@ =~= old(self).output@ + seq_head_bytes(n as int));
    }

    /// Writes the head of an enum variant with content.
    pub fn write_variant_head(&mut self, variant: &[u8])
        requires
            variant@.len() <= i128::MAX,
        ensures
            final(self).output@ == old(self).output@ + variant_head_bytes(variant@),
    {
        self.output.push(TAG_MAP);
        encode_varint(&mut self.output, 1);
        self.write_bytes(variant);
        assert(self.output@ =~= old(self).output@ + variant_head_bytes(variant@));
    }

    /// Writes the head of an enum variant with named fields: the head of a
    /// variant with content, then the tag of the map of its fields.
    pub fn write_struct_variant_head(&mut self, variant: &[u8])
        requires
            variant@.len() <= i128::MAX,
        ensures
            final(self).output@ == old(self).output@ + variant_head_bytes(variant@) + seq![TAG_MAP],
    {
        self.write_variant_head(variant);
        self.output.push(TAG_MAP);
    }
}

/// Appends `bytes` to `buf`.
pub fn append_bytes(buf: &mut Vec<u8>, bytes: &[u8])
    ensures
        final(buf)@ == old(buf)@ + bytes@,
{
    let ghost start = buf@;
    let mut i: usize = 0;
    while i < bytes.len()
        invariant
            i <= bytes@.len(),
            buf@ == start + bytes@.take(i as int),
        decreases bytes@.len() - i,
    {
        buf.push(bytes[i]);
        assert(bytes@.take(i + 1) =~= bytes@.take(i as int).push(bytes@[i as int]));
        assert(buf@ =~= start + bytes@.take(i + 1));
        i += 1;
    }
    assert(bytes@.take(bytes@.len() as int) =~= bytes@);
}

/// A writer for a map: it collects the encoded keys and values, and writes
/// them in order when the map ends.
pub struct MapSerializer {
    /// The encoded keys, each with its encoded value.
    pub entries: Vec<(Vec<u8>, Vec<u8>)>,
}

/// `a` and `b` agree before position `k`, where `a` ends or has the smaller byte.
pub open spec fn bytes_less_at(a: Seq<u8>, b: Seq<u8>, k: int) -> bool {
    &&& 0 <= k <= a.len()
    &&& k < b.len()
    &&& forall|i: int| 0 <= i < k ==> a[i] == b[i]
    &&& k < a.len() ==> a[k] < b[k]
}

/// Lexicographic order on byte strings of any length: the order of vectors of bytes.
pub open spec fn bytes_lt(a: Seq<u8>, b: Seq<u8>) -> bool {
    exists|k: int| #[trigger] bytes_less_at(a, b, k)
}

/// The order of encoded map entries: by key, then by value.
pub open spec fn entry_le(x: (Seq<u8>, Seq<u8>), y: (Seq<u8>, Seq<u8>)) -> bool {
    bytes_lt(x.0, y.0) || (x.0 == y.0 && (x.1 == y.1 || bytes_lt(x.1, y.1)))
}

/// The entries as pairs of byte strings.
pub open spec fn entries_view(s: Seq<(Vec<u8>, Vec<u8>)>) -> Seq<(Seq<u8>, Seq<u8>)> {
    Seq::new(s.len(), |i: int| (s[i].0@, s[i].1@))
}

/// The entries stand in order.
pub open spec fn entries_sorted(s: Seq<(Seq<u8>, Seq<u8>)>) -> bool {
    forall|i: int, j: int| 0 <= i < j < s.len() ==> entry_le(s[i], s[j])
}

/// `sorted` holds the entries of `s`, in order.
pub open spec fn is_sorted_form(sorted: Seq<(Seq<u8>, Seq<u8>)>, s: Seq<(Seq<u8>, Seq<u8>)>) -> bool {
    sorted.to_multiset() == s.to_multiset() && entries_sorted(sorted)
}

/// The bytes of the entries, one after the other: key, value, key, value.
pub open spec fn entries_bytes(s: Seq<(Seq<u8>, Seq<u8>)>) -> Seq<u8>
    decreases s.len(),
{
    if s.len() == 0 {
        Seq::<u8>::empty()
    } else {
        entries_bytes(s.drop_last()) + s.last().0 + s.last().1
    }
}

/// `after` is `before` with a map of the given entries behind it: the head
/// with their number, then the entries in order.
pub open spec fn is_map_output(
    after: Seq<u8>,
    before: Seq<u8>,
    given: Seq<(Seq<u8>, Seq<u8>)>,
) -> bool {
    exists|sorted: Seq<(Seq<u8>, Seq<u8>)>| #[trigger]
        is_sorted_form(sorted, given) && after == before + map_head_bytes(given.len() as int)
            + entries_bytes(sorted)
}

/// Sorts the entries with `sort_unstable` of slices, by the order of their
/// items: pairs compare by the first part and then the second, vectors of
/// bytes lexicographically. The list afterwards holds the same entries, in order.
#[verifier::external_body]
fn sort_entries(entries: &mut Vec<(Vec<u8>, Vec<u8>)>)
    ensures
        is_sorted_form(entries_view(final(entries)@), entries_view(old(entries)@)),
{
    entries.sort_unstable();
}

impl MapSerializer {
    /// A writer for a map without entries.
    pub fn new() -> (out: Self)
        ensures
            out.entries@.len() == 0,
    {
        MapSerializer { entries: Vec::new() }
    }

    /// Takes the encoded key of the next entry; its value is empty until it is set.
    pub fn push_key(&mut self, key: Vec<u8>)
        ensures
            final(self).entries@.len() == old(self).entries@.len() + 1,
            final(self).entries@.drop_last() == old(self).entries@,
            final(self).entries@.last().0 == key,
            final(self).entries@.last().1@ == Seq::<u8>::empty(),
    {
        self.entries.push((key, Vec::new()));
        assert(self.entries@.drop_last() =~= old(self).entries@);
    }

    /// Sets the encoded value of the entry whose key was taken last.
    pub fn set_value(&mut self, value: Vec<u8>)
        requires
            old(self).entries@.len() > 0,
        ensures
            final(self).entries@ == old(self).entries@.update(
                old(self).entries@.len() - 1,
                (old(self).entries@.last().0, value),
            ),
    {
        let n = self.entries.len();
        self.entries[n - 1].1 = value;
        assert(self.entries@ =~= old(self).entries@.update(n - 1, (old(self).entries@.last().0, value)));
    }

    /// Ends the map: writes to `ser` the head with the number of entries,
    /// then the entries in order.
    pub fn end_map(self, ser: &mut Serializer) -> (out: Result<(), Error>)
        ensures
            out is Ok,
            is_map_output(final(ser).output@, old(ser).output@, entries_view(self.entries@)),
    {
        let ghost start = ser.output@;
        let ghost given = entries_view(self.entries@);
        let mut entries = self.entries;
        sort_entries(&mut entries);
        let ghost sorted = entries_view(entries@);
        proof {
            broadcast use vstd::seq_lib::group_to_multiset_ensures;

            assert(sorted.len() == given.len()) by {
                assert(sorted.to_multiset().len() == given.to_multiset().len());
            }
        }
        let n = entries.len();
        ser.output.push(TAG_MAP);
        encode_varint(&mut ser.output, n as i128);
        let ghost head = start + map_head_bytes(n as int);
        assert(ser.output@ =~= head);
        let mut i: usize = 0;
        while i < n
            invariant
                i <= n,
                n == entries@.len(),
                sorted == entries_view(entries@),
                ser.output@ == head + entries_bytes(sorted.take(i as int)),
            decreases n - i,
        {
            append_bytes(&mut ser.output, entries[i].0.as_slice());
            append_bytes(&mut ser.output, entries[i].1.as_slice());
            proof {
                let t = sorted.take(i + 1);
                assert(t.drop_last() =~= sorted.take(i as int));
                assert(t.last() == sorted[i as int]);
                assert(ser.output@ =~= head + entries_bytes(t));
            }
            i += 1;
        }
        assert(sorted.take(n as int) =~= sorted);
        assert(is_sorted_form(sorted, given));
        Ok(())
    }
}

/// No byte string comes before itself, and no two before each other.
pub proof fn lemma_bytes_asymmetric(a: Seq<u8>, b: Seq<u8>)
    requires
        bytes_lt(a, b),
    ensures
        !bytes_lt(b, a),
        a != b,
{
    let k = choose|k: int| #[trigger] bytes_less_at(a, b, k);
    if bytes_lt(b, a) {
        let j = choose|j: int| #[trigger] bytes_less_at(b, a, j);
        if k < j {
            assert(b[k] == a[k]);
        } else if j < k {
            assert(a[j] == b[j]);
        }
    }
}

/// The order of byte strings is transitive.
pub proof fn lemma_bytes_transitive(a: Seq<u8>, b: Seq<u8>, c: Seq<u8>)
    requires
        bytes_lt(a, b),
        bytes_lt(b, c),
    ensures
        bytes_lt(a, c),
{
    let k = choose|k: int| #[trigger] bytes_less_at(a, b, k);
    let j = choose|j: int| #[trigger] bytes_less_at(b, c, j);
    let m = if k < j {
        k
    } else {
        j
    };
    assert forall|i: int| 0 <= i < m implies a[i] == c[i] by {
        assert(a[i] == b[i] && b[i] == c[i]);
    }
    if k < j {
        assert(b[k] == c[k]);
    } else if j < k {
        assert(a[j] == b[j]);
    }
    assert(bytes_less_at(a, c, m));
}

/// Two byte strings that agree before `k` are equal, or one comes first.
pub proof fn lemma_bytes_total(a: Seq<u8>, b: Seq<u8>, k: int)
    requires
        0 <= k <= a.len(),
        k <= b.len(),
        forall|i: int| 0 <= i < k ==> a[i] == b[i],
    ensures
        a == b || bytes_lt(a, b) || bytes_lt(b, a),
    decreases a.len() - k,
{
    if k == a.len() {
        if k == b.len() {
            assert(a =~= b);
        } else {
            assert(bytes_less_at(a, b, k));
        }
    } else if k == b.len() {
        assert(bytes_less_at(b, a, k));
    } else if a[k] < b[k] {
        assert(bytes_less_at(a, b, k));
    } else if b[k] < a[k] {
        assert(bytes_less_at(b, a, k));
    } else {
        lemma_bytes_total(a, b, k + 1);
    }
}

/// The order of encoded map entries is a total order.
pub proof fn lemma_entry_order_total()
    ensures
        vstd::relations::total_ordering(|x: (Seq<u8>, Seq<u8>), y: (Seq<u8>, Seq<u8>)| entry_le(x, y)),
{
    let leq = |x: (Seq<u8>, Seq<u8>), y: (Seq<u8>, Seq<u8>)| entry_le(x, y);
    assert forall|x: (Seq<u8>, Seq<u8>)| #[trigger] leq(x, x) by {}
    assert forall|x: (Seq<u8>, Seq<u8>), y: (Seq<u8>, Seq<u8>)| #[trigger] leq(x, y) && #[trigger] leq(
        y,
        x,
    ) implies x == y by {
        if bytes_lt(x.0, y.0) {
            lemma_bytes_asymmetric(x.0, y.0);
        }
        if bytes_lt(y.0, x.0) {
            lemma_bytes_asymmetric(y.0, x.0);
        }
        if bytes_lt(x.1, y.1) {
            lemma_bytes_asymmetric(x.1, y.1);
        }
        if bytes_lt(y.1, x.1) {
            lemma_bytes_asymmetric(y.1, x.1);
        }
    }
    assert forall|x: (Seq<u8>, Seq<u8>), y: (Seq<u8>, Seq<u8>), z: (Seq<u8>, Seq<u8>)| #[trigger]
        leq(x, y) && #[trigger] leq(y, z) implies leq(x, z) by {
        if bytes_lt(x.0, y.0) && bytes_lt(y.0, z.0) {
            lemma_bytes_transitive(x.0, y.0, z.0);
        }
        if x.0 == y.0 && y.0 == z.0 {
            if bytes_lt(x.1, y.1) && bytes_lt(y.1, z.1) {
                lemma_bytes_transitive(x.1, y.1, z.1);
            }
        }
    }
    assert forall|x: (Seq<u8>, Seq<u8>), y: (Seq<u8>, Seq<u8>)| #[trigger] leq(x, y) || #[trigger] leq(
        y,
        x,
    ) by {
        lemma_bytes_total(x.0, y.0, 0);
        lemma_bytes_total(x.1, y.1, 0);
    }
}

/// The bytes of a map are fixed by its entries: there is one way to write
/// them in order.
pub proof fn lemma_map_output_unique(
    one: Seq<u8>,
    other: Seq<u8>,
    before: Seq<u8>,
    given: Seq<(Seq<u8>, Seq<u8>)>,
)
    requires
        is_map_output(one, before, given),
        is_map_output(other, before, given),
    ensures
        one == other,
{
    let leq = |x: (Seq<u8>, Seq<u8>), y: (Seq<u8>, Seq<u8>)| entry_le(x, y);
    let a = choose|sorted: Seq<(Seq<u8>, Seq<u8>)>| #[trigger]
        is_sorted_form(sorted, given) && one == before + map_head_bytes(given.len() as int)
            + entries_bytes(sorted);
    let b = choose|sorted: Seq<(Seq<u8>, Seq<u8>)>| #[trigger]
        is_sorted_form(sorted, given) && other == before + map_head_bytes(given.len() as int)
            + entries_bytes(sorted);
    lemma_entry_order_total();
    assert(vstd::relations::sorted_by(a, leq)) by {
        assert forall|i: int, j: int| 0 <= i < j < a.len() implies #[trigger] leq(a[i], a[j]) by {
            assert(entry_le(a[i], a[j]));
        }
    }
    assert(vstd::relations::sorted_by(b, leq)) by {
        assert forall|i: int, j: int| 0 <= i < j < b.len() implies #[trigger] leq(b[i], b[j]) by {
            assert(entry_le(b[i], b[j]));
        }
    }
    vstd::seq_lib::lemma_sorted_unique(a, b, leq);
}

} // verus!
