//! The nodes on the path of a leaf: every stored key that is a prefix of the
//! leaf's path, found by walking the ordered store backwards.

use crate::bits::{
    bit_at, lemma_lex_first_bit, lemma_lex_transitive, lemma_path_from_bits, lex_lt,
    same_bits_before,
};
use crate::flat::dirty::keys_view;
use crate::flat::key::{
    key_le, key_less, key_lt, lemma_key_asymmetric, lemma_key_transitive, KeySpec, NodeKey,
};
use crate::flat::path::{
    is_lcp_len, lcp_be, lemma_bits_give_lex, lemma_masked_all, lemma_masked_bits, lemma_masked_le,
    lemma_masked_monotone, lemma_prefix_is_mask, lex_le, masked, prefix_match_be, Path,
};
use crate::flat::store::{is_greatest_le, key_valid, none_le, FlatStore};
use vstd::prelude::*;

verus! {

/// The key of the node with the first `len` bits of `t`.
pub open spec fn cand(t: Seq<u8>, len: int) -> KeySpec {
    (masked(t, len), len)
}

/// The stored keys with the first `len` bits of `t`, for `len` from `hi`
/// down to `lo`.
pub open spec fn anc_range(m: Map<KeySpec, Seq<u8>>, t: Seq<u8>, hi: int, lo: int) -> Seq<KeySpec>
    decreases hi - lo + 1,
{
    if hi < lo {
        Seq::<KeySpec>::empty()
    } else if m.contains_key(cand(t, hi)) {
        seq![cand(t, hi)] + anc_range(m, t, hi - 1, lo)
    } else {
        anc_range(m, t, hi - 1, lo)
    }
}

/// The stored keys that are a prefix of `t`, longest first.
pub open spec fn ancestors(m: Map<KeySpec, Seq<u8>>, t: Seq<u8>) -> Seq<KeySpec> {
    anc_range(m, t, 256, 0)
}

/// A range of lengths is its upper part, then its lower part.
pub proof fn lemma_anc_split(m: Map<KeySpec, Seq<u8>>, t: Seq<u8>, hi: int, mid: int, lo: int)
    requires
        lo <= mid <= hi + 1,
    ensures
        anc_range(m, t, hi, lo) == anc_range(m, t, hi, mid) + anc_range(m, t, mid - 1, lo),
    decreases hi - lo + 1,
{
    if hi < mid {
        assert(anc_range(m, t, hi, mid) =~= Seq::<KeySpec>::empty());
        assert(Seq::<KeySpec>::empty() + anc_range(m, t, mid - 1, lo) =~= anc_range(m, t, mid - 1, lo));
    } else {
        lemma_anc_split(m, t, hi - 1, mid, lo);
        let rest = anc_range(m, t, hi - 1, mid) + anc_range(m, t, mid - 1, lo);
        if m.contains_key(cand(t, hi)) {
            assert(seq![cand(t, hi)] + rest =~= (seq![cand(t, hi)] + anc_range(m, t, hi - 1, mid))
                + anc_range(m, t, mid - 1, lo));
        }
    }
}

/// A range of lengths of which none is stored gives no key.
pub proof fn lemma_anc_none(m: Map<KeySpec, Seq<u8>>, t: Seq<u8>, hi: int, lo: int)
    requires
        forall|l: int| lo <= l <= hi ==> !m.contains_key(#[trigger] cand(t, l)),
    ensures
        anc_range(m, t, hi, lo) == Seq::<KeySpec>::empty(),
    decreases hi - lo + 1,
{
    if hi >= lo {
        assert(!m.contains_key(cand(t, hi)));
        lemma_anc_none(m, t, hi - 1, lo);
    }
}

/// The listed keys are the stored prefixes of `t`.
pub proof fn lemma_anc_contains(m: Map<KeySpec, Seq<u8>>, t: Seq<u8>, hi: int, lo: int, k: KeySpec)
    ensures
        anc_range(m, t, hi, lo).contains(k) <==> (m.contains_key(k) && lo <= k.1 <= hi && k == cand(
            t,
            k.1,
        )),
    decreases hi - lo + 1,
{
    if hi >= lo {
        lemma_anc_contains(m, t, hi - 1, lo, k);
        let rest = anc_range(m, t, hi - 1, lo);
        if m.contains_key(cand(t, hi)) {
            let all = seq![cand(t, hi)] + rest;
            if all.contains(k) {
                let i = choose|i: int| 0 <= i < all.len() && all[i] == k;
                if i > 0 {
                    assert(rest[i - 1] == k);
                }
            }
            if rest.contains(k) {
                let i = choose|i: int| 0 <= i < rest.len() && rest[i] == k;
                assert(all[i + 1] == k);
            }
            assert(all[0] == cand(t, hi));
        }
    }
}

/// Keys with more bits of `t` come later.
pub proof fn lemma_cand_lt(t: Seq<u8>, a: int, b: int)
    requires
        a < b,
    ensures
        key_lt(cand(t, a), cand(t, b)),
{
    lemma_masked_monotone(t, a, b);
}

/// Paths that share `n` bits have the same mask up to `n`.
pub proof fn lemma_same_prefix_mask(a: Seq<u8>, b: Seq<u8>, n: int, len: int)
    requires
        a.len() == b.len(),
        same_bits_before(a, b, n),
        len <= n,
    ensures
        masked(a, len) == masked(b, len),
{
    assert forall|j: int| 0 <= j < 8 * a.len() implies bit_at(masked(a, len), j) == bit_at(
        masked(b, len),
        j,
    ) by {
        lemma_masked_bits(a, len, j);
        lemma_masked_bits(b, len, j);
    }
    lemma_path_from_bits(masked(a, len), masked(b, len));
}

/// The order on paths, with equality, is transitive.
pub proof fn lemma_lex_le_transitive(a: Seq<u8>, b: Seq<u8>, c: Seq<u8>)
    requires
        lex_le(a, b),
        lex_le(b, c),
    ensures
        lex_le(a, c),
{
    if lex_lt(a, b) && lex_lt(b, c) {
        lemma_lex_transitive(a, b, c);
    }
}

/// A key before a key that is at or before a third comes before the third.
pub proof fn lemma_key_lt_le(a: KeySpec, b: KeySpec, c: KeySpec)
    requires
        key_lt(a, b),
        key_le(b, c),
    ensures
        key_lt(a, c),
{
    if b != c {
        lemma_key_transitive(a, b, c);
    }
}

/// A key at or before a key that is before a third comes before the third.
pub proof fn lemma_key_le_lt(a: KeySpec, b: KeySpec, c: KeySpec)
    requires
        key_le(a, b),
        key_lt(b, c),
    ensures
        key_lt(a, c),
{
    if a != b {
        lemma_key_transitive(a, b, c);
    }
}

/// Where the walk stands: every key of `t` shorter than `level` is at or
/// before the cursor, and every other one is behind it.
pub open spec fn walk_at(t: Seq<u8>, cursor: KeySpec, level: int) -> bool {
    &&& 0 <= level <= 257
    &&& lex_le(cursor.0, t)
    &&& forall|l: int| 0 <= l < level ==> key_le(#[trigger] cand(t, l), cursor)
    &&& forall|l: int| level <= l <= 256 ==> key_lt(cursor, #[trigger] cand(t, l))
}

/// The walk ends where no node is at or before the cursor.
proof fn lemma_walk_none(m: Map<KeySpec, Seq<u8>>, t: Seq<u8>, cursor: KeySpec, level: int)
    requires
        walk_at(t, cursor, level),
        none_le(m, cursor),
    ensures
        anc_range(m, t, level - 1, 0) == Seq::<KeySpec>::empty(),
{
    assert forall|l: int| 0 <= l <= level - 1 implies !m.contains_key(#[trigger] cand(t, l)) by {
        assert(key_le(cand(t, l), cursor));
    }
    lemma_anc_none(m, t, level - 1, 0);
}

/// The walk finds a node on the path: it is the next to list, and the walk
/// goes on just before it.
proof fn lemma_walk_match(
    m: Map<KeySpec, Seq<u8>>,
    t: Seq<u8>,
    cursor: KeySpec,
    level: int,
    k: KeySpec,
)
    requires
        t.len() == 32,
        walk_at(t, cursor, level),
        is_greatest_le(m, cursor, k),
        key_valid(k),
        same_bits_before(t, k.0, k.1),
    ensures
        k == cand(t, k.1),
        k.1 < level,
        anc_range(m, t, level - 1, k.1) == seq![k],
        k.1 > 0 ==> walk_at(t, (k.0, k.1 - 1), k.1),
{
    lemma_prefix_is_mask(t, k.0, k.1);
    if k.1 >= level {
        assert(key_lt(cursor, cand(t, k.1)));
        lemma_key_lt_le(cursor, k, cursor);
        lemma_key_asymmetric(cursor, cursor);
    }
    assert forall|l: int| k.1 + 1 <= l <= level - 1 implies !m.contains_key(#[trigger] cand(t, l)) by {
        if m.contains_key(cand(t, l)) {
            assert(key_le(cand(t, l), cursor));
            assert(key_le(cand(t, l), k));
            lemma_cand_lt(t, k.1, l);
            lemma_key_lt_le(k, cand(t, l), k);
            lemma_key_asymmetric(k, k);
        }
    }
    lemma_anc_none(m, t, level - 1, k.1 + 1);
    lemma_anc_split(m, t, level - 1, k.1 + 1, k.1);
    assert(anc_range(m, t, k.1 - 1, k.1) =~= Seq::<KeySpec>::empty());
    assert(anc_range(m, t, k.1, k.1) =~= seq![k]);
    assert(Seq::<KeySpec>::empty() + seq![k] =~= seq![k]);
    if k.1 > 0 {
        let next: KeySpec = (k.0, k.1 - 1);
        lemma_masked_le(t, k.1);
        assert forall|l: int| 0 <= l < k.1 implies key_le(#[trigger] cand(t, l), next) by {
            lemma_masked_monotone(t, l, k.1);
        }
        assert forall|l: int| k.1 <= l <= 256 implies key_lt(next, #[trigger] cand(t, l)) by {
            if l > k.1 {
                lemma_cand_lt(t, k.1, l);
                lemma_key_transitive(next, k, cand(t, l));
            }
        }
    }
}

/// The walk finds a node off the path: none of the keys of `t` longer than
/// the common prefix is stored at or before it, and the walk goes on at the
/// key behind the common prefix where that is before the node, and just
/// before the node otherwise.
proof fn lemma_walk_miss(
    m: Map<KeySpec, Seq<u8>>,
    t: Seq<u8>,
    cursor: KeySpec,
    level: int,
    k: KeySpec,
    l: int,
    use_jump: bool,
)
    requires
        t.len() == 32,
        walk_at(t, cursor, level),
        is_greatest_le(m, cursor, k),
        key_valid(k),
        !same_bits_before(t, k.0, k.1),
        is_lcp_len(t, k.0, l),
        use_jump ==> key_lt((masked(t, l), l + 1), k),
    ensures
        l < k.1,
        walk_at(
            t,
            if use_jump {
                (masked(t, l), l + 1)
            } else {
                (k.0, k.1 - 1)
            },
            if l + 1 < level {
                l + 1
            } else {
                level
            },
        ),
        anc_range(m, t, level - 1, l + 1) == Seq::<KeySpec>::empty(),
        key_lt(
            if use_jump {
                (masked(t, l), l + 1)
            } else {
                (k.0, k.1 - 1)
            },
            k,
        ),
{
    let next: KeySpec = if use_jump {
        (masked(t, l), l + 1)
    } else {
        (k.0, k.1 - 1)
    };
    let level2 = if l + 1 < level {
        l + 1
    } else {
        level
    };
    // The node's path comes before `t`, with a 0 where `t` has its first other bit.
    assert(l < k.1) by {
        if l >= k.1 {
            assert(same_bits_before(t, k.0, k.1));
        }
    }
    assert(lex_le(k.0, cursor.0));
    lemma_lex_le_transitive(k.0, cursor.0, t);
    assert(k.0 != t) by {
        if k.0 == t {
            assert(same_bits_before(t, k.0, k.1));
        }
    }
    let first = lemma_lex_first_bit(k.0, t);
    assert(first == l) by {
        if first < l {
            assert(bit_at(t, first) == bit_at(k.0, first));
        } else if first > l {
            assert(bit_at(k.0, l) == bit_at(t, l));
        }
    }
    // Every key of `t` longer than the common prefix is behind the node.
    assert forall|j: int| l < j <= 256 implies key_lt(k, #[trigger] cand(t, j)) by {
        let c = masked(t, j);
        assert(same_bits_before(k.0, c, l)) by {
            assert forall|b: int| 0 <= b < l implies bit_at(k.0, b) == bit_at(c, b) by {
                lemma_masked_bits(t, j, b);
                assert(bit_at(t, b) == bit_at(k.0, b));
            }
        }
        lemma_masked_bits(t, j, l);
        lemma_bits_give_lex(k.0, c, l);
    }
    assert forall|j: int| l + 1 <= j <= level - 1 implies !m.contains_key(#[trigger] cand(t, j)) by {
        if m.contains_key(cand(t, j)) {
            assert(key_le(cand(t, j), cursor));
            assert(key_le(cand(t, j), k));
            lemma_key_lt_le(k, cand(t, j), k);
            lemma_key_asymmetric(k, k);
        }
    }
    lemma_anc_none(m, t, level - 1, l + 1);
    // The keys of `t` up to the common prefix are at or before the new cursor.
    assert forall|j: int| 0 <= j < level2 implies key_le(#[trigger] cand(t, j), next) by {
        if use_jump {
            lemma_masked_monotone(t, j, l);
        } else {
            lemma_same_prefix_mask(t, k.0, l, j);
            lemma_masked_le(k.0, j);
        }
    }
    assert(key_lt(next, k));
    assert forall|j: int| level2 <= j <= 256 implies key_lt(next, #[trigger] cand(t, j)) by {
        if j >= level {
            lemma_key_lt_le(next, k, cursor);
            lemma_key_transitive(next, cursor, cand(t, j));
        } else {
            lemma_key_transitive(next, k, cand(t, j));
        }
    }
    if use_jump {
        lemma_masked_le(t, l);
    }
}

/// The stored keys that are a prefix of `target`, longest first. The walk
/// starts at the leaf key of `target` and asks the store for the last node
/// at or before its cursor. A node on the path is listed, and the cursor
/// moves just before it. For a node off the path the cursor jumps to the key
/// behind the common prefix of its path and `target`, or, where that is not
/// before the node, just before the node.
pub fn collect_ancestors(store: &FlatStore, target: &Path) -> (out: Vec<NodeKey>)
    requires
        store.wf(),
    ensures
        keys_view(out@) == ancestors(store@, target@),
{
    let ghost m = store@;
    let ghost t = target@;
    let ghost s = store.entries@;
    let mut out: Vec<NodeKey> = Vec::new();
    let mut cursor = NodeKey { path: *target, len: 256 };
    let ghost mut level: int = 257;
    let ghost mut bound: int = s.len() as int;
    proof {
        assert forall|l: int| 0 <= l < 257 implies key_le(#[trigger] cand(t, l), cursor@) by {
            lemma_masked_all(t, 256);
            if l < 256 {
                lemma_cand_lt(t, l, 256);
            }
        }
        assert(keys_view(out@) =~= anc_range(m, t, 256, 257));
    }
    loop
        invariant_except_break
            walk_at(t, cursor@, level),
            forall|j: int| bound <= j < s.len() ==> key_lt(cursor@, (#[trigger] s[j]).0@),
        invariant
            store.wf(),
            m == store@,
            s == store.entries@,
            t == target@,
            0 <= bound <= s.len(),
            keys_view(out@) == anc_range(m, t, 256, level),
        ensures
            keys_view(out@) == ancestors(m, t),
        decreases bound,
    {
        match store.seek_prev_index(&cursor) {
            None => {
                proof {
                    lemma_walk_none(m, t, cursor@, level);
                    lemma_anc_split(m, t, 256, level, 0);
                    assert(anc_range(m, t, 256, level) + Seq::<KeySpec>::empty() =~= anc_range(
                        m,
                        t,
                        256,
                        level,
                    ));
                }
                break;
            },
            Some(i) => {
                let k: NodeKey = store.entries[i].0;
                let ghost before = keys_view(out@);
                proof {
                    assert(key_valid(s[i as int].0@));
                    if i >= bound {
                        lemma_key_lt_le(cursor@, k@, cursor@);
                        lemma_key_asymmetric(cursor@, cursor@);
                    }
                    assert forall|j: int| i <= j < s.len() implies key_le(k@, (#[trigger] s[j]).0@) by {
                        if j > i {
                            assert(key_lt(s[i as int].0@, s[j].0@));
                        }
                    }
                }
                if prefix_match_be(target, &k.path, k.len) {
                    out.push(k);
                    proof {
                        lemma_walk_match(m, t, cursor@, level, k@);
                        lemma_anc_split(m, t, 256, level, k.len as int);
                        assert(keys_view(out@) =~= before + seq![k@]);
                    }
                    if k.len > 0 {
                        cursor = NodeKey { path: k.path, len: (k.len - 1) as u16 };
                        proof {
                            level = k.len as int;
                            bound = i as int;
                            assert forall|j: int| bound <= j < s.len() implies key_lt(
                                cursor@,
                                (#[trigger] s[j]).0@,
                            ) by {
                                lemma_key_lt_le(cursor@, k@, s[j].0@);
                            }
                        }
                    } else {
                        proof {
                            level = 0;
                        }
                        break;
                    }
                } else {
                    let (lcp_path, lcp_len) = lcp_be(target, &k.path);
                    proof {
                        if lcp_len as int >= k.len as int {
                            assert(same_bits_before(t, k.path@, k.len as int));
                        }
                    }
                    let jump = NodeKey { path: lcp_path, len: (lcp_len + 1) as u16 };
                    let use_jump = key_less(&jump, &k);
                    proof {
                        lemma_walk_miss(m, t, cursor@, level, k@, lcp_len as int, use_jump);
                        if lcp_len + 1 < level {
                            lemma_anc_split(m, t, 256, level, lcp_len + 1);
                            assert(anc_range(m, t, 256, level) + Seq::<KeySpec>::empty() =~= anc_range(
                                m,
                                t,
                                256,
                                level,
                            ));
                        }
                    }
                    if use_jump {
                        cursor = jump;
                    } else {
                        cursor = NodeKey { path: k.path, len: (k.len - 1) as u16 };
                    }
                    proof {
                        if lcp_len + 1 < level {
                            level = lcp_len + 1;
                        }
                        bound = i as int;
                        assert forall|j: int| bound <= j < s.len() implies key_lt(
                            cursor@,
                            (#[trigger] s[j]).0@,
                        ) by {
                            lemma_key_lt_le(cursor@, k@, s[j].0@);
                        }
                    }
                }
            },
        }
    }
    out
}

} // verus!
