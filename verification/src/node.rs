//! The stem tree as an owned node graph, and the trie hash that it realises.

use crate::bits::{bit_at, lemma_path_from_bits, stem_bit};
use crate::hash::{h_pair, pair_hash, zero32, zero_hash, Bytes32, Stem};
use vstd::prelude::*;

verus! {

/// A node of the stem tree.
pub enum Node {
    /// Two subtrees, split on the bit at this depth.
    Internal { hash: Bytes32, left: Box<Node>, right: Box<Node> },
    /// The bucket of one stem.
    StemLeaf { hash: Bytes32, stem: Stem },
    /// A subtree without stems; its hash is zero.
    Empty,
}

/// The first `depth` bits of `stem`.
pub open spec fn prefix_of(stem: Seq<u8>, depth: nat) -> Seq<bool> {
    Seq::new(depth, |i: int| bit_at(stem, i))
}

/// `stem` starts with the bits of `prefix`.
pub open spec fn agree(stem: Seq<u8>, prefix: Seq<bool>) -> bool {
    forall|i: int| 0 <= i < prefix.len() ==> bit_at(stem, i) == #[trigger] prefix[i]
}

/// No stem of `m` starts with `prefix`.
pub open spec fn none_under(m: Map<Seq<u8>, Seq<u8>>, prefix: Seq<bool>) -> bool {
    forall|s: Seq<u8>| #[trigger] m.contains_key(s) ==> !agree(s, prefix)
}

/// `s` is the one stem of `m` that starts with `prefix`.
pub open spec fn only_under(m: Map<Seq<u8>, Seq<u8>>, prefix: Seq<bool>, s: Seq<u8>) -> bool {
    &&& m.contains_key(s)
    &&& agree(s, prefix)
    &&& forall|t: Seq<u8>| #[trigger] m.contains_key(t) && agree(t, prefix) ==> t == s
}

/// Some stem of `m` that starts with `prefix`.
pub open spec fn pick_under(m: Map<Seq<u8>, Seq<u8>>, prefix: Seq<bool>) -> Seq<u8> {
    choose|s: Seq<u8>| #[trigger] m.contains_key(s) && agree(s, prefix)
}

/// The hash of the stem tree over the stems of `m` that start with `prefix`,
/// where `m` gives each stem its leaf hash: zero for no stem, the leaf hash
/// for a single stem, and otherwise the pair hash of the two halves that the
/// next bit separates.
pub open spec fn trie_hash(m: Map<Seq<u8>, Seq<u8>>, prefix: Seq<bool>) -> Seq<u8>
    decreases 248 - prefix.len(),
{
    if none_under(m, prefix) {
        zero32()
    } else if only_under(m, prefix, pick_under(m, prefix)) {
        m[pick_under(m, prefix)]
    } else if prefix.len() >= 248 {
        zero32()
    } else {
        pair_hash(trie_hash(m, prefix.push(false)), trie_hash(m, prefix.push(true)))
    }
}

impl Node {
    /// The hash that this node contributes to its parent.
    pub open spec fn hash_spec(self) -> Seq<u8> {
        match self {
            Node::Internal { hash, .. } => hash@,
            Node::StemLeaf { hash, .. } => hash@,
            Node::Empty => zero32(),
        }
    }

    /// The stems below this node, each with its leaf hash.
    pub open spec fn stems(self) -> Map<Seq<u8>, Seq<u8>>
        decreases self,
    {
        match self {
            Node::Internal { left, right, .. } => left.stems().union_prefer_right(right.stems()),
            Node::StemLeaf { hash, stem } => Map::<Seq<u8>, Seq<u8>>::empty().insert(stem@, hash@),
            Node::Empty => Map::<Seq<u8>, Seq<u8>>::empty(),
        }
    }

    /// This node is the canonical stem tree for its stems below `prefix`:
    /// every stem starts with the bits of the path to it, every internal hash
    /// is the pair hash of its children, and an internal node stands only
    /// where at least two stems have to be told apart.
    pub open spec fn wf(self, prefix: Seq<bool>) -> bool
        decreases self,
    {
        match self {
            Node::Internal { hash, left, right } => {
                &&& prefix.len() < 248
                &&& left.wf(prefix.push(false))
                &&& right.wf(prefix.push(true))
                &&& hash@ == pair_hash(left.hash_spec(), right.hash_spec())
                &&& (*left is Internal || *right is Internal || (*left is StemLeaf && *right is StemLeaf))
            },
            Node::StemLeaf { stem, .. } => agree(stem@, prefix),
            Node::Empty => true,
        }
    }

    /// The hash of this node: zero for an empty subtree.
    pub fn hash(&self) -> (out: Bytes32)
        ensures
            out@ == self.hash_spec(),
    {
        match self {
            Node::Empty => zero_hash(),
            Node::StemLeaf { hash, .. } => *hash,
            Node::Internal { hash, .. } => *hash,
        }
    }
}

/// Every stem below a well-formed node starts with the node's prefix.
pub proof fn lemma_stems_agree(node: Node, prefix: Seq<bool>)
    requires
        node.wf(prefix),
    ensures
        forall|s: Seq<u8>| #[trigger] node.stems().contains_key(s) ==> agree(s, prefix) && s.len() == 31,
    decreases node,
{
    match node {
        Node::Internal { left, right, .. } => {
            lemma_stems_agree(*left, prefix.push(false));
            lemma_stems_agree(*right, prefix.push(true));
            assert forall|s: Seq<u8>| #[trigger] node.stems().contains_key(s) implies agree(s, prefix)
                && s.len() == 31 by {
                let b = left.stems().contains_key(s) && !right.stems().contains_key(s);
                let p = if right.stems().contains_key(s) {
                    prefix.push(true)
                } else {
                    prefix.push(false)
                };
                assert(agree(s, p));
                assert forall|i: int| 0 <= i < prefix.len() implies bit_at(s, i) == #[trigger] prefix[i] by {
                    assert(p[i] == prefix[i]);
                }
            }
        },
        Node::StemLeaf { .. } => {},
        Node::Empty => {},
    }
}

/// A stem that starts with `prefix` extended by one bit starts with `prefix`
/// and has that bit next.
pub proof fn lemma_agree_push(s: Seq<u8>, prefix: Seq<bool>, b: bool)
    ensures
        agree(s, prefix.push(b)) <==> (agree(s, prefix) && bit_at(s, prefix.len() as int) == b),
{
    let p = prefix.push(b);
    if agree(s, p) {
        assert forall|i: int| 0 <= i < prefix.len() implies bit_at(s, i) == #[trigger] prefix[i] by {
            assert(p[i] == prefix[i]);
        }
        assert(p[prefix.len() as int] == b);
    }
    if agree(s, prefix) && bit_at(s, prefix.len() as int) == b {
        assert forall|i: int| 0 <= i < p.len() implies bit_at(s, i) == #[trigger] p[i] by {
            if i < prefix.len() {
                assert(p[i] == prefix[i]);
            }
        }
    }
}

/// An internal node of a well-formed tree has two different stems below it.
pub proof fn lemma_two_stems(node: Node, prefix: Seq<bool>) -> (pair: (Seq<u8>, Seq<u8>))
    requires
        node.wf(prefix),
        node is Internal,
    ensures
        node.stems().contains_key(pair.0),
        node.stems().contains_key(pair.1),
        pair.0 != pair.1,
    decreases node,
{
    match node {
        Node::Internal { left, right, .. } => {
            assert(node.stems() == left.stems().union_prefer_right(right.stems()));
            if *left is Internal {
                let pr = lemma_two_stems(*left, prefix.push(false));
                lemma_stems_agree(*left, prefix.push(false));
                lemma_stems_agree(*right, prefix.push(true));
                lemma_agree_push(pr.0, prefix, false);
                lemma_agree_push(pr.0, prefix, true);
                lemma_agree_push(pr.1, prefix, false);
                lemma_agree_push(pr.1, prefix, true);
                pr
            } else if *right is Internal {
                lemma_two_stems(*right, prefix.push(true))
            } else {
                let a = left->stem@;
                let b = right->stem@;
                assert(left.stems().contains_key(a));
                assert(right.stems().contains_key(b));
                assert(left.wf(prefix.push(false)));
                assert(right.wf(prefix.push(true)));
                assert(agree(a, prefix.push(false)));
                assert(agree(b, prefix.push(true)));
                lemma_agree_push(a, prefix, false);
                lemma_agree_push(b, prefix, true);
                (a, b)
            }
        },
        _ => (Seq::empty(), Seq::empty()),
    }
}

/// The hash of a well-formed node is the trie hash of its stems: whatever map
/// holds the node's stems below the node's prefix gives the same hash.
pub proof fn lemma_node_hash(node: Node, prefix: Seq<bool>, m: Map<Seq<u8>, Seq<u8>>)
    requires
        node.wf(prefix),
        forall|s: Seq<u8>|
            agree(s, prefix) ==> (#[trigger] m.contains_key(s) <==> node.stems().contains_key(s)),
        forall|s: Seq<u8>| #[trigger] node.stems().contains_key(s) ==> m[s] == node.stems()[s],
    ensures
        node.hash_spec() == trie_hash(m, prefix),
    decreases node,
{
    lemma_stems_agree(node, prefix);
    match node {
        Node::Internal { hash, left, right } => {
            let pr = lemma_two_stems(node, prefix);
            assert(node.stems() == left.stems().union_prefer_right(right.stems()));
            assert(m.contains_key(pr.0) && agree(pr.0, prefix));
            assert(m.contains_key(pr.1) && agree(pr.1, prefix));
            assert(!none_under(m, prefix));
            let s = pick_under(m, prefix);
            assert(!only_under(m, prefix, s));
            lemma_stems_agree(*left, prefix.push(false));
            lemma_stems_agree(*right, prefix.push(true));
            assert forall|s: Seq<u8>| agree(s, prefix.push(false)) implies (#[trigger] m.contains_key(s)
                <==> left.stems().contains_key(s)) by {
                lemma_agree_push(s, prefix, false);
                lemma_agree_push(s, prefix, true);
            }
            assert forall|s: Seq<u8>| #[trigger] left.stems().contains_key(s) implies m[s]
                == left.stems()[s] by {
                lemma_agree_push(s, prefix, false);
                lemma_agree_push(s, prefix, true);
                assert(node.stems().contains_key(s));
            }
            assert forall|s: Seq<u8>| agree(s, prefix.push(true)) implies (#[trigger] m.contains_key(s)
                <==> right.stems().contains_key(s)) by {
                lemma_agree_push(s, prefix, false);
                lemma_agree_push(s, prefix, true);
            }
            assert forall|s: Seq<u8>| #[trigger] right.stems().contains_key(s) implies m[s]
                == right.stems()[s] by {
                assert(node.stems().contains_key(s));
            }
            lemma_node_hash(*left, prefix.push(false), m);
            lemma_node_hash(*right, prefix.push(true), m);
        },
        Node::StemLeaf { hash, stem } => {
            assert(node.stems().contains_key(stem@));
            assert(m.contains_key(stem@));
            let s = pick_under(m, prefix);
            assert(m.contains_key(s) && agree(s, prefix));
            assert(node.stems().contains_key(s));
            assert(s == stem@);
            assert(only_under(m, prefix, s)) by {
                assert forall|t: Seq<u8>| #[trigger] m.contains_key(t) && agree(t, prefix) implies t
                    == s by {
                    assert(node.stems().contains_key(t));
                }
            }
        },
        Node::Empty => {
            assert(none_under(m, prefix)) by {
                assert forall|s: Seq<u8>| #[trigger] m.contains_key(s) implies !agree(s, prefix) by {
                    if agree(s, prefix) {
                        assert(node.stems().contains_key(s));
                    }
                }
            }
        },
    }
}

/// The prefix of `stem` one bit longer is the shorter one with the next bit pushed.
pub proof fn lemma_prefix_step(stem: Seq<u8>, depth: nat)
    ensures
        prefix_of(stem, depth + 1) == prefix_of(stem, depth).push(bit_at(stem, depth as int)),
{
    assert(prefix_of(stem, depth + 1) =~= prefix_of(stem, depth).push(bit_at(stem, depth as int)));
}

/// A stem starts with the prefix of another exactly when their leading bits agree.
pub proof fn lemma_agree_prefix_of(s: Seq<u8>, stem: Seq<u8>, depth: nat)
    ensures
        agree(s, prefix_of(stem, depth)) <==> (forall|i: int|
            0 <= i < depth ==> bit_at(s, i) == bit_at(stem, i)),
{
    let p = prefix_of(stem, depth);
    if agree(s, p) {
        assert forall|i: int| 0 <= i < depth implies bit_at(s, i) == bit_at(stem, i) by {
            assert(p[i] == bit_at(stem, i));
        }
    }
}

/// The internal node over two subtrees. It is well formed where the two
/// subtrees are, and between them hold two stems to tell apart.
pub(crate) fn join_nodes(left: Node, right: Node, Ghost(prefix): Ghost<Seq<bool>>) -> (out: Node)
    ensures
        out is Internal,
        out.stems() == left.stems().union_prefer_right(right.stems()),
        out.hash_spec() == pair_hash(left.hash_spec(), right.hash_spec()),
        prefix.len() < 248 && left.wf(prefix.push(false)) && right.wf(prefix.push(true)) && (left
            is Internal || right is Internal || (left is StemLeaf && right is StemLeaf)) ==> out.wf(
            prefix,
        ),
{
    let h = h_pair(&left.hash(), &right.hash());
    let out = Node::Internal { hash: h, left: Box::new(left), right: Box::new(right) };
    proof {
        assert(out.stems() == left.stems().union_prefer_right(right.stems()));
        if prefix.len() < 248 && left.wf(prefix.push(false)) && right.wf(prefix.push(true)) && (left
            is Internal || right is Internal || (left is StemLeaf && right is StemLeaf)) {
            assert(out.wf(prefix));
        }
    }
    out
}

/// The hash of a subtree with hash `h` at depth `to` on the path of `stem`,
/// seen from depth `from`: at every level between, the pair hash with a zero
/// node on the side that the path does not take.
pub open spec fn wrap_hash(h: Seq<u8>, stem: Seq<u8>, from: int, to: int) -> Seq<u8>
    decreases to - from,
{
    if to <= from {
        h
    } else if bit_at(stem, to - 1) {
        wrap_hash(pair_hash(zero32(), h), stem, from, to - 1)
    } else {
        wrap_hash(pair_hash(h, zero32()), stem, from, to - 1)
    }
}

/// Zero-subtree canonicality of the wrapping: internal nodes over nothing
/// but empty subtrees have the zero hash at every level.
pub proof fn lemma_wrap_of_zero(stem: Seq<u8>, from: int, to: int)
    ensures
        wrap_hash(zero32(), stem, from, to) == zero32(),
    decreases to - from,
{
    if to > from {
        crate::hash::lemma_pair_of_zeros();
        lemma_wrap_of_zero(stem, from, to - 1);
    }
}

/// Puts `child` under `to_depth - from_depth` internal nodes along the path
/// of `stem`, each with an empty subtree on the side that the path does not
/// take. An empty subtree stays empty: nodes over nothing hash to zero as
/// the empty subtree does.
pub fn wrap_with_empties_up(child: Node, stem: &Stem, from_depth: usize, to_depth: usize) -> (out:
    Node)
    requires
        to_depth <= 248,
        child.wf(prefix_of(stem@, to_depth as nat)),
    ensures
        out.stems() == child.stems(),
        out.hash_spec() == wrap_hash(child.hash_spec(), stem@, from_depth as int, to_depth as int),
        from_depth >= to_depth ==> out == child,
        child is Empty ==> out is Empty,
        !(child is Empty) && from_depth < to_depth ==> out is Internal,
        !(child is StemLeaf) && from_depth <= to_depth ==> out.wf(prefix_of(stem@, from_depth as nat)),
{
    if to_depth <= from_depth {
        return child;
    }
    let empty = match &child {
        Node::Empty => true,
        _ => false,
    };
    if empty {
        proof {
            lemma_wrap_of_zero(stem@, from_depth as int, to_depth as int);
        }
        return child;
    }
    let ghost stems0 = child.stems();
    let ghost wanted = wrap_hash(child.hash_spec(), stem@, from_depth as int, to_depth as int);
    let ghost inner = child is Internal;
    let mut cur = child;
    let mut lvl: usize = to_depth;
    while lvl > from_depth
        invariant
            from_depth <= lvl <= to_depth <= 248,
            cur.stems() == stems0,
            wanted == wrap_hash(cur.hash_spec(), stem@, from_depth as int, lvl as int),
            lvl < to_depth ==> cur is Internal,
            !(cur is Empty),
            inner ==> cur is Internal && cur.wf(prefix_of(stem@, lvl as nat)),
        decreases lvl,
    {
        lvl -= 1;
        proof {
            lemma_prefix_step(stem@, lvl as nat);
        }
        if stem_bit(stem, lvl) == 0 {
            cur = join_nodes(cur, Node::Empty, Ghost(prefix_of(stem@, lvl as nat)));
        } else {
            cur = join_nodes(Node::Empty, cur, Ghost(prefix_of(stem@, lvl as nat)));
        }
        assert(cur.stems() =~= stems0);
    }
    cur
}

/// The smallest subtree at `depth` that holds two different stems: a chain of
/// internal nodes along their common bits, then one node with the two leaves.
pub fn merge_two_to_subtree(
    a_stem: Stem,
    a_hash: Bytes32,
    b_stem: Stem,
    b_hash: Bytes32,
    depth: usize,
) -> (out: Node)
    requires
        depth <= 248,
        a_stem@ != b_stem@,
        forall|i: int| 0 <= i < depth ==> bit_at(a_stem@, i) == bit_at(b_stem@, i),
    ensures
        out is Internal,
        out.wf(prefix_of(a_stem@, depth as nat)),
        out.stems() == Map::<Seq<u8>, Seq<u8>>::empty().insert(a_stem@, a_hash@).insert(
            b_stem@,
            b_hash@,
        ),
    decreases 248 - depth,
{
    if depth >= 248 {
        proof {
            lemma_path_from_bits(a_stem@, b_stem@);
        }
        return Node::StemLeaf { stem: a_stem, hash: b_hash };
    }
    let a = stem_bit(&a_stem, depth);
    let b = stem_bit(&b_stem, depth);
    let ghost prefix = prefix_of(a_stem@, depth as nat);
    let ghost want = Map::<Seq<u8>, Seq<u8>>::empty().insert(a_stem@, a_hash@).insert(
        b_stem@,
        b_hash@,
    );
    proof {
        lemma_prefix_step(a_stem@, depth as nat);
        lemma_agree_prefix_of(a_stem@, a_stem@, depth as nat);
        lemma_agree_prefix_of(b_stem@, a_stem@, depth as nat);
        lemma_agree_push(a_stem@, prefix, a == 1);
        lemma_agree_push(b_stem@, prefix, b == 1);
    }
    if a != b {
        let a_leaf = Node::StemLeaf { stem: a_stem, hash: a_hash };
        let b_leaf = Node::StemLeaf { stem: b_stem, hash: b_hash };
        let out = if a == 0 {
            join_nodes(a_leaf, b_leaf, Ghost(prefix))
        } else {
            join_nodes(b_leaf, a_leaf, Ghost(prefix))
        };
        assert(out.stems() =~= want);
        out
    } else {
        let child = merge_two_to_subtree(a_stem, a_hash, b_stem, b_hash, depth + 1);
        let out = if a == 0 {
            join_nodes(child, Node::Empty, Ghost(prefix))
        } else {
            join_nodes(Node::Empty, child, Ghost(prefix))
        };
        assert(out.stems() =~= want);
        out
    }
}

/// Sets the leaf hash of `stem` in the tree below `root`, which stands at
/// `depth` on the path of `stem`, and rehashes the nodes on that path.
pub fn upsert_stem(root: &mut Node, stem: Stem, stem_hash: Bytes32, depth: usize)
    requires
        depth <= 248,
        old(root).wf(prefix_of(stem@, depth as nat)),
    ensures
        final(root).wf(prefix_of(stem@, depth as nat)),
        final(root).stems() == old(root).stems().insert(stem@, stem_hash@),
        !(*final(root) is Empty),
        *old(root) is Internal ==> *final(root) is Internal,
    decreases 248 - depth,
{
    let ghost prefix = prefix_of(stem@, depth as nat);
    let ghost before = *root;
    proof {
        lemma_agree_prefix_of(stem@, stem@, depth as nat);
    }
    match root {
        Node::Empty => {
            *root = Node::StemLeaf { stem, hash: stem_hash };
            assert(root.stems() =~= before.stems().insert(stem@, stem_hash@));
        },
        Node::StemLeaf { stem: s, hash: h } => {
            if stems_equal(s, &stem) {
                *h = stem_hash;
                assert(root.stems() =~= before.stems().insert(stem@, stem_hash@));
            } else {
                let old_stem = *s;
                let old_hash = *h;
                proof {
                    lemma_agree_prefix_of(old_stem@, stem@, depth as nat);
                    lemma_agree_prefix_of(stem@, old_stem@, depth as nat);
                    lemma_agree_prefix_of(old_stem@, old_stem@, depth as nat);
                    assert(prefix_of(old_stem@, depth as nat) =~= prefix);
                }
                *root = merge_two_to_subtree(old_stem, old_hash, stem, stem_hash, depth);
            }
        },
        Node::Internal { left, right, hash } => {
            let b = stem_bit(&stem, depth);
            proof {
                lemma_prefix_step(stem@, depth as nat);
                lemma_stems_agree(**left, prefix.push(false));
                lemma_stems_agree(**right, prefix.push(true));
                lemma_agree_push(stem@, prefix, false);
                lemma_agree_push(stem@, prefix, true);
            }
            let ghost left0 = **left;
            let ghost right0 = **right;
            assert(before.stems() == left0.stems().union_prefer_right(right0.stems()));
            if b == 0 {
                upsert_stem(left, stem, stem_hash, depth + 1);
            } else {
                upsert_stem(right, stem, stem_hash, depth + 1);
            }
            *hash = h_pair(&left.hash(), &right.hash());
            proof {
                let left1 = **left;
                let right1 = **right;
                assert(root.stems() == left1.stems().union_prefer_right(right1.stems()));
                assert(root.stems() =~= before.stems().insert(stem@, stem_hash@));
                assert(left1.wf(prefix.push(false)));
                assert(right1.wf(prefix.push(true)));
                assert(root.wf(prefix));
            }
        },
    }
}

/// Whether two stems are the same 31 bytes.
pub fn stems_equal(a: &Stem, b: &Stem) -> (out: bool)
    ensures
        out == (a@ == b@),
{
    let mut i: usize = 0;
    while i < 31
        invariant
            i <= 31,
            forall|j: int| 0 <= j < i ==> a@[j] == b@[j],
        decreases 31 - i,
    {
        if a[i] != b[i] {
            return false;
        }
        i += 1;
    }
    assert(a@ =~= b@);
    true
}

} // verus!
