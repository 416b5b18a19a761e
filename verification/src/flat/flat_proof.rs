//! Proofs of the flat engine: the sibling hashes along the path of a leaf,
//! deepest first, each with the side on which it stands.

use crate::bits::bit_at;
use crate::flat::ancestors::{ancestors, collect_ancestors};
use crate::flat::dirty::keys_view;
use crate::flat::hubt::{child_hash, concat_and_hash, is_root_of, sha256, RocksHubt};
use crate::flat::key::{KeySpec, NodeKey};
use crate::flat::path::{get_bit_be, Path};
use crate::flat::store::leaf_key;
use crate::hash::{h_pair, pair_hash, sha256_spec, Bytes32};
use crate::merkle_proof::hashes_equal;
use vstd::prelude::*;

verus! {

/// One step of a proof: the hash of the sibling at a split point, the bit of
/// the sibling's side, and the number of bits of the split point.
#[derive(Debug, Clone)]
pub struct ProofNode {
    pub hash: Bytes32,
    pub direction: u8,
    pub len: u16,
}

/// A proof for one leaf: the state root it was made against, and the steps
/// from the deepest split point up.
#[derive(Debug)]
pub struct Proof {
    pub root: Bytes32,
    pub nodes: Vec<ProofNode>,
}

/// A step of a proof in specifications: sibling hash, sibling's bit, length.
pub type StepSpec = (Seq<u8>, int, int);

/// The steps of a list of proof nodes.
pub open spec fn steps_view(s: Seq<ProofNode>) -> Seq<StepSpec> {
    Seq::new(s.len(), |i: int| (s[i].hash@, s[i].direction as int, s[i].len as int))
}

/// The step at the split point `k` on the path `t`: the hash of the child
/// on the side that the path does not take.
pub open spec fn step_at(m: Map<KeySpec, Seq<u8>>, t: Seq<u8>, k: KeySpec) -> StepSpec {
    (
        child_hash(m, k, !bit_at(t, k.1)),
        if bit_at(t, k.1) {
            0
        } else {
            1
        },
        k.1,
    )
}

/// The steps at those of the keys that have fewer than `limit` bits.
pub open spec fn steps_of(m: Map<KeySpec, Seq<u8>>, t: Seq<u8>, keys: Seq<KeySpec>, limit: int) -> Seq<
    StepSpec,
>
    decreases keys.len(),
{
    if keys.len() == 0 {
        Seq::<StepSpec>::empty()
    } else if keys.last().1 < limit {
        steps_of(m, t, keys.drop_last(), limit).push(step_at(m, t, keys.last()))
    } else {
        steps_of(m, t, keys.drop_last(), limit)
    }
}

/// The steps of the proof for the leaf with path `t`: one at every stored
/// split point on its path, deepest first.
pub open spec fn proof_steps(m: Map<KeySpec, Seq<u8>>, t: Seq<u8>) -> Seq<StepSpec> {
    steps_of(m, t, ancestors(m, t), 256)
}

/// Folds the hash of a leaf with the steps of a proof, first to last: a
/// sibling on side 1 stands on the right.
pub open spec fn climb_steps(acc: Seq<u8>, steps: Seq<StepSpec>) -> Seq<u8>
    decreases steps.len(),
{
    if steps.len() == 0 {
        acc
    } else {
        let next = if steps[0].1 == 1 {
            pair_hash(acc, steps[0].0)
        } else {
            pair_hash(steps[0].0, acc)
        };
        climb_steps(next, steps.drop_first())
    }
}

/// A proof is accepted for a key and a value: it has no more steps than a
/// path has bits, and the hash of the leaf, folded with the steps, gives the
/// root of the proof.
pub open spec fn accepts(root: Seq<u8>, steps: Seq<StepSpec>, key: Seq<u8>, value: Seq<u8>) -> bool {
    steps.len() <= 256 && climb_steps(sha256_spec(key + value), steps) == root
}

/// A list of keys gives at most as many steps as it has keys.
pub proof fn lemma_steps_len(m: Map<KeySpec, Seq<u8>>, t: Seq<u8>, keys: Seq<KeySpec>, limit: int)
    ensures
        steps_of(m, t, keys, limit).len() <= keys.len(),
    decreases keys.len(),
{
    if keys.len() > 0 {
        lemma_steps_len(m, t, keys.drop_last(), limit);
    }
}

/// Checks a proof for `key` and `value` against the root that it names.
pub fn verify(proof: &Proof, key: &[u8], value: &[u8]) -> (out: bool)
    ensures
        out == accepts(proof.root@, steps_view(proof.nodes@), key@, value@),
{
    let ghost steps = steps_view(proof.nodes@);
    if proof.nodes.len() > 256 {
        return false;
    }
    let mut acc = concat_and_hash(key, value);
    let mut i: usize = 0;
    assert(steps.skip(0) =~= steps);
    while i < proof.nodes.len()
        invariant
            i <= steps.len(),
            steps == steps_view(proof.nodes@),
            climb_steps(sha256_spec(key@ + value@), steps) == climb_steps(acc@, steps.skip(i as int)),
        decreases steps.len() - i,
    {
        proof {
            let rest = steps.skip(i as int);
            assert(rest[0] == steps[i as int]);
            assert(rest.drop_first() =~= steps.skip(i + 1));
        }
        acc = if proof.nodes[i].direction == 1 {
            h_pair(&acc, &proof.nodes[i].hash)
        } else {
            h_pair(&proof.nodes[i].hash, &acc)
        };
        i += 1;
    }
    hashes_equal(&acc, &proof.root)
}

impl RocksHubt {
    /// The steps of the proof for the leaf with path `path`: for every
    /// stored key on its path with fewer than `len` bits, deepest first, the
    /// hash of the child on the other side.
    pub fn generate_proof_nodes(&self, path: Path, len: u16) -> (out: Vec<ProofNode>)
        requires
            self.wf(),
            len <= 256,
        ensures
            steps_view(out@) == steps_of(self@, path@, ancestors(self@, path@), len as int),
    {
        let found = collect_ancestors(&self.store, &path);
        let ghost anc = ancestors(self@, path@);
        let mut nodes: Vec<ProofNode> = Vec::new();
        let mut i: usize = 0;
        assert(anc.take(0) =~= Seq::<KeySpec>::empty());
        while i < found.len()
            invariant
                i <= found@.len(),
                self.wf(),
                len <= 256,
                keys_view(found@) == anc,
                anc == ancestors(self@, path@),
                steps_view(nodes@) == steps_of(self@, path@, anc.take(i as int), len as int),
            decreases found@.len() - i,
        {
            let k: NodeKey = found[i];
            let ghost before = steps_view(nodes@);
            proof {
                assert(anc[i as int] == k@);
                assert(anc.take(i + 1).drop_last() =~= anc.take(i as int));
                assert(anc.take(i + 1).last() == k@);
            }
            if k.len < len {
                let my_dir = get_bit_be(&path, k.len);
                let sibling_dir: u8 = 1 - my_dir;
                let s_hash = self.child_hash_of(&k, sibling_dir);
                nodes.push(ProofNode { hash: s_hash, direction: sibling_dir, len: k.len });
                proof {
                    assert(steps_view(nodes@) =~= before.push(step_at(self@, path@, k@)));
                }
            }
            i += 1;
        }
        assert(anc.take(found@.len() as int) =~= anc);
        nodes
    }

    /// The proof that `k` is bound to `v`: the state root, and the steps
    /// along the path of the leaf; nothing where the store does not hold the
    /// leaf of `k` with the hash of `k` and `v`.
    pub fn prove(&self, k: Vec<u8>, v: Vec<u8>) -> (out: Option<Proof>)
        requires
            self.wf(),
        ensures
            out is Some <==> (self@.contains_key(leaf_key(sha256_spec(k@))) && self@[leaf_key(
                sha256_spec(k@),
            )] == sha256_spec(k@ + v@)),
            out matches Some(proof) ==> is_root_of(self@, proof.root@) && steps_view(proof.nodes@)
                == proof_steps(self@, sha256_spec(k@)),
            out matches Some(proof) ==> (crate::flat::soundness::sound_store(self@) ==> accepts(
                proof.root@,
                steps_view(proof.nodes@),
                k@,
                v@,
            )),
    {
        let path = sha256(k.as_slice());
        let leaf_val = concat_and_hash(k.as_slice(), v.as_slice());
        let key = NodeKey { path, len: 256 };
        match self.store.get(&key) {
            Some(h) => {
                if hashes_equal(&h, &leaf_val) {
                    let root = self.root();
                    proof {
                        if crate::flat::soundness::sound_store(self@) {
                            crate::flat::soundness::lemma_flat_proof_sound(self@, path@, root@);
                        }
                    }
                    Some(Proof { root, nodes: self.generate_proof_nodes(path, 256) })
                } else {
                    None
                }
            },
            None => None,
        }
    }
}

} // verus!
