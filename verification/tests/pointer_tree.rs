use bintree::bucket::{
    insert_leaf, leaves_in_order, sibling_at_level_sparse, subtree_root_one_leaf,
    subtree_root_sparse, subtree_root_sparse_pairs, StemBucket,
};
use bintree::bits::{lcp_bits_from, stem_bit, stem_lt};
use bintree::hash::{
    bytes32_from_slice, entries_from_slices, h32or64, h_pair, sha256_32, stem_node_hash, InputError,
};
use bintree::merkle_proof::{prove_paths_sparse, verify_proof};
use bintree::node::{merge_two_to_subtree, upsert_stem, wrap_with_empties_up, Node};
use bintree::stem_tree::{build_stem_tree, build_stem_tree_sorted_parallel};
use bintree::tree::{find_stem, split_key, BinaryStateTree};
use rand::rngs::StdRng;
use rand::{RngCore, SeedableRng};
use sha2::{Digest, Sha256};

fn digest(data: &[u8]) -> [u8; 32] {
    Sha256::digest(data).into()
}

fn key_of(text: &str) -> [u8; 32] {
    digest(text.as_bytes())
}

fn random_entries(rng: &mut StdRng, count: usize) -> Vec<([u8; 32], [u8; 32])> {
    let mut out = Vec::with_capacity(count);
    for _ in 0..count {
        let mut k = [0u8; 32];
        let mut v = [0u8; 32];
        rng.fill_bytes(&mut k);
        rng.fill_bytes(&mut v);
        out.push((digest(&k), digest(&v)));
    }
    out
}

/// The pair hash as the rule gives it, computed with the digest alone.
fn pair(left: &[u8; 32], right: &[u8; 32]) -> [u8; 32] {
    let mut buf = [0u8; 64];
    buf[..32].copy_from_slice(left);
    buf[32..].copy_from_slice(right);
    if buf.iter().all(|b| *b == 0) {
        [0u8; 32]
    } else {
        digest(&buf)
    }
}

/// The root of a bucket, computed densely over all 256 slots.
fn dense_bucket_root(leaves: &[(u8, [u8; 32])]) -> [u8; 32] {
    let mut level: Vec<[u8; 32]> = vec![[0u8; 32]; 256];
    for (sub, value) in leaves {
        level[*sub as usize] = digest(value);
    }
    while level.len() > 1 {
        let mut next = Vec::with_capacity(level.len() / 2);
        for i in 0..level.len() / 2 {
            next.push(pair(&level[2 * i], &level[2 * i + 1]));
        }
        level = next;
    }
    level[0]
}

fn stem_of(key: &[u8; 32]) -> [u8; 31] {
    let mut stem = [0u8; 31];
    stem.copy_from_slice(&key[..31]);
    stem
}

fn leaf_hash_of(stem: &[u8; 31], bucket_root: &[u8; 32]) -> [u8; 32] {
    let mut buf = [0u8; 64];
    buf[..31].copy_from_slice(stem);
    buf[32..].copy_from_slice(bucket_root);
    if buf.iter().all(|b| *b == 0) {
        [0u8; 32]
    } else {
        digest(&buf)
    }
}

#[test]
fn sha256_of_known_text() {
    let expected: [u8; 32] = [
        0x9f, 0x86, 0xd0, 0x81, 0x88, 0x4c, 0x7d, 0x65, 0x9a, 0x2f, 0xea, 0xa0, 0xc5, 0x5a, 0xd0,
        0x15, 0xa3, 0xbf, 0x4f, 0x1b, 0x2b, 0x0b, 0x82, 0x2c, 0xd1, 0x5d, 0x6c, 0x15, 0xb0, 0xf0,
        0x0a, 0x08,
    ];
    assert_eq!(sha256_32(b"test"), expected);
    let data = [7u8; 32];
    assert_ne!(sha256_32(&data), data);
}

#[test]
fn zero_collapse_of_sixty_four_zero_bytes() {
    let zeros = [0u8; 64];
    assert_eq!(h32or64(&zeros), [0u8; 32]);
    assert_ne!(digest(&zeros), [0u8; 32]);
    assert_eq!(h_pair(&[0u8; 32], &[0u8; 32]), [0u8; 32]);
    // Sixty-three zero bytes are hashed.
    assert_eq!(h32or64(&zeros[..63]), digest(&zeros[..63]));
    let mut one = [0u8; 64];
    one[63] = 1;
    assert_eq!(h32or64(&one), digest(&one));
}

#[test]
fn pair_hash_is_digest_of_concatenation() {
    let a = key_of("a");
    let b = key_of("b");
    assert_eq!(h_pair(&a, &b), pair(&a, &b));
    assert_ne!(h_pair(&a, &b), h_pair(&b, &a));
    assert_eq!(h_pair(&a, &[0u8; 32]), pair(&a, &[0u8; 32]));
}

#[test]
fn stem_leaf_hash_has_zero_separator() {
    let stem = [3u8; 31];
    let root = key_of("root");
    let mut buf = vec![3u8; 31];
    buf.push(0);
    buf.extend_from_slice(&root);
    assert_eq!(stem_node_hash(&stem, &root), digest(&buf));
    assert_eq!(stem_node_hash(&[0u8; 31], &[0u8; 32]), [0u8; 32]);
}

#[test]
fn bucket_root_matches_dense_tree() {
    let leaves: Vec<(u8, [u8; 32])> = vec![
        (0, key_of("v0")),
        (1, key_of("v1")),
        (2, key_of("v2")),
        (77, key_of("v77")),
        (128, key_of("v128")),
        (255, key_of("v255")),
    ];
    let expected = dense_bucket_root(&leaves);
    assert_eq!(subtree_root_sparse(&leaves), expected);
    assert_eq!(subtree_root_sparse_pairs(&leaves), expected);
    assert_eq!(subtree_root_sparse(&Vec::new()), [0u8; 32]);
    assert_eq!(subtree_root_sparse_pairs(&[]), [0u8; 32]);
}

#[test]
fn bucket_root_of_one_leaf() {
    for sub in [0u8, 1, 5, 128, 254, 255] {
        let value = key_of("single");
        let expected = dense_bucket_root(&[(sub, value)]);
        assert_eq!(subtree_root_one_leaf(sub, &value), expected);
        assert_eq!(subtree_root_sparse_pairs(&[(sub, value)]), expected);
        assert_eq!(subtree_root_sparse(&vec![(sub, value)]), expected);
    }
}

#[test]
fn bucket_siblings_fold_to_bucket_root() {
    let leaves: Vec<(u8, [u8; 32])> =
        vec![(3, key_of("a")), (4, key_of("b")), (200, key_of("c")), (201, key_of("d"))];
    let root = subtree_root_sparse(&leaves);
    for (sub, value) in &leaves {
        let mut acc = digest(value);
        let mut idx = *sub;
        for lvl in 0..8 {
            let sib = sibling_at_level_sparse(&leaves, *sub, lvl);
            acc = if idx & 1 == 0 { pair(&acc, &sib) } else { pair(&sib, &acc) };
            idx >>= 1;
        }
        assert_eq!(acc, root);
    }
    // The sibling of slot 3 at level 0 is slot 2, which is not bound.
    assert_eq!(sibling_at_level_sparse(&leaves, 3, 0), [0u8; 32]);
    // The sibling of slot 200 at level 0 is the leaf hash of slot 201.
    assert_eq!(sibling_at_level_sparse(&leaves, 200, 0), digest(&key_of("d")));
}

#[test]
fn bucket_set_get_and_hashes() {
    let mut bucket = StemBucket::new([9u8; 31]);
    assert_eq!(bucket.subtree_root, [0u8; 32]);
    assert!(bucket.get(4).is_none());
    bucket.set(4, key_of("x"));
    bucket.set(2, key_of("y"));
    bucket.set(4, key_of("z"));
    assert_eq!(bucket.leaves, vec![(2, key_of("y")), (4, key_of("z"))]);
    assert_eq!(bucket.get(4), Some(key_of("z")));
    assert_eq!(bucket.get(2), Some(key_of("y")));
    assert!(bucket.get(3).is_none());
    bucket.recompute_hashes();
    assert_eq!(bucket.subtree_root, dense_bucket_root(&bucket.leaves));
    assert_eq!(bucket.stem_hash, leaf_hash_of(&[9u8; 31], &bucket.subtree_root));
    let copy = bucket.duplicate();
    assert_eq!(copy.leaves, bucket.leaves);
    assert_eq!(copy.stem_hash, bucket.stem_hash);
}

#[test]
fn empty_tree_has_zero_root_and_no_proofs() {
    let tree = BinaryStateTree::from_entries(&[]);
    assert_eq!(tree.state_root(), [0u8; 32]);
    assert!(tree.prove_for_key(&key_of("anything")).is_none());
    assert!(tree.prove_for_key(&[0u8; 32]).is_none());
    assert_eq!(BinaryStateTree::new().state_root(), [0u8; 32]);
}

#[test]
fn single_entry_proof_verifies_and_flipped_value_fails() {
    let k = key_of("test");
    let v = key_of("best");
    let tree = BinaryStateTree::from_entries(&[(k, v)]);
    let root = tree.state_root();
    // One stem alone is the root of the stem tree.
    let expected = leaf_hash_of(&stem_of(&k), &dense_bucket_root(&[(k[31], v)]));
    assert_eq!(root, expected);
    let (value, sibs, path) = tree.prove_for_key(&k).unwrap();
    assert_eq!(value, v);
    assert!(path.is_empty());
    assert!(verify_proof(&root, &k, &v, &sibs, &path));
    for i in 0..32 {
        let mut bad = v;
        bad[i] ^= 1;
        assert!(!verify_proof(&root, &k, &bad, &sibs, &path));
    }
    let mut other_root = root;
    other_root[0] ^= 0x80;
    assert!(!verify_proof(&other_root, &k, &v, &sibs, &path));
}

#[test]
fn two_entries_sharing_one_hundred_twenty_three_bits() {
    let k1 = key_of("shared prefix");
    let mut k2 = k1;
    // Bit 123 is bit 3 of byte 15.
    k2[15] ^= 0x10;
    let v1 = key_of("one");
    let v2 = key_of("two");
    let tree = BinaryStateTree::from_entries(&[(k1, v1), (k2, v2)]);
    let root = tree.state_root();
    let (value1, sibs1, path1) = tree.prove_for_key(&k1).unwrap();
    let (value2, sibs2, path2) = tree.prove_for_key(&k2).unwrap();
    assert_eq!(value1, v1);
    assert_eq!(value2, v2);
    assert!(path1.len() >= 124);
    assert_eq!(path1.len(), 124);
    assert_eq!(path2.len(), 124);
    // Above the split every sibling is an empty subtree.
    for sib in &path1[..123] {
        assert_eq!(*sib, [0u8; 32]);
    }
    assert_ne!(path1[123], [0u8; 32]);
    assert!(verify_proof(&root, &k1, &v1, &sibs1, &path1));
    assert!(verify_proof(&root, &k2, &v2, &sibs2, &path2));
    assert!(!verify_proof(&root, &k1, &v2, &sibs1, &path1));
    // The same tree grows from one entry by an update.
    let mut grown = BinaryStateTree::from_entries(&[(k1, v1)]);
    grown.insert_many_incremental(&[(k2, v2)]);
    assert_eq!(grown.state_root(), root);
}

#[test]
fn duplicate_key_last_write_wins() {
    let k = key_of("dup");
    let v1 = key_of("first");
    let v2 = key_of("second");
    let tree = BinaryStateTree::from_entries(&[(k, v1), (k, v2)]);
    let (value, sibs, path) = tree.prove_for_key(&k).unwrap();
    assert_eq!(value, v2);
    assert!(verify_proof(&tree.state_root(), &k, &v2, &sibs, &path));
    assert_eq!(tree.state_root(), BinaryStateTree::from_entries(&[(k, v2)]).state_root());
    let other = key_of("other");
    let mixed =
        BinaryStateTree::from_entries(&[(k, v1), (other, v1), (k, v2), (other, v2), (k, v1)]);
    assert_eq!(mixed.prove_for_key(&k).unwrap().0, v1);
    assert_eq!(mixed.prove_for_key(&other).unwrap().0, v2);
    let mut updated = BinaryStateTree::new();
    updated.insert_many(&[(k, v1), (k, v2)]);
    assert_eq!(updated.prove_for_key(&k).unwrap().0, v2);
}

#[test]
fn incremental_update_equals_bulk_build() {
    let mut rng = StdRng::seed_from_u64(0xE1F5_7864);
    let a = random_entries(&mut rng, 10_000);
    let b = random_entries(&mut rng, 1_000);
    let mut all = a.clone();
    all.extend_from_slice(&b);
    let whole = BinaryStateTree::from_entries(&all);
    let mut grown = BinaryStateTree::from_entries(&a);
    grown.insert_many_incremental(&b);
    assert_eq!(whole.state_root(), grown.state_root());
    for (k, v) in b.iter().take(20) {
        let (value, sibs, path) = grown.prove_for_key(k).unwrap();
        assert_eq!(value, *v);
        assert!(path.len() <= 248);
        assert!(verify_proof(&grown.state_root(), k, v, &sibs, &path));
    }
}

#[test]
fn rebuild_update_equals_bulk_build() {
    let mut rng = StdRng::seed_from_u64(7);
    let a = random_entries(&mut rng, 3_000);
    let b = random_entries(&mut rng, 300);
    let mut all = a.clone();
    all.extend_from_slice(&b);
    let whole = BinaryStateTree::from_entries(&all);
    let mut grown = BinaryStateTree::from_entries(&a);
    grown.insert_many(&b);
    assert_eq!(whole.state_root(), grown.state_root());
}

#[test]
fn root_does_not_depend_on_order() {
    let mut rng = StdRng::seed_from_u64(99);
    let entries = random_entries(&mut rng, 500);
    let mut reversed = entries.clone();
    reversed.reverse();
    let mut rotated = entries.clone();
    rotated.rotate_left(123);
    let root = BinaryStateTree::from_entries(&entries).state_root();
    assert_eq!(BinaryStateTree::from_entries(&reversed).state_root(), root);
    assert_eq!(BinaryStateTree::from_entries(&rotated).state_root(), root);
    let mut one_by_one = BinaryStateTree::new();
    for entry in &rotated {
        one_by_one.insert_many_incremental(&[*entry]);
    }
    assert_eq!(one_by_one.state_root(), root);
    let mut in_two = BinaryStateTree::new();
    in_two.insert_many(&reversed[..200]);
    in_two.insert_many_incremental(&reversed[200..]);
    assert_eq!(in_two.state_root(), root);
}

#[test]
fn every_bound_key_has_a_valid_proof() {
    let mut rng = StdRng::seed_from_u64(5);
    let mut entries = random_entries(&mut rng, 300);
    // Some keys share a stem.
    for i in 0..50 {
        let mut k = entries[i].0;
        k[31] = k[31].wrapping_add(1);
        entries.push((k, key_of("neighbour")));
    }
    let tree = BinaryStateTree::from_entries(&entries);
    let root = tree.state_root();
    for (k, v) in &entries {
        let (value, sibs, path) = tree.prove_for_key(k).unwrap();
        assert_eq!(value, *v);
        assert!(path.len() <= 248);
        assert!(verify_proof(&root, k, v, &sibs, &path));
        let mut bad = *v;
        bad[7] ^= 0x20;
        assert!(!verify_proof(&root, k, &bad, &sibs, &path));
    }
    assert!(tree.prove_for_key(&key_of("not bound")).is_none());
}

#[test]
fn overlong_path_is_rejected() {
    let k = key_of("test");
    let v = key_of("best");
    let tree = BinaryStateTree::from_entries(&[(k, v)]);
    let (_, sibs, _) = tree.prove_for_key(&k).unwrap();
    let path = vec![[0u8; 32]; 249];
    assert!(!verify_proof(&tree.state_root(), &k, &v, &sibs, &path));
}

#[test]
fn zero_collapse_in_a_single_leaf_bucket() {
    let mut k = key_of("zero collapse");
    k[31] = 0;
    let v = key_of("value");
    let tree = BinaryStateTree::from_entries(&[(k, v)]);
    let (_, sibs, path) = tree.prove_for_key(&k).unwrap();
    assert!(path.is_empty());
    for sib in &sibs {
        assert_eq!(*sib, [0u8; 32]);
    }
    // One level above a zero sibling at level 1 or higher stands the pair of
    // two zero nodes, which is zero, and not the digest of 64 zero bytes.
    for lvl in 1..8 {
        let below = sibling_at_level_sparse(&tree.stems[0].leaves, 0, lvl - 1);
        assert_eq!(h_pair(&below, &below), sibs[lvl]);
    }
    assert_ne!(sibs[1], digest(&[0u8; 64]));
}

#[test]
fn stem_tree_builders_agree() {
    let mut rng = StdRng::seed_from_u64(11);
    let entries = random_entries(&mut rng, 3_000);
    let tree = BinaryStateTree::from_entries(&entries);
    assert!(tree.stems.len() >= 2048);
    for pair in tree.stems.windows(2) {
        assert!(pair[0].stem < pair[1].stem);
    }
    let sorted = build_stem_tree_sorted_parallel(&tree.stems, 0);
    let mut shuffled: Vec<StemBucket> = tree.stems.iter().map(|b| b.duplicate()).collect();
    shuffled.reverse();
    shuffled.rotate_left(17);
    let unsorted = build_stem_tree(shuffled, 0);
    assert_eq!(sorted.hash(), tree.state_root());
    assert_eq!(unsorted.hash(), tree.state_root());
    let small = build_stem_tree_sorted_parallel(&tree.stems[..3], 0);
    let small_unsorted =
        build_stem_tree(tree.stems[..3].iter().map(|b| b.duplicate()).collect(), 0);
    assert_eq!(small.hash(), small_unsorted.hash());
    assert_eq!(build_stem_tree(Vec::new(), 0).hash(), [0u8; 32]);
}

#[test]
fn upsert_and_merge_build_the_minimal_subtree() {
    let a = [0u8; 31];
    let mut b = [0u8; 31];
    b[0] = 0x20; // first differing bit: 2
    let ha = key_of("ha");
    let hb = key_of("hb");
    let merged = merge_two_to_subtree(a, ha, b, hb, 0);
    let expected = pair(&pair(&pair(&ha, &hb), &[0u8; 32]), &[0u8; 32]);
    assert_eq!(merged.hash(), expected);
    let mut root = Node::Empty;
    upsert_stem(&mut root, a, ha, 0);
    assert_eq!(root.hash(), ha);
    upsert_stem(&mut root, b, hb, 0);
    assert_eq!(root.hash(), expected);
    let hb2 = key_of("hb2");
    upsert_stem(&mut root, b, hb2, 0);
    assert_eq!(root.hash(), pair(&pair(&pair(&ha, &hb2), &[0u8; 32]), &[0u8; 32]));
    let mut c = [0u8; 31];
    c[0] = 0x80;
    let hc = key_of("hc");
    upsert_stem(&mut root, c, hc, 0);
    assert_eq!(root.hash(), pair(&pair(&pair(&ha, &hb2), &[0u8; 32]), &hc));
    let (_, path) = prove_paths_sparse(&root, &a, 0, &vec![(0, key_of("leaf"))]);
    assert_eq!(path, vec![hc, [0u8; 32], hb2]);
}

#[test]
fn delete_inverts_insert() {
    let mut rng = StdRng::seed_from_u64(21);
    let base = random_entries(&mut rng, 200);
    let extra = random_entries(&mut rng, 1)[0];
    let mut tree = BinaryStateTree::from_entries(&base);
    let root = tree.state_root();
    tree.insert_many_incremental(&[extra]);
    assert_ne!(tree.state_root(), root);
    tree.delete_many(&[extra.0]);
    assert_eq!(tree.state_root(), root);
    assert!(tree.prove_for_key(&extra.0).is_none());
    assert_eq!(tree.stems.len(), 200);
}

#[test]
fn delete_takes_bindings_and_empty_buckets_away() {
    let k1 = key_of("one");
    let mut k2 = k1;
    k2[31] = k1[31].wrapping_add(1);
    let k3 = key_of("three");
    let v = key_of("value");
    let mut tree = BinaryStateTree::from_entries(&[(k1, v), (k2, v), (k3, v)]);
    assert_eq!(tree.stems.len(), 2);
    tree.delete_many(&[k1, key_of("not bound")]);
    assert_eq!(tree.stems.len(), 2);
    assert!(tree.prove_for_key(&k1).is_none());
    assert_eq!(tree.state_root(), BinaryStateTree::from_entries(&[(k2, v), (k3, v)]).state_root());
    let (value, sibs, path) = tree.prove_for_key(&k2).unwrap();
    assert!(verify_proof(&tree.state_root(), &k2, &value, &sibs, &path));
    tree.delete_many(&[k2]);
    assert_eq!(tree.stems.len(), 1);
    assert_eq!(tree.state_root(), BinaryStateTree::from_entries(&[(k3, v)]).state_root());
    tree.delete_many(&[k3, k3]);
    assert_eq!(tree.stems.len(), 0);
    assert_eq!(tree.state_root(), [0u8; 32]);
}

#[test]
fn bucket_unset_takes_a_leaf_away() {
    let mut bucket = StemBucket::new([1u8; 31]);
    bucket.set(9, key_of("nine"));
    bucket.set(3, key_of("three"));
    bucket.unset(5);
    assert_eq!(bucket.leaves.len(), 2);
    bucket.unset(9);
    assert_eq!(bucket.leaves, vec![(3, key_of("three"))]);
    bucket.unset(3);
    assert!(bucket.leaves.is_empty());
    bucket.recompute_hashes();
    assert_eq!(bucket.subtree_root, [0u8; 32]);
}

#[test]
fn malformed_input_is_an_error() {
    let good = vec![7u8; 32];
    assert_eq!(bytes32_from_slice(&good), Ok([7u8; 32]));
    assert_eq!(bytes32_from_slice(&good[..31]), Err(InputError::MalformedInput));
    assert_eq!(bytes32_from_slice(&[]), Err(InputError::MalformedInput));
    let mut long = good.clone();
    long.push(0);
    assert_eq!(bytes32_from_slice(&long), Err(InputError::MalformedInput));
    let pairs = vec![(vec![1u8; 32], vec![2u8; 32]), (vec![3u8; 32], vec![4u8; 32])];
    assert_eq!(entries_from_slices(&pairs), Ok(vec![([1u8; 32], [2u8; 32]), ([3u8; 32], [4u8; 32])]));
    let bad = vec![(vec![1u8; 32], vec![2u8; 32]), (vec![3u8; 32], vec![4u8; 33])];
    assert_eq!(entries_from_slices(&bad), Err(InputError::MalformedInput));
    assert_eq!(entries_from_slices(&[]), Ok(Vec::new()));
}

#[test]
fn bits_and_order_of_stems() {
    let mut a = [0u8; 31];
    a[0] = 0b0100_0000;
    a[30] = 0b0000_0001;
    assert_eq!(stem_bit(&a, 0), 0);
    assert_eq!(stem_bit(&a, 1), 1);
    assert_eq!(stem_bit(&a, 2), 0);
    assert_eq!(stem_bit(&a, 246), 0);
    assert_eq!(stem_bit(&a, 247), 1);
    let mut b = a;
    b[10] ^= 0x08; // bit 84
    assert_eq!(lcp_bits_from(&a, &b, 0), 84);
    assert_eq!(lcp_bits_from(&a, &b, 84), 84);
    assert_eq!(lcp_bits_from(&a, &b, 85), 248);
    assert_eq!(lcp_bits_from(&a, &a, 0), 248);
    assert_eq!(lcp_bits_from(&a, &b, 248), 248);
    assert!(stem_lt(&a, &b));
    assert!(!stem_lt(&b, &a));
    assert!(!stem_lt(&a, &a));
    let key = key_of("split");
    let (stem, sub) = split_key(&key);
    assert_eq!(&stem[..], &key[..31]);
    assert_eq!(sub, key[31]);
}

#[test]
fn stems_are_found_by_binary_search() {
    let mut rng = StdRng::seed_from_u64(1);
    let entries = random_entries(&mut rng, 100);
    let tree = BinaryStateTree::from_entries(&entries);
    for (i, bucket) in tree.stems.iter().enumerate() {
        assert_eq!(find_stem(&tree.stems, &bucket.stem), (true, i));
    }
    assert_eq!(find_stem(&tree.stems, &[0u8; 31]), (false, 0));
    assert_eq!(find_stem(&tree.stems, &[0xffu8; 31]), (false, tree.stems.len()));
    let mut between = tree.stems[10].stem;
    between[30] = between[30].wrapping_add(1);
    if between > tree.stems[10].stem && between < tree.stems[11].stem {
        assert_eq!(find_stem(&tree.stems, &between), (false, 11));
    }
}

#[test]
fn bucket_root_does_not_depend_on_the_order_of_the_leaves() {
    let a = key_of("a");
    let b = key_of("b");
    let two = dense_bucket_root(&[(0, b), (1, a)]);
    assert_eq!(two, pair(&pair(&pair(&pair(&pair(&pair(&pair(&pair(&digest(&b), &digest(&a)),
        &[0u8; 32]), &[0u8; 32]), &[0u8; 32]), &[0u8; 32]), &[0u8; 32]), &[0u8; 32]), &[0u8; 32]));
    assert_eq!(subtree_root_sparse_pairs(&[(1, a), (0, b)]), two);
    assert_eq!(subtree_root_sparse_pairs(&[(0, b), (1, a)]), two);
    assert_ne!(subtree_root_sparse_pairs(&[(1, a), (0, b)]), dense_bucket_root(&[(0, a), (1, b)]));

    let sorted: Vec<(u8, [u8; 32])> = vec![
        (0, key_of("v0")),
        (3, key_of("v3")),
        (64, key_of("v64")),
        (77, key_of("v77")),
        (128, key_of("v128")),
        (200, key_of("v200")),
        (255, key_of("v255")),
    ];
    let expected = dense_bucket_root(&sorted);
    let mut descending = sorted.clone();
    descending.reverse();
    assert_eq!(subtree_root_sparse_pairs(&descending), expected);
    let mut rng = StdRng::seed_from_u64(77);
    for _ in 0..20 {
        let mut mixed = sorted.clone();
        for i in (1..mixed.len()).rev() {
            let j = (rng.next_u32() as usize) % (i + 1);
            mixed.swap(i, j);
        }
        assert_eq!(subtree_root_sparse_pairs(&mixed), expected);
        assert_eq!(leaves_in_order(&mixed), sorted);
        assert_eq!(subtree_root_sparse(&leaves_in_order(&mixed)), expected);
    }
}

#[test]
fn leaf_is_inserted_at_its_place() {
    let mut leaves: Vec<(u8, [u8; 32])> = Vec::new();
    insert_leaf(&mut leaves, 9, key_of("nine"));
    insert_leaf(&mut leaves, 2, key_of("two"));
    insert_leaf(&mut leaves, 200, key_of("many"));
    insert_leaf(&mut leaves, 5, key_of("five"));
    assert_eq!(
        leaves,
        vec![(2, key_of("two")), (5, key_of("five")), (9, key_of("nine")), (200, key_of("many"))]
    );
    insert_leaf(&mut leaves, 5, key_of("other"));
    assert_eq!(
        leaves,
        vec![(2, key_of("two")), (5, key_of("other")), (9, key_of("nine")), (200, key_of("many"))]
    );
}

#[test]
fn empty_subtree_stays_empty_when_wrapped() {
    let out = wrap_with_empties_up(Node::Empty, &[0u8; 31], 0, 3);
    assert_eq!(out.hash(), [0u8; 32]);
    assert!(matches!(out, Node::Empty));
    let mut stem = [0u8; 31];
    stem[0] = 0xff;
    let out = wrap_with_empties_up(Node::Empty, &stem, 2, 248);
    assert_eq!(out.hash(), [0u8; 32]);
    assert!(matches!(out, Node::Empty));
}

#[test]
fn wrapping_puts_the_subtree_on_the_side_of_the_path() {
    let mut stem = [0u8; 31];
    stem[0] = 0x40; // bits 0, 1, 0, 0, ...
    let h = key_of("leaf");
    let leaf = Node::StemLeaf { hash: h, stem };
    let out = wrap_with_empties_up(leaf, &stem, 0, 3);
    let expected = pair(&pair(&[0u8; 32], &pair(&h, &[0u8; 32])), &[0u8; 32]);
    assert_eq!(out.hash(), expected);
    assert!(matches!(out, Node::Internal { .. }));

    let same = wrap_with_empties_up(Node::StemLeaf { hash: h, stem }, &stem, 3, 3);
    assert_eq!(same.hash(), h);
    assert!(matches!(same, Node::StemLeaf { .. }));
    let same = wrap_with_empties_up(Node::StemLeaf { hash: h, stem }, &stem, 5, 3);
    assert_eq!(same.hash(), h);

    let mut other = stem;
    other[0] = 0x60; // parts from the stem at bit 2
    let ho = key_of("other");
    let inner = merge_two_to_subtree(stem, h, other, ho, 2);
    assert_eq!(inner.hash(), pair(&h, &ho));
    let out = wrap_with_empties_up(inner, &stem, 0, 2);
    assert_eq!(out.hash(), pair(&pair(&[0u8; 32], &pair(&h, &ho)), &[0u8; 32]));
    assert_eq!(out.hash(), merge_two_to_subtree(stem, h, other, ho, 0).hash());
}
