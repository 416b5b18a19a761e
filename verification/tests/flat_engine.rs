use bintree::flat::ancestors::collect_ancestors;
use bintree::flat::batch::{prepare_batch, prepare_op, Op};
use bintree::flat::dirty::DirtySet;
use bintree::flat::flat_proof::{verify, Proof, ProofNode};
use bintree::flat::hubt::{concat_and_hash, sha256, RocksHubt};
use bintree::flat::key::{deserialize_key, key_less, keys_equal, serialize_key, NodeKey};
use bintree::flat::path::{get_bit_be, lcp_be, mask_after_be, prefix_match_be, set_bit_be};
use bintree::flat::store::{diff, is_valid_key, FlatStore, StoreWrite};
use bintree::hash::h_pair;
use rand::rngs::StdRng;
use rand::{RngCore, SeedableRng};
use sha2::{Digest, Sha256};

fn sha256_of(data: &[u8]) -> [u8; 32] {
    Sha256::digest(data).into()
}

fn leaf_of(k: &[u8], v: &[u8]) -> [u8; 32] {
    let mut buf = k.to_vec();
    buf.extend_from_slice(v);
    sha256_of(&buf)
}

fn insert(k: &str, v: &str) -> Op {
    Op::Insert(k.as_bytes().to_vec(), v.as_bytes().to_vec())
}

fn delete(k: &str) -> Op {
    Op::Delete(k.as_bytes().to_vec())
}

fn engine() -> RocksHubt {
    RocksHubt::new(FlatStore::new())
}

fn check_proof(hubt: &RocksHubt, k: &str, v: &str) {
    let proof = hubt.prove(k.as_bytes().to_vec(), v.as_bytes().to_vec()).unwrap();
    assert_eq!(proof.root, hubt.root());
    assert!(verify(&proof, k.as_bytes(), v.as_bytes()));
    assert!(!verify(&proof, k.as_bytes(), b"some other value"));
}

#[test]
fn bits_of_a_path() {
    let mut p = [0u8; 32];
    p[0] = 0b1010_0000;
    p[31] = 0b0000_0001;
    assert_eq!(get_bit_be(&p, 0), 1);
    assert_eq!(get_bit_be(&p, 1), 0);
    assert_eq!(get_bit_be(&p, 2), 1);
    assert_eq!(get_bit_be(&p, 254), 0);
    assert_eq!(get_bit_be(&p, 255), 1);
    assert_eq!(get_bit_be(&p, 256), 0);
    assert_eq!(get_bit_be(&p, 1000), 0);
    set_bit_be(&mut p, 1, 1);
    assert_eq!(p[0], 0b1110_0000);
    set_bit_be(&mut p, 0, 0);
    assert_eq!(p[0], 0b0110_0000);
    set_bit_be(&mut p, 15, 1);
    assert_eq!(p[1], 0b0000_0001);
    let before = p;
    set_bit_be(&mut p, 256, 1);
    assert_eq!(p, before);
}

#[test]
fn mask_clears_the_bits_behind_the_length() {
    let mut p = [0xffu8; 32];
    mask_after_be(&mut p, 11);
    assert_eq!(p[0], 0xff);
    assert_eq!(p[1], 0b1110_0000);
    assert_eq!(&p[2..], &[0u8; 30]);
    let mut q = [0xffu8; 32];
    mask_after_be(&mut q, 0);
    assert_eq!(q, [0u8; 32]);
    let mut r = [0xffu8; 32];
    mask_after_be(&mut r, 256);
    assert_eq!(r, [0xffu8; 32]);
    let mut s = [0xffu8; 32];
    mask_after_be(&mut s, 248);
    assert_eq!(s[30], 0xff);
    assert_eq!(s[31], 0);
    let mut t = [0xffu8; 32];
    mask_after_be(&mut t, 255);
    assert_eq!(t[31], 0xfe);
}

#[test]
fn longest_common_prefix() {
    let mut a = [0x55u8; 32];
    let mut b = [0x55u8; 32];
    assert_eq!(lcp_be(&a, &b), (a, 256));
    b[3] ^= 0x04; // bit 24 + 5 = 29
    let (prefix, len) = lcp_be(&a, &b);
    assert_eq!(len, 29);
    let mut expected = [0u8; 32];
    expected[0] = 0x55;
    expected[1] = 0x55;
    expected[2] = 0x55;
    expected[3] = 0x50;
    assert_eq!(prefix, expected);
    assert_eq!(lcp_be(&b, &a), (expected, 29));
    a[0] ^= 0x80;
    assert_eq!(lcp_be(&a, &b), ([0u8; 32], 0));
    let mut c = [0u8; 32];
    c[31] = 1;
    assert_eq!(lcp_be(&[0u8; 32], &c), ([0u8; 32], 255));
}

#[test]
fn prefix_match_compares_leading_bits() {
    let a = [0xabu8; 32];
    let mut b = [0xabu8; 32];
    b[2] ^= 0x01; // bit 23
    assert!(prefix_match_be(&a, &b, 0));
    assert!(prefix_match_be(&a, &b, 23));
    assert!(!prefix_match_be(&a, &b, 24));
    assert!(!prefix_match_be(&a, &b, 256));
    assert!(prefix_match_be(&a, &a, 256));
    b = a;
    b[31] ^= 0x01;
    assert!(prefix_match_be(&a, &b, 255));
    assert!(!prefix_match_be(&a, &b, 256));
}

#[test]
fn key_order_and_bytes() {
    let mut low = [0u8; 32];
    low[0] = 1;
    let mut high = [0u8; 32];
    high[0] = 2;
    let a = NodeKey { path: low, len: 256 };
    let b = NodeKey { path: high, len: 3 };
    let c = NodeKey { path: high, len: 4 };
    assert!(key_less(&a, &b));
    assert!(key_less(&b, &c));
    assert!(!key_less(&c, &b));
    assert!(!key_less(&a, &a));
    assert!(keys_equal(&a, &a));
    assert!(!keys_equal(&b, &c));
    assert!(a < b && b < c);
    let bytes = serialize_key(&NodeKey { path: high, len: 0x0102 });
    assert_eq!(bytes.len(), 34);
    assert_eq!(&bytes[..32], &high);
    assert_eq!(&bytes[32..], &[1u8, 2u8]);
    assert_eq!(deserialize_key(&bytes), NodeKey { path: high, len: 0x0102 });
    let leaf = serialize_key(&a);
    assert_eq!(&leaf[32..], &[1u8, 0u8]);
    assert_eq!(deserialize_key(&leaf), a);
    // The order of the keys is the order of their bytes.
    assert!(serialize_key(&a) < serialize_key(&b));
    assert!(serialize_key(&b) < serialize_key(&c));
}

#[test]
fn store_put_get_remove_and_seek() {
    let mut store = FlatStore::new();
    let key = |byte: u8, len: u16| {
        let mut p = [0u8; 32];
        p[0] = byte;
        mask_after_be(&mut p, len);
        NodeKey { path: p, len }
    };
    let h = |n: u8| [n; 32];
    store.insert_raw(key(0x40, 256), h(1));
    store.insert_raw(key(0x80, 256), h(2));
    store.insert_raw(key(0x00, 0), h(3));
    store.insert_raw(key(0x80, 1), h(4));
    store.insert_raw(key(0x40, 256), h(5));
    assert_eq!(store.len(), 4);
    assert_eq!(store.get(&key(0x40, 256)), Some(h(5)));
    assert_eq!(store.get(&key(0x40, 255)), None);
    assert!(store.exists_raw(&key(0x80, 1)));
    assert!(!store.exists_raw(&key(0x80, 2)));
    assert_eq!(store.first(), Some((key(0x00, 0), h(3))));
    assert_eq!(store.seek_prev(&key(0x80, 256)), Some((key(0x80, 256), h(2))));
    assert_eq!(store.seek_prev(&key(0x80, 255)), Some((key(0x80, 1), h(4))));
    assert_eq!(store.seek_prev(&key(0x7f, 256)), Some((key(0x40, 256), h(5))));
    assert_eq!(store.seek(&key(0x80, 1)), Some((key(0x80, 1), h(4))));
    assert_eq!(store.seek(&key(0x80, 2)), Some((key(0x80, 256), h(2))));
    assert_eq!(store.seek(&key(0x81, 256)), None);
    assert_eq!(store.seek_next(&key(0x80, 1)), Some((key(0x80, 256), h(2))));
    assert_eq!(store.seek_next(&key(0x80, 256)), None);
    assert_eq!(store.seek_next(&key(0x00, 0)), Some((key(0x40, 256), h(5))));
    assert_eq!(store.prev_leaf(&key(0x80, 256).path), Some(key(0x40, 256)));
    assert_eq!(store.prev_leaf(&key(0x40, 256).path), None);
    assert_eq!(store.next_leaf(&key(0x40, 256).path), Some(key(0x80, 256)));
    assert_eq!(store.next_leaf(&key(0x80, 256).path), None);
    store.remove_raw(&key(0x40, 256));
    store.remove_raw(&key(0x41, 256));
    assert_eq!(store.len(), 3);
    assert_eq!(store.get(&key(0x40, 256)), None);
    assert_eq!(store.seek_prev(&key(0x7f, 256)), Some((key(0x00, 0), h(3))));
    let mut empty = FlatStore::new();
    assert_eq!(empty.first(), None);
    assert_eq!(empty.seek_prev(&key(0xff, 256)), None);
    empty.remove_raw(&key(0, 0));
    assert_eq!(empty.len(), 0);
}

#[test]
fn dirty_set_keeps_deepest_first() {
    let mut dirty = DirtySet::new();
    let key = |byte: u8, len: u16| NodeKey { path: [byte; 32], len };
    dirty.insert(key(5, 10));
    dirty.insert(key(1, 256));
    dirty.insert(key(9, 10));
    dirty.insert(key(2, 10));
    dirty.insert(key(5, 10));
    dirty.insert(key(7, 0));
    assert_eq!(dirty.nodes, vec![key(1, 256), key(2, 10), key(5, 10), key(9, 10), key(7, 0)]);
}

#[test]
fn prepared_batch_is_sorted_by_path_then_position() {
    let ops = vec![insert("b", "1"), delete("a"), insert("c", "2"), insert("a", "3"), delete("c")];
    let one = prepare_op(3, &ops[3]);
    assert_eq!(one, (sha256_of(b"a"), 3, true, leaf_of(b"a", b"3")));
    assert_eq!(prepare_op(1, &ops[1]), (sha256_of(b"a"), 1, false, [0u8; 32]));
    let prepared = prepare_batch(&ops);
    assert_eq!(prepared.len(), 5);
    for pair in prepared.windows(2) {
        assert!((pair[0].0, pair[0].1) < (pair[1].0, pair[1].1));
    }
    let mut positions: Vec<usize> = prepared.iter().map(|p| p.1).collect();
    positions.sort();
    assert_eq!(positions, vec![0, 1, 2, 3, 4]);
    for p in &prepared {
        assert_eq!(*p, prepare_op(p.1, &ops[p.1]));
    }
}

#[test]
fn hashes_of_the_flat_engine() {
    assert_eq!(sha256(b"test"), sha256_of(b"test"));
    assert_eq!(concat_and_hash(b"te", b"st"), sha256_of(b"test"));
    assert_eq!(concat_and_hash(b"", b""), sha256_of(b""));
    assert_ne!(concat_and_hash(b"a", b"b"), concat_and_hash(b"b", b"a"));
}

#[test]
fn empty_store_has_zero_root() {
    let hubt = engine();
    assert_eq!(hubt.root(), [0u8; 32]);
    assert!(hubt.prove(b"k".to_vec(), b"v".to_vec()).is_none());
    let mut same = engine();
    same.batch_update(Vec::new());
    assert_eq!(same.root(), [0u8; 32]);
    assert_eq!(same.store.len(), 0);
}

#[test]
fn one_leaf_is_the_root() {
    let mut hubt = engine();
    hubt.batch_update(vec![insert("k", "v")]);
    assert_eq!(hubt.root(), leaf_of(b"k", b"v"));
    assert_eq!(hubt.store.len(), 1);
    let proof = hubt.prove(b"k".to_vec(), b"v".to_vec()).unwrap();
    assert!(proof.nodes.is_empty());
    assert!(verify(&proof, b"k", b"v"));
    assert!(!verify(&proof, b"k", b"w"));
    assert!(hubt.prove(b"k".to_vec(), b"w".to_vec()).is_none());
    assert!(hubt.prove(b"other".to_vec(), b"v".to_vec()).is_none());
}

#[test]
fn two_leaves_hang_under_their_split_point() {
    let mut hubt = engine();
    hubt.batch_update(vec![insert("a", "1"), insert("b", "2")]);
    let (pa, pb) = (sha256_of(b"a"), sha256_of(b"b"));
    let (la, lb) = (leaf_of(b"a", b"1"), leaf_of(b"b", b"2"));
    let expected = if pa < pb { h_pair(&la, &lb) } else { h_pair(&lb, &la) };
    assert_eq!(hubt.root(), expected);
    assert_eq!(hubt.store.len(), 3);
    let (split, len) = lcp_be(&pa, &pb);
    assert_eq!(hubt.store.get(&NodeKey { path: split, len }), Some(expected));
    let proof = hubt.prove(b"a".to_vec(), b"1".to_vec()).unwrap();
    assert_eq!(proof.nodes.len(), 1);
    assert_eq!(proof.nodes[0].hash, lb);
    assert_eq!(proof.nodes[0].len, len);
    assert_eq!(proof.nodes[0].direction, 1 - get_bit_be(&pa, len));
    check_proof(&hubt, "a", "1");
    check_proof(&hubt, "b", "2");
    // The same store grows leaf by leaf.
    let mut grown = engine();
    grown.batch_update(vec![insert("b", "2")]);
    grown.batch_update(vec![insert("a", "1")]);
    assert_eq!(grown.root(), expected);
    assert_eq!(grown.store.entries, hubt.store.entries);
}

#[test]
fn every_bound_key_of_a_batch_has_a_valid_proof() {
    let mut rng = StdRng::seed_from_u64(42);
    let mut keys: Vec<String> = Vec::new();
    for _ in 0..400 {
        keys.push(format!("key-{}", rng.next_u64()));
    }
    let mut hubt = engine();
    hubt.batch_update(keys[..250].iter().map(|k| insert(k, "one")).collect());
    hubt.batch_update(keys[250..].iter().map(|k| insert(k, "two")).collect());
    for k in &keys[..250] {
        check_proof(&hubt, k, "one");
    }
    for k in &keys[250..] {
        check_proof(&hubt, k, "two");
    }
    // One batch gives the same store as two.
    let mut at_once = engine();
    let mut all: Vec<Op> = keys[..250].iter().map(|k| insert(k, "one")).collect();
    all.extend(keys[250..].iter().map(|k| insert(k, "two")));
    all.reverse();
    at_once.batch_update(all);
    assert_eq!(at_once.root(), hubt.root());
    assert_eq!(at_once.store.entries, hubt.store.entries);
    // Overwrite and delete.
    let mut ops: Vec<Op> = keys[..50].iter().map(|k| delete(k)).collect();
    ops.extend(keys[50..100].iter().map(|k| insert(k, "three")));
    hubt.batch_update(ops);
    for k in &keys[..50] {
        assert!(hubt.prove(k.as_bytes().to_vec(), b"one".to_vec()).is_none());
    }
    for k in &keys[50..100] {
        assert!(hubt.prove(k.as_bytes().to_vec(), b"one".to_vec()).is_none());
        check_proof(&hubt, k, "three");
    }
    for k in &keys[100..250] {
        check_proof(&hubt, k, "one");
    }
    for k in &keys[250..] {
        check_proof(&hubt, k, "two");
    }
}

#[test]
fn later_insert_of_a_key_wins_in_one_batch() {
    let mut hubt = engine();
    hubt.batch_update(vec![insert("k", "1"), insert("x", "9"), insert("k", "2")]);
    assert!(hubt.prove(b"k".to_vec(), b"1".to_vec()).is_none());
    check_proof(&hubt, "k", "2");
    check_proof(&hubt, "x", "9");
    let mut other = engine();
    other.batch_update(vec![insert("x", "9"), insert("k", "2")]);
    assert_eq!(other.root(), hubt.root());
}

#[test]
fn insert_then_delete_on_an_empty_store() {
    let mut hubt = engine();
    let before = hubt.root();
    hubt.batch_update(vec![insert("k", "v")]);
    assert_ne!(hubt.root(), before);
    hubt.batch_update(vec![delete("k")]);
    assert_eq!(hubt.root(), before);
    assert_eq!(hubt.store.len(), 0);
}

#[test]
fn delete_takes_the_leaf_and_keeps_the_others_provable() {
    let mut hubt = engine();
    hubt.batch_update(vec![insert("a", "1"), insert("b", "2"), insert("c", "3")]);
    hubt.batch_update(vec![delete("b")]);
    assert!(hubt.prove(b"b".to_vec(), b"2".to_vec()).is_none());
    check_proof(&hubt, "a", "1");
    check_proof(&hubt, "c", "3");
    hubt.batch_update(vec![delete("a"), delete("c")]);
    assert_eq!(hubt.root(), [0u8; 32]);
    assert_eq!(hubt.store.len(), 0);
}

#[test]
fn ancestors_are_the_stored_prefixes_longest_first() {
    let mut hubt = engine();
    hubt.batch_update(vec![insert("a", "1"), insert("b", "2"), insert("c", "3"), insert("d", "4")]);
    let target = sha256_of(b"a");
    let found = collect_ancestors(&hubt.store, &target);
    let mut expected: Vec<NodeKey> = hubt
        .store
        .entries
        .iter()
        .map(|e| e.0)
        .filter(|k| prefix_match_be(&target, &k.path, k.len))
        .collect();
    expected.sort_by(|x, y| y.len.cmp(&x.len));
    assert_eq!(found, expected);
    assert_eq!(found[0], NodeKey { path: target, len: 256 });
    assert!(found.len() >= 2);
    let absent = collect_ancestors(&hubt.store, &sha256_of(b"zzz"));
    assert!(absent.iter().all(|k| k.len < 256));
}

#[test]
fn proof_with_a_wrong_step_is_rejected() {
    let mut hubt = engine();
    hubt.batch_update(vec![insert("a", "1"), insert("b", "2"), insert("c", "3")]);
    let proof = hubt.prove(b"a".to_vec(), b"1".to_vec()).unwrap();
    assert!(verify(&proof, b"a", b"1"));
    let mut nodes: Vec<ProofNode> = proof.nodes.clone();
    nodes[0].direction = 1 - nodes[0].direction;
    assert!(!verify(&Proof { root: proof.root, nodes }, b"a", b"1"));
    let mut short: Vec<ProofNode> = proof.nodes.clone();
    short.pop();
    assert!(!verify(&Proof { root: proof.root, nodes: short }, b"a", b"1"));
    let mut root = proof.root;
    root[31] ^= 1;
    assert!(!verify(&Proof { root, nodes: proof.nodes.clone() }, b"a", b"1"));
}

#[test]
fn diff_lists_the_writes_between_two_stores() {
    let mut hubt = engine();
    hubt.batch_update(vec![insert("a", "1"), insert("b", "2"), insert("c", "3")]);
    let before = FlatStore { entries: hubt.store.entries.clone() };
    hubt.batch_update(vec![delete("b"), insert("c", "4"), insert("d", "5")]);
    let writes = diff(&before, &hubt.store);
    assert!(!writes.is_empty());
    let mut replayed = FlatStore { entries: before.entries.clone() };
    for write in &writes {
        match write {
            StoreWrite::Put(key, hash) => replayed.insert_raw(*key, *hash),
            StoreWrite::Delete(key) => replayed.remove_raw(key),
        }
    }
    assert_eq!(replayed.entries, hubt.store.entries);
    assert!(writes.contains(&StoreWrite::Delete(NodeKey { path: sha256_of(b"b"), len: 256 })));
    assert!(writes.contains(&StoreWrite::Put(NodeKey { path: sha256_of(b"c"), len: 256 }, leaf_of(b"c", b"4"))));
    assert!(!writes.iter().any(|w| matches!(w, StoreWrite::Put(k, _) if k.path == sha256_of(b"a") && k.len == 256)));
    assert!(diff(&before, &before).is_empty());
    let empty = FlatStore::new();
    assert_eq!(diff(&empty, &before).len(), before.len());
    assert!(diff(&before, &empty).iter().all(|w| matches!(w, StoreWrite::Delete(_))));
}

#[test]
fn valid_keys_have_zeros_behind_their_bits() {
    let mut p = [0u8; 32];
    p[0] = 0b1100_0000;
    assert!(is_valid_key(&NodeKey { path: p, len: 2 }));
    assert!(is_valid_key(&NodeKey { path: p, len: 256 }));
    assert!(!is_valid_key(&NodeKey { path: p, len: 1 }));
    assert!(!is_valid_key(&NodeKey { path: p, len: 257 }));
    assert!(is_valid_key(&NodeKey { path: [0u8; 32], len: 0 }));
    assert!(!is_valid_key(&NodeKey { path: p, len: 0 }));
}

#[test]
fn leaves_after_a_batch_follow_the_writes() {
    let mut hubt = engine();
    hubt.batch_update(vec![insert("keep", "0"), insert("gone", "0"), insert("both", "0")]);
    hubt.batch_update(vec![
        insert("new", "1"),
        delete("gone"),
        insert("both", "1"),
        delete("both"),
        insert("new", "2"),
        delete("never"),
    ]);
    let leaf = |k: &str| hubt.store.get(&NodeKey { path: sha256_of(k.as_bytes()), len: 256 });
    assert_eq!(leaf("keep"), Some(leaf_of(b"keep", b"0")));
    assert_eq!(leaf("gone"), None);
    // An insert of the batch stands, whatever the batch deletes.
    assert_eq!(leaf("both"), Some(leaf_of(b"both", b"1")));
    assert_eq!(leaf("new"), Some(leaf_of(b"new", b"2")));
    assert_eq!(leaf("never"), None);
    for (k, v) in [("keep", "0"), ("both", "1"), ("new", "2")] {
        check_proof(&hubt, k, v);
    }
}

#[test]
fn stores_of_batches_hold_no_zero_hash() {
    let mut hubt = engine();
    assert!(hubt.has_no_zero_hash());
    hubt.batch_update(vec![insert("a", "1"), insert("b", "2"), insert("c", "3")]);
    assert!(hubt.has_no_zero_hash());
    hubt.batch_update(vec![delete("a"), delete("c")]);
    assert!(hubt.has_no_zero_hash());
    hubt.insert_raw(NodeKey { path: [0u8; 32], len: 0 }, [0u8; 32]);
    assert!(!hubt.has_no_zero_hash());
}

#[test]
fn every_split_point_holds_the_pair_hash_of_its_children() {
    let mut rng = StdRng::seed_from_u64(3);
    let mut hubt = engine();
    let keys: Vec<String> = (0..200).map(|_| format!("k{}", rng.next_u64())).collect();
    hubt.batch_update(keys.iter().map(|k| insert(k, "v")).collect());
    hubt.batch_update(keys[..80].iter().map(|k| delete(k)).collect());
    for (key, hash) in &hubt.store.entries {
        if key.len < 256 {
            let left = hubt.child_hash_of(key, 0);
            let right = hubt.child_hash_of(key, 1);
            assert_eq!(*hash, h_pair(&left, &right));
            assert!(left != [0u8; 32] || right != [0u8; 32]);
        }
    }
}

#[test]
fn split_point_with_one_child_stays() {
    let mut hubt = engine();
    hubt.batch_update(vec![insert("a", "1"), insert("b", "2")]);
    hubt.batch_update(vec![delete("b")]);
    let (pa, pb) = (sha256_of(b"a"), sha256_of(b"b"));
    let la = leaf_of(b"a", b"1");
    let (split, len) = lcp_be(&pa, &pb);
    // The split point has one child left: it holds the pair hash of that
    // child and a zero node, and it is the first node of the store.
    let expected = if get_bit_be(&pa, len) == 0 { h_pair(&la, &[0u8; 32]) } else { h_pair(&[0u8; 32], &la) };
    assert_eq!(hubt.store.len(), 2);
    assert_eq!(hubt.store.get(&NodeKey { path: split, len }), Some(expected));
    assert_eq!(hubt.root(), expected);
    check_proof(&hubt, "a", "1");
    // With its last child gone it goes too.
    hubt.batch_update(vec![delete("a")]);
    assert_eq!(hubt.store.len(), 0);
}

#[test]
fn batches_of_inserts_give_one_store_in_any_order() {
    let mut rng = StdRng::seed_from_u64(77);
    let keys: Vec<String> = (0..300).map(|_| format!("k{}", rng.next_u64())).collect();
    let ops = |range: std::ops::Range<usize>| -> Vec<Op> { keys[range].iter().map(|k| insert(k, "v")).collect() };
    let mut at_once = engine();
    at_once.batch_update(ops(0..300));
    let mut reversed = engine();
    let mut all = ops(0..300);
    all.reverse();
    reversed.batch_update(all);
    let mut in_parts = engine();
    in_parts.batch_update(ops(200..300));
    in_parts.batch_update(ops(0..120));
    in_parts.batch_update(ops(120..200));
    assert_eq!(at_once.store.entries, reversed.store.entries);
    assert_eq!(at_once.store.entries, in_parts.store.entries);
    assert_eq!(at_once.root(), in_parts.root());
    assert!(at_once.has_no_zero_hash());
}

#[test]
fn overlong_flat_proof_is_rejected() {
    let mut hubt = engine();
    hubt.batch_update(vec![insert("k", "v")]);
    let proof = hubt.prove(b"k".to_vec(), b"v".to_vec()).unwrap();
    assert!(verify(&proof, b"k", b"v"));
    let step = ProofNode { hash: [0u8; 32], direction: 1, len: 0 };
    let long = Proof { root: proof.root, nodes: vec![step; 257] };
    assert!(!verify(&long, b"k", b"v"));
}

#[test]
fn delete_inverts_insert_where_the_split_points_are_in_place() {
    let mut rng = StdRng::seed_from_u64(5);
    let keys: Vec<String> = (0..60).map(|_| format!("k{}", rng.next_u64())).collect();
    let mut hubt = engine();
    hubt.batch_update(keys.iter().map(|k| insert(k, "v")).collect());
    let fresh = hubt.store.entries.clone();
    // The first insert of a new key makes a split point, which the delete
    // leaves in the store with one child.
    hubt.batch_update(vec![insert("new key", "1")]);
    hubt.batch_update(vec![delete("new key")]);
    let at_rest = hubt.store.entries.clone();
    let root = hubt.root();
    assert_eq!(at_rest.len(), fresh.len() + 1);
    // From then on the store holds the split points of the key, and insert
    // and delete leave it as it was, node for node.
    hubt.batch_update(vec![insert("new key", "2")]);
    assert_ne!(hubt.root(), root);
    assert_eq!(hubt.store.len(), at_rest.len() + 1);
    check_proof(&hubt, "new key", "2");
    hubt.batch_update(vec![delete("new key")]);
    assert_eq!(hubt.store.entries, at_rest);
    assert_eq!(hubt.root(), root);
    assert!(hubt.has_no_zero_hash());
    for k in keys.iter() {
        check_proof(&hubt, k, "v");
    }
}

#[test]
fn delete_inverts_insert_beside_one_leaf_and_its_split_point() {
    let mut hubt = engine();
    hubt.batch_update(vec![insert("a", "1"), insert("b", "2")]);
    hubt.batch_update(vec![delete("b")]);
    let at_rest = hubt.store.entries.clone();
    let root = hubt.root();
    assert_eq!(at_rest.len(), 2);
    hubt.batch_update(vec![insert("b", "3")]);
    hubt.batch_update(vec![delete("b")]);
    assert_eq!(hubt.store.entries, at_rest);
    assert_eq!(hubt.root(), root);
}

#[test]
fn keys_stand_in_the_order_of_their_bytes() {
    let mut rng = StdRng::seed_from_u64(9);
    let mut keys: Vec<NodeKey> = Vec::new();
    for _ in 0..200 {
        let mut path = [0u8; 32];
        rng.fill_bytes(&mut path);
        let len = (rng.next_u32() % 257) as u16;
        mask_after_be(&mut path, len);
        keys.push(NodeKey { path, len });
        // The same path with other lengths, and lengths on both sides of a byte.
        keys.push(NodeKey { path, len: 256 });
        keys.push(NodeKey { path, len: 255 });
    }
    for a in keys.iter() {
        for b in keys.iter() {
            assert_eq!(key_less(a, b), serialize_key(a) < serialize_key(b));
            assert_eq!(keys_equal(a, b), serialize_key(a) == serialize_key(b));
        }
    }
}
