use superfast_rsync::blake3::blake3;
use superfast_rsync::crc::Crc;
use superfast_rsync::hashmap_variant::{same_bytes, SecondLayerMap};
use superfast_rsync::signature::{HashAlgorithm, Signature, SignatureOptions};

#[test]
fn same_bytes_compares_contents() {
    assert!(same_bytes(b"", b""));
    assert!(same_bytes(b"abc", b"abc"));
    assert!(!same_bytes(b"abc", b"abd"));
    assert!(!same_bytes(b"abc", b"ab"));
    assert!(!same_bytes(b"", b"a"));
    let long = vec![5u8; 1000];
    let mut other = long.clone();
    assert!(same_bytes(&long, &other));
    other[999] = 6;
    assert!(!same_bytes(&long, &other));
}

#[test]
fn second_layer_map_starts_empty() {
    let map = SecondLayerMap::new();
    assert_eq!(map.len(), 0);
    assert_eq!(map.get(b"abc"), None);
    assert_eq!(map.get(b""), None);
}

#[test]
fn second_layer_map_holds_one_entry() {
    let mut map = SecondLayerMap::new();
    assert_eq!(map.insert(b"abc", 7), None);
    assert_eq!(map.len(), 1);
    assert_eq!(map.get(b"abc"), Some(7));
    assert_eq!(map.get(b"abd"), None);
    assert_eq!(map.get(b"ab"), None);
}

#[test]
fn second_layer_map_grows_with_the_second_key() {
    let mut map = SecondLayerMap::new();
    assert_eq!(map.insert(b"abc", 7), None);
    assert_eq!(map.insert(b"xyz", 8), None);
    assert_eq!(map.len(), 2);
    assert_eq!(map.get(b"abc"), Some(7));
    assert_eq!(map.get(b"xyz"), Some(8));
    assert_eq!(map.get(b"abd"), None);
    let keys: Vec<Vec<u8>> = (0..50u8).map(|i| vec![i, i + 1]).collect();
    for (i, key) in keys.iter().enumerate() {
        assert_eq!(map.insert(key, 100 + i as u32), None);
    }
    assert_eq!(map.len(), 52);
    for (i, key) in keys.iter().enumerate() {
        assert_eq!(map.get(key), Some(100 + i as u32));
    }
    assert_eq!(map.get(b"abc"), Some(7));
}

#[test]
fn second_layer_map_replaces_the_value_of_an_equal_key() {
    let mut map = SecondLayerMap::new();
    let first = vec![1u8, 2, 3];
    let again = vec![1u8, 2, 3];
    assert_eq!(map.insert(&first, 1), None);
    assert_eq!(map.insert(&again, 2), Some(1));
    assert_eq!(map.len(), 1);
    assert_eq!(map.get(&[1, 2, 3]), Some(2));
    assert_eq!(map.insert(b"other", 3), None);
    assert_eq!(map.insert(&first, 4), Some(2));
    assert_eq!(map.insert(b"other", 5), Some(3));
    assert_eq!(map.len(), 2);
    assert_eq!(map.get(&again), Some(4));
    assert_eq!(map.get(b"other"), Some(5));
}

#[test]
fn index_leads_from_checksum_and_hash_to_block() {
    let base = b"aaaabbbbccccdd";
    let options = SignatureOptions { block_size: 4, crypto_hash_size: 6, hash_algorithm: HashAlgorithm::Blake3 };
    let signature = Signature::calculate(base, options);
    let indexed = signature.index();
    assert_eq!(indexed.block_size(), 4);
    assert_eq!(indexed.crypto_hash_size(), 6);
    for (i, block) in [&b"aaaa"[..], b"bbbb", b"cccc", b"dd"].iter().enumerate() {
        let layer = indexed.probe(Crc::new().update(block).value()).unwrap();
        assert_eq!(layer.get(&blake3(block)[..6]), Some(i as u32));
        assert_eq!(layer.get(&blake3(block)[..5]), None);
        assert_eq!(layer.get(&blake3(b"zzzz")[..6]), None);
    }
    assert!(indexed.probe(Crc::new().update(b"zzzz").value()).is_none());
}

#[test]
fn index_leads_to_the_last_of_equal_blocks() {
    let base = b"aaaabbbbaaaabbbbaaaa";
    let options = SignatureOptions { block_size: 4, crypto_hash_size: 32, hash_algorithm: HashAlgorithm::Blake3 };
    let signature = Signature::calculate(base, options);
    let indexed = signature.index();
    let layer = indexed.probe(Crc::new().update(b"aaaa").value()).unwrap();
    assert_eq!(layer.get(&blake3(b"aaaa")), Some(4));
    assert_eq!(layer.len(), 1);
    let layer = indexed.probe(Crc::new().update(b"bbbb").value()).unwrap();
    assert_eq!(layer.get(&blake3(b"bbbb")), Some(3));
}

#[test]
fn index_keeps_blocks_of_one_checksum_apart() {
    // "ab" and "ba" differ in the weighted sum, "abba" and "baab" agree in
    // both sums
    assert_eq!(Crc::new().update(b"abba"), Crc::new().update(b"baab"));
    let base = b"abbabaab";
    let options = SignatureOptions { block_size: 4, crypto_hash_size: 32, hash_algorithm: HashAlgorithm::Blake3 };
    let signature = Signature::calculate(base, options);
    let indexed = signature.index();
    let layer = indexed.probe(Crc::new().update(b"abba").value()).unwrap();
    assert_eq!(layer.len(), 2);
    assert_eq!(layer.get(&blake3(b"abba")), Some(0));
    assert_eq!(layer.get(&blake3(b"baab")), Some(1));
}

#[test]
fn second_layer_map_clones_hold_the_same_entries() {
    let mut map = SecondLayerMap::new();
    assert_eq!(map.clone(), map);
    map.insert(b"abc", 1);
    assert_eq!(map.clone().get(b"abc"), Some(1));
    map.insert(b"abd", 2);
    map.insert(b"abe", 3);
    let copy = map.clone();
    assert_eq!(copy, map);
    assert_eq!(copy.len(), 3);
    assert_eq!(copy.get(b"abd"), Some(2));
    map.insert(b"abd", 9);
    assert_eq!(copy.get(b"abd"), Some(2));
    assert_ne!(copy, map);
}

#[test]
fn indexed_signature_clones_are_equal() {
    let base = b"aaaabbbbccccdd";
    let options = SignatureOptions { block_size: 4, crypto_hash_size: 6, hash_algorithm: HashAlgorithm::Md4 };
    let signature = Signature::calculate(base, options);
    let indexed = signature.index();
    let copy = indexed.clone();
    assert_eq!(copy, indexed);
    assert_eq!(copy, signature.index());
    let other = Signature::calculate(b"aaaabbbbccccde", options);
    assert_ne!(other.index(), indexed);
    let layer = copy.probe(Crc::new().update(b"cccc").value()).unwrap();
    assert_eq!(layer.get(&superfast_rsync::md4::md4(b"cccc")[..6]), Some(2));
}
