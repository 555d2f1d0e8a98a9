use semaphore_groups::hash::{digest_node, keccak256_hash_function};
use semaphore_groups::imt::IMT;

#[test]
fn keccak_of_nothing() {
    assert_eq!(
        keccak256_hash_function(vec![]),
        "c5d2460186f7233c927e7db2dcc703c0e500b653ca82273b7bfad8045d85a470"
    );
    assert_eq!(
        keccak256_hash_function(vec![String::new(), String::new()]),
        "c5d2460186f7233c927e7db2dcc703c0e500b653ca82273b7bfad8045d85a470"
    );
}

#[test]
fn keccak_of_the_nodes_one_after_the_other() {
    let abc = "4e03657aea45a94fc7d47ba826c8d667c0d1e6e33a64a036ec44f58fa12d6c45";
    assert_eq!(keccak256_hash_function(vec!["abc".to_string()]), abc);
    assert_eq!(keccak256_hash_function(vec!["a".to_string(), "bc".to_string()]), abc);
    assert_eq!(
        keccak256_hash_function(vec!["a".to_string(), "b".to_string(), "c".to_string()]),
        abc
    );
    assert_ne!(keccak256_hash_function(vec!["cba".to_string()]), abc);
}

#[test]
fn digest_node_writes_two_lowercase_digits_per_byte() {
    assert_eq!(digest_node(&[]), "");
    assert_eq!(digest_node(&[0x00, 0x09, 0x0a, 0x1f, 0xa0, 0xff]), "00090a1fa0ff");
    assert_eq!(digest_node(b"Hello world!"), "48656c6c6f20776f726c6421");
}

#[test]
fn tree_over_keccak() {
    let mut imt =
        IMT::new(keccak256_hash_function, 2, "0".to_string(), 2, vec!["1".to_string()]).unwrap();
    let zero1 = keccak256_hash_function(vec!["0".to_string(), "0".to_string()]);
    assert_eq!(imt.zeroes(), vec!["0".to_string(), zero1.clone()]);
    let left = keccak256_hash_function(vec!["1".to_string(), "0".to_string()]);
    let root = keccak256_hash_function(vec![left.clone(), zero1.clone()]);
    assert_eq!(imt.root(), Some(root));
    imt.insert("2".to_string()).unwrap();
    let left = keccak256_hash_function(vec!["1".to_string(), "2".to_string()]);
    let root = keccak256_hash_function(vec![left, zero1]);
    assert_eq!(imt.root(), Some(root.clone()));
    assert_eq!(root.len(), 64);
    let proof = imt.create_proof(1).unwrap();
    assert!(imt.verify_proof(&proof));
}
