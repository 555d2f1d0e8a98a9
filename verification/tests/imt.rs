use semaphore_groups::imt::{IMTError, IMTHashFunction, IMTMerkleProof, IMT};

fn simple_hash_function(nodes: Vec<String>) -> String {
    nodes.join(",")
}

fn strings(values: &[&str]) -> Vec<String> {
    values.iter().map(|v| v.to_string()).collect()
}

fn tree(depth: usize, arity: usize, leaves: &[&str]) -> IMT<IMTHashFunction> {
    let hash: IMTHashFunction = simple_hash_function;
    IMT::new(hash, depth, "zero".to_string(), arity, strings(leaves)).unwrap()
}

#[test]
fn test_new_imt() {
    let hash: IMTHashFunction = simple_hash_function;
    let imt = IMT::new(hash, 3, "zero".to_string(), 2, vec![]);

    assert!(imt.is_ok());
}

#[test]
fn test_insertion() {
    let hash: IMTHashFunction = simple_hash_function;
    let mut imt = IMT::new(hash, 3, "zero".to_string(), 2, vec![]).unwrap();

    assert!(imt.insert("leaf1".to_string()).is_ok());
}

#[test]
fn test_delete() {
    let hash: IMTHashFunction = simple_hash_function;
    let mut imt = IMT::new(hash, 3, "zero".to_string(), 2, vec!["leaf1".to_string()]).unwrap();

    assert!(imt.delete(0).is_ok());
}

#[test]
fn test_update() {
    let hash: IMTHashFunction = simple_hash_function;
    let mut imt = IMT::new(hash, 3, "zero".to_string(), 2, vec!["leaf1".to_string()]).unwrap();

    assert!(imt.update(0, "new_leaf".to_string()).is_ok());
}

#[test]
fn test_create_and_verify_proof() {
    let hash: IMTHashFunction = simple_hash_function;
    let mut imt = IMT::new(hash, 3, "zero".to_string(), 2, vec!["leaf1".to_string()]).unwrap();
    imt.insert("leaf2".to_string()).unwrap();

    let proof = imt.create_proof(0);
    assert!(proof.is_ok());

    let proof = proof.unwrap();
    assert!(imt.verify_proof(&proof));
}

#[test]
fn should_not_initialize_with_too_many_leaves() {
    let hash: IMTHashFunction = simple_hash_function;
    let leaves = vec![
        "leaf1".to_string(),
        "leaf2".to_string(),
        "leaf3".to_string(),
        "leaf4".to_string(),
        "leaf5".to_string(),
    ];
    let imt = IMT::new(hash, 2, "zero".to_string(), 2, leaves);
    assert!(imt.is_err());
}

#[test]
fn should_not_insert_in_full_tree() {
    let hash: IMTHashFunction = simple_hash_function;
    let mut imt = IMT::new(
        hash,
        1,
        "zero".to_string(),
        2,
        vec!["leaf1".to_string(), "leaf2".to_string()],
    )
    .unwrap();

    let result = imt.insert("leaf3".to_string());
    assert!(result.is_err());
}

#[test]
fn should_not_delete_nonexistent_leaf() {
    let hash: IMTHashFunction = simple_hash_function;
    let mut imt = IMT::new(hash, 3, "zero".to_string(), 2, vec!["leaf1".to_string()]).unwrap();

    let result = imt.delete(1);
    assert!(result.is_err());
}

#[test]
#[allow(unused_mut)]
fn test_root() {
    let hash: IMTHashFunction = simple_hash_function;
    let mut imt = IMT::new(
        hash,
        2,
        "zero".to_string(),
        2,
        vec!["leaf1".to_string(), "leaf2".to_string()],
    )
    .unwrap();

    assert_eq!(imt.root(), Some("leaf1,leaf2,zero,zero".to_string()));
}

#[test]
fn test_leaves() {
    let hash: IMTHashFunction = simple_hash_function;
    let imt = IMT::new(
        hash,
        2,
        "zero".to_string(),
        2,
        vec!["leaf1".to_string(), "leaf2".to_string()],
    )
    .unwrap();

    assert_eq!(imt.leaves(), vec!["leaf1".to_string(), "leaf2".to_string()]);
}

#[test]
fn test_depth_and_arity() {
    let hash: IMTHashFunction = simple_hash_function;
    let imt = IMT::new(hash, 3, "zero".to_string(), 2, vec![]).unwrap();

    assert_eq!(imt.depth(), 3);
    assert_eq!(imt.arity(), 2);
}

#[test]
fn build_hashes_every_group_of_children() {
    let imt = tree(2, 2, &["a", "b", "c"]);
    assert_eq!(
        imt.nodes(),
        vec![strings(&["a", "b", "c"]), strings(&["a,b", "c,zero"]), strings(&["a,b,c,zero"])]
    );
    assert_eq!(imt.zeroes(), strings(&["zero", "zero,zero"]));
}

#[test]
fn build_pads_upper_levels_with_their_own_zero() {
    let imt = tree(3, 2, &["a"]);
    assert_eq!(
        imt.nodes(),
        vec![
            strings(&["a"]),
            strings(&["a,zero"]),
            strings(&["a,zero,zero,zero"]),
            strings(&["a,zero,zero,zero,zero,zero,zero,zero"]),
        ]
    );
    assert_eq!(imt.zeroes(), strings(&["zero", "zero,zero", "zero,zero,zero,zero"]));
}

#[test]
fn build_with_arity_three() {
    let imt = tree(2, 3, &["a", "b", "c", "d"]);
    assert_eq!(
        imt.nodes(),
        vec![
            strings(&["a", "b", "c", "d"]),
            strings(&["a,b,c", "d,zero,zero"]),
            strings(&["a,b,c,d,zero,zero,zero,zero,zero"]),
        ]
    );
}

#[test]
fn build_equals_inserting_one_by_one() {
    let built = tree(3, 2, &["a", "b", "c", "d", "e"]);
    let mut grown = tree(3, 2, &[]);
    for leaf in ["a", "b", "c", "d", "e"] {
        grown.insert(leaf.to_string()).unwrap();
    }
    assert_eq!(grown.nodes(), built.nodes());
    assert_eq!(grown.root(), built.root());
}

#[test]
fn empty_tree_has_no_root() {
    let imt = tree(3, 2, &[]);
    assert_eq!(imt.root(), None);
    assert_eq!(imt.leaves(), Vec::<String>::new());
    assert_eq!(imt.nodes(), vec![Vec::<String>::new(); 4]);
}

#[test]
fn tree_of_depth_zero_holds_one_leaf_which_is_the_root() {
    let mut imt = tree(0, 2, &[]);
    assert_eq!(imt.root(), None);
    assert_eq!(imt.insert("only".to_string()), Ok(()));
    assert_eq!(imt.root(), Some("only".to_string()));
    assert_eq!(imt.insert("more".to_string()), Err(IMTError::TreeFull));
    assert_eq!(imt.update(0, "other".to_string()), Ok(()));
    assert_eq!(imt.root(), Some("other".to_string()));
    let proof = imt.create_proof(0).unwrap();
    assert_eq!(proof.siblings(), Vec::<Vec<String>>::new());
    assert!(imt.verify_proof(&proof));
}

#[test]
fn tree_of_arity_one_holds_one_leaf() {
    let mut imt = tree(2, 1, &["a"]);
    assert_eq!(imt.nodes(), vec![strings(&["a"]), strings(&["a"]), strings(&["a"])]);
    assert_eq!(imt.insert("b".to_string()), Err(IMTError::TreeFull));
    let proof = imt.create_proof(0).unwrap();
    assert_eq!(proof.path_indices(), vec![0, 0]);
    assert_eq!(proof.siblings(), vec![Vec::<String>::new(), Vec::<String>::new()]);
    assert!(imt.verify_proof(&proof));
}

#[test]
fn tree_of_arity_zero_holds_nothing_above_depth_zero() {
    let hash: IMTHashFunction = simple_hash_function;
    let full = IMT::new(hash, 2, "zero".to_string(), 0, strings(&["a"]));
    assert_eq!(full.err(), Some(IMTError::CapacityExceeded));
    let mut imt = IMT::new(hash, 2, "zero".to_string(), 0, vec![]).unwrap();
    assert_eq!(imt.insert("a".to_string()), Err(IMTError::TreeFull));
    assert_eq!(imt.root(), None);
}

#[test]
fn construction_is_refused_only_past_the_capacity() {
    let hash: IMTHashFunction = simple_hash_function;
    let four = IMT::new(hash, 2, "zero".to_string(), 2, strings(&["a", "b", "c", "d"]));
    assert!(four.is_ok());
    let five = IMT::new(hash, 2, "zero".to_string(), 2, strings(&["a", "b", "c", "d", "e"]));
    assert_eq!(five.err(), Some(IMTError::CapacityExceeded));
    let nine = IMT::new(hash, 2, "z".to_string(), 3, strings(&["a"; 9]));
    assert!(nine.is_ok());
    let ten = IMT::new(hash, 2, "z".to_string(), 3, strings(&["a"; 10]));
    assert_eq!(ten.err(), Some(IMTError::CapacityExceeded));
}

fn short_hash(nodes: Vec<String>) -> String {
    let mut sum: u64 = 17;
    for node in nodes {
        for byte in node.bytes() {
            sum = sum.wrapping_mul(31).wrapping_add(byte as u64);
        }
        sum = sum.wrapping_mul(131);
    }
    format!("{:016x}", sum)
}

#[test]
fn capacity_beyond_the_machine_word_is_room_enough() {
    let hash: IMTHashFunction = short_hash;
    let mut imt = IMT::new(hash, 70, "0".to_string(), 2, strings(&["a", "b"])).unwrap();
    assert_eq!(imt.depth(), 70);
    assert_eq!(imt.nodes().len(), 71);
    assert_eq!(imt.insert("c".to_string()), Ok(()));
    let proof = imt.create_proof(2).unwrap();
    assert_eq!(proof.path_indices().len(), 70);
    assert_eq!(proof.path_indices()[0], 0);
    assert_eq!(proof.path_indices()[1], 1);
    assert_eq!(proof.path_indices()[2], 0);
    assert!(imt.verify_proof(&proof));
    assert_eq!(Some(proof.root()), imt.root());
}

#[test]
fn insert_appends_at_the_next_index_and_changes_the_root() {
    let mut imt = tree(2, 2, &["a"]);
    let before = imt.root();
    assert_eq!(imt.insert("b".to_string()), Ok(()));
    assert_eq!(imt.leaves(), strings(&["a", "b"]));
    assert_eq!(imt.root(), Some("a,b,zero,zero".to_string()));
    assert_ne!(imt.root(), before);
    assert_eq!(imt.insert("c".to_string()), Ok(()));
    assert_eq!(imt.leaves(), strings(&["a", "b", "c"]));
    assert_eq!(imt.root(), Some("a,b,c,zero".to_string()));
}

#[test]
fn inserting_the_zero_value_changes_no_hash() {
    let mut imt = tree(2, 2, &["a"]);
    let before = imt.root();
    assert_eq!(imt.insert("zero".to_string()), Ok(()));
    assert_eq!(imt.leaves(), strings(&["a", "zero"]));
    assert_eq!(imt.root(), before);
}

#[test]
fn capacity_boundary() {
    let mut imt = tree(2, 3, &[]);
    for i in 0..9 {
        assert_eq!(imt.insert(format!("leaf{}", i)), Ok(()));
        assert_eq!(imt.leaves().len(), i + 1);
    }
    let full = imt.nodes();
    assert_eq!(imt.insert("leaf9".to_string()), Err(IMTError::TreeFull));
    assert_eq!(imt.nodes(), full);
    assert_eq!(imt.update(8, "changed".to_string()), Ok(()));
    assert_eq!(imt.delete(0), Ok(()));
}

#[test]
fn full_tree_scenario() {
    let mut imt = tree(1, 2, &["leaf1", "leaf2"]);
    assert_eq!(imt.insert("leaf3".to_string()), Err(IMTError::TreeFull));
    assert_eq!(imt.leaves(), strings(&["leaf1", "leaf2"]));
    assert_eq!(imt.root(), Some("leaf1,leaf2".to_string()));
}

#[test]
fn update_rewrites_only_the_path_of_its_leaf() {
    let mut imt = tree(3, 2, &["a", "b", "c", "d", "e"]);
    let before = imt.nodes();
    assert_eq!(imt.update(2, "x".to_string()), Ok(()));
    let after = imt.nodes();
    assert_eq!(after[0], strings(&["a", "b", "x", "d", "e"]));
    assert_eq!(after[1], strings(&["a,b", "x,d", "e,zero"]));
    assert_eq!(after[2], strings(&["a,b,x,d", "e,zero,zero,zero"]));
    assert_eq!(after[3], strings(&["a,b,x,d,e,zero,zero,zero"]));
    let path = [2usize, 1, 0, 0];
    for level in 0..4 {
        assert_eq!(after[level].len(), before[level].len());
        for position in 0..before[level].len() {
            if position != path[level] {
                assert_eq!(after[level][position], before[level][position]);
            }
        }
    }
}

#[test]
fn update_of_a_missing_leaf_is_refused_and_changes_nothing() {
    let mut imt = tree(3, 2, &["a", "b"]);
    let before = imt.nodes();
    assert_eq!(imt.update(2, "x".to_string()), Err(IMTError::LeafDoesNotExist));
    assert_eq!(imt.nodes(), before);
    assert_eq!(imt.update(usize::MAX, "x".to_string()), Err(IMTError::LeafDoesNotExist));
    assert_eq!(imt.nodes(), before);
}

#[test]
fn delete_writes_the_zero_value_and_keeps_the_indices() {
    let mut imt = tree(2, 2, &["a", "b", "c"]);
    assert_eq!(imt.delete(1), Ok(()));
    assert_eq!(imt.leaves(), strings(&["a", "zero", "c"]));
    assert_eq!(imt.root(), Some("a,zero,c,zero".to_string()));
    assert_eq!(imt.insert("d".to_string()), Ok(()));
    assert_eq!(imt.leaves(), strings(&["a", "zero", "c", "d"]));
}

#[test]
fn delete_twice_gives_the_same_tree() {
    let mut imt = tree(3, 2, &["a", "b", "c"]);
    assert_eq!(imt.delete(1), Ok(()));
    let once = imt.nodes();
    let root_once = imt.root();
    assert_eq!(imt.delete(1), Ok(()));
    assert_eq!(imt.nodes(), once);
    assert_eq!(imt.root(), root_once);
}

#[test]
fn delete_of_a_missing_leaf_scenario() {
    let mut imt = tree(3, 2, &["leaf1"]);
    let before = imt.nodes();
    assert_eq!(imt.delete(1), Err(IMTError::LeafDoesNotExist));
    assert_eq!(imt.nodes(), before);
    let mut empty = tree(3, 2, &[]);
    assert_eq!(empty.delete(1), Err(IMTError::LeafDoesNotExist));
    assert_eq!(empty.delete(0), Err(IMTError::LeafDoesNotExist));
}

#[test]
fn proof_scenario() {
    let mut imt = tree(2, 2, &[]);
    imt.insert("leaf1".to_string()).unwrap();
    imt.insert("leaf2".to_string()).unwrap();
    assert_eq!(imt.root(), Some("leaf1,leaf2,zero,zero".to_string()));
    let proof = imt.create_proof(0).unwrap();
    assert_eq!(proof.leaf(), "leaf1".to_string());
    assert_eq!(proof.root(), "leaf1,leaf2,zero,zero".to_string());
    assert_eq!(proof.path_indices(), vec![0, 0]);
    assert_eq!(proof.siblings(), vec![strings(&["leaf2"]), strings(&["zero,zero"])]);
    assert!(imt.verify_proof(&proof));
    assert_eq!(imt.try_verify_proof(&proof), Ok(true));
}

#[test]
fn proof_of_every_leaf_verifies() {
    let leaves = ["a", "b", "c", "d", "e", "f", "g"];
    let imt = tree(2, 3, &leaves);
    for index in 0..leaves.len() {
        let proof = imt.create_proof(index).unwrap();
        assert_eq!(proof.leaf(), leaves[index].to_string());
        assert_eq!(Some(proof.root()), imt.root());
        assert_eq!(proof.path_indices(), vec![index % 3, index / 3]);
        assert!(imt.verify_proof(&proof));
    }
    let proof = imt.create_proof(4).unwrap();
    assert_eq!(proof.siblings(), vec![strings(&["d", "f"]), strings(&["a,b,c", "g,zero,zero"])]);
}

#[test]
fn proof_of_a_missing_leaf_is_refused() {
    let imt = tree(2, 2, &["a"]);
    assert_eq!(imt.create_proof(1).err(), Some(IMTError::LeafDoesNotExist));
    let empty = tree(2, 2, &[]);
    assert_eq!(empty.create_proof(0).err(), Some(IMTError::LeafDoesNotExist));
}

fn other_hash_function(nodes: Vec<String>) -> String {
    nodes.join("-")
}

#[test]
fn proof_is_a_snapshot() {
    let mut imt = tree(2, 2, &["a", "b", "c"]);
    let proof: IMTMerkleProof = imt.create_proof(1).unwrap();
    assert!(imt.verify_proof(&proof));
    imt.update(1, "x".to_string()).unwrap();
    assert_eq!(proof.leaf(), "b".to_string());
    assert_eq!(proof.root(), "a,b,c,zero".to_string());
    assert_ne!(Some(proof.root()), imt.root());
    assert!(imt.verify_proof(&proof));
    let fresh = imt.create_proof(1).unwrap();
    assert_eq!(fresh.leaf(), "x".to_string());
    assert_eq!(Some(fresh.root()), imt.root());
    assert!(imt.verify_proof(&fresh));
    let other: IMTHashFunction = other_hash_function;
    let stranger = IMT::new(other, 2, "zero".to_string(), 2, vec![]).unwrap();
    assert!(!stranger.verify_proof(&proof));
}

#[test]
fn proof_of_another_shape_is_malformed() {
    let binary = tree(2, 2, &["a", "b", "c"]);
    let ternary = tree(2, 3, &["a", "b", "c"]);
    let deeper = tree(3, 2, &["a", "b", "c"]);
    let proof = binary.create_proof(2).unwrap();
    assert!(proof.has_shape(2, 2));
    assert!(!proof.has_shape(2, 3));
    assert!(!proof.has_shape(3, 2));
    assert!(!proof.has_shape(2, 0));
    assert_eq!(binary.try_verify_proof(&proof), Ok(true));
    assert_eq!(ternary.try_verify_proof(&proof), Err(IMTError::MalformedProof));
    assert_eq!(deeper.try_verify_proof(&proof), Err(IMTError::MalformedProof));
}

#[test]
fn every_refusal_has_its_words() {
    assert_eq!(
        IMTError::CapacityExceeded.message(),
        "The tree cannot contain more than arity^depth leaves"
    );
    assert_eq!(IMTError::TreeFull.message(), "The tree is full");
    assert_eq!(IMTError::LeafDoesNotExist.message(), "The leaf does not exist in this tree");
    assert_eq!(
        IMTError::MalformedProof.message(),
        "The proof does not have the shape of this tree"
    );
}

#[test]
fn is_full_at_the_capacity_only() {
    let mut imt = tree(2, 2, &["a", "b", "c"]);
    assert!(!imt.is_full());
    imt.insert("d".to_string()).unwrap();
    assert!(imt.is_full());
    assert!(tree(0, 2, &["a"]).is_full());
    assert!(!tree(0, 2, &[]).is_full());
    assert!(tree(3, 0, &[]).is_full());
    assert!(tree(5, 1, &["a"]).is_full());
}

#[test]
fn proof_made_of_its_parts_is_checked_like_any_other() {
    let imt = tree(2, 2, &["a", "b", "c"]);
    let made = imt.create_proof(2).unwrap();
    let copy =
        IMTMerkleProof::new(made.root(), made.leaf(), made.path_indices(), made.siblings());
    assert_eq!(copy.root(), "a,b,c,zero");
    assert_eq!(copy.leaf(), "c");
    assert_eq!(copy.path_indices(), vec![0, 1]);
    assert_eq!(copy.siblings(), vec![strings(&["zero"]), strings(&["a,b"])]);
    assert_eq!(imt.try_verify_proof(&copy), Ok(true));

    let wrong_leaf =
        IMTMerkleProof::new(made.root(), "x".to_string(), made.path_indices(), made.siblings());
    assert_eq!(imt.try_verify_proof(&wrong_leaf), Ok(false));
    assert!(!imt.verify_proof(&wrong_leaf));

    let wrong_place = IMTMerkleProof::new(made.root(), made.leaf(), vec![1, 1], made.siblings());
    assert_eq!(imt.try_verify_proof(&wrong_place), Ok(false));

    let wrong_root = IMTMerkleProof::new(
        "a,b,x,zero".to_string(),
        made.leaf(),
        made.path_indices(),
        made.siblings(),
    );
    assert_eq!(imt.try_verify_proof(&wrong_root), Ok(false));
}

#[test]
fn proof_with_parts_of_the_wrong_length_is_malformed() {
    let imt = tree(2, 2, &["a", "b", "c"]);
    let made = imt.create_proof(2).unwrap();
    let short_path = IMTMerkleProof::new(made.root(), made.leaf(), vec![0], made.siblings());
    assert_eq!(imt.try_verify_proof(&short_path), Err(IMTError::MalformedProof));
    let short_siblings = IMTMerkleProof::new(
        made.root(),
        made.leaf(),
        made.path_indices(),
        vec![strings(&["zero"])],
    );
    assert_eq!(imt.try_verify_proof(&short_siblings), Err(IMTError::MalformedProof));
    let place_out_of_group =
        IMTMerkleProof::new(made.root(), made.leaf(), vec![0, 2], made.siblings());
    assert_eq!(imt.try_verify_proof(&place_out_of_group), Err(IMTError::MalformedProof));
    let crowded = IMTMerkleProof::new(
        made.root(),
        made.leaf(),
        made.path_indices(),
        vec![strings(&["zero", "zero"]), strings(&["a,b"])],
    );
    assert_eq!(imt.try_verify_proof(&crowded), Err(IMTError::MalformedProof));
    let empty = IMTMerkleProof::new(made.root(), made.leaf(), vec![], vec![]);
    assert_eq!(imt.try_verify_proof(&empty), Err(IMTError::MalformedProof));
}
