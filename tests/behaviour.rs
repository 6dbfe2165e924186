use imt::{keccak256_hash_function, IMTError, IMTHashFunction, IMTMerkleProof, IMT};

fn join_hash(nodes: Vec<String>) -> String {
    nodes.join(",")
}

fn strings(items: &[&str]) -> Vec<String> {
    items.iter().map(|s| s.to_string()).collect()
}

fn tree(depth: usize, arity: usize, leaves: Option<Vec<String>>) -> IMT<IMTHashFunction> {
    let hash: IMTHashFunction = join_hash;
    IMT::new(hash, depth, "zero".to_string(), arity, leaves).unwrap()
}

#[test]
fn concrete_binary_example() {
    let mut t = tree(1, 2, None);
    t.insert("leaf1".to_string()).unwrap();
    t.insert("leaf2".to_string()).unwrap();
    assert_eq!(t.root(), Some("leaf1,leaf2".to_string()));
    t.update(0, "x".to_string()).unwrap();
    assert_eq!(t.root(), Some("x,leaf2".to_string()));
    let proof = t.create_proof(1).unwrap();
    assert_eq!(proof.path_indices, vec![1]);
    assert_eq!(proof.siblings, vec![vec!["x".to_string()]]);
    assert_eq!(proof.leaf, "leaf2".to_string());
    assert_eq!(proof.leaf_index, 1);
    assert_eq!(proof.root, "x,leaf2".to_string());
    assert!(t.verify_proof(&proof));
}

#[test]
fn initial_leaves_fill_levels_with_zero_padding() {
    let mut t = tree(2, 2, Some(strings(&["a", "b", "c"])));
    assert_eq!(t.root(), Some("a,b,c,zero".to_string()));
    let mut u = tree(2, 3, Some(strings(&["a"])));
    assert_eq!(u.root(), Some("a,zero,zero,zero,zero,zero,zero,zero,zero".to_string()));
}

#[test]
fn same_inputs_give_same_root() {
    let mut t1 = tree(3, 2, Some(strings(&["a", "b", "c"])));
    let mut t2 = tree(3, 2, Some(strings(&["a", "b", "c"])));
    assert_eq!(t1.root(), t2.root());
    let mut t3 = tree(3, 2, None);
    for leaf in ["a", "b", "c"] {
        t3.insert(leaf.to_string()).unwrap();
    }
    assert_eq!(t1.root(), t3.root());
}

#[test]
fn capacity_is_arity_to_the_depth() {
    let hash: IMTHashFunction = join_hash;
    let too_many = IMT::new(hash, 2, "zero".to_string(), 3, Some(vec!["l".to_string(); 10]));
    assert_eq!(too_many.err(), Some(IMTError::CapacityExceeded));
    let exactly = IMT::new(hash, 2, "zero".to_string(), 3, Some(vec!["l".to_string(); 9]));
    assert!(exactly.is_ok());
    let mut full = exactly.unwrap();
    let root_before = full.root();
    let leaves_before = full.leaves();
    assert_eq!(full.insert("m".to_string()), Err(IMTError::TreeFull));
    assert_eq!(full.root(), root_before);
    assert_eq!(full.leaves(), leaves_before);
}

#[test]
fn every_proof_verifies_when_made() {
    let mut t = tree(3, 3, None);
    for i in 0..7 {
        t.insert(format!("leaf{}", i)).unwrap();
    }
    for i in 0..7 {
        let proof = t.create_proof(i).unwrap();
        assert_eq!(proof.path_indices.len(), 3);
        assert!(proof.siblings.iter().all(|s| s.len() == 2));
        assert!(t.verify_proof(&proof));
    }
}

#[test]
fn stale_proof_still_verifies() {
    let mut t = tree(2, 2, Some(strings(&["a", "b"])));
    let proof = t.create_proof(0).unwrap();
    let old_root = t.root();
    t.update(1, "changed".to_string()).unwrap();
    t.insert("c".to_string()).unwrap();
    assert_ne!(t.root(), old_root);
    assert!(t.verify_proof(&proof));
}

#[test]
fn update_twice_equals_update_once() {
    let mut once = tree(2, 2, Some(strings(&["a", "b", "c"])));
    let mut twice = tree(2, 2, Some(strings(&["a", "b", "c"])));
    once.update(1, "v".to_string()).unwrap();
    twice.update(1, "v".to_string()).unwrap();
    twice.update(1, "v".to_string()).unwrap();
    assert_eq!(once.root(), twice.root());
    assert_eq!(once.root(), Some("a,v,c,zero".to_string()));
}

#[test]
fn deleted_leaf_proves_zero() {
    let mut t = tree(2, 2, Some(strings(&["a", "b", "c"])));
    t.delete(1).unwrap();
    assert_eq!(t.leaves().len(), 3);
    assert_eq!(t.leaves()[1], Some("zero".to_string()));
    let proof = t.create_proof(1).unwrap();
    assert_eq!(proof.leaf, "zero".to_string());
    assert!(t.verify_proof(&proof));
    assert_eq!(t.root(), Some("a,zero,c,zero".to_string()));
}

#[test]
fn empty_tree_root_is_top_zero() {
    let mut t = tree(2, 2, None);
    assert_eq!(t.root(), Some("zero,zero,zero,zero".to_string()));
    let mut d0 = tree(0, 2, None);
    assert_eq!(d0.root(), Some("zero".to_string()));
    assert!(d0.leaves().is_empty());
}

#[test]
fn depth_zero_tree_holds_one_leaf() {
    let mut t = tree(0, 4, None);
    t.insert("only".to_string()).unwrap();
    assert_eq!(t.root(), Some("only".to_string()));
    assert_eq!(t.insert("more".to_string()), Err(IMTError::TreeFull));
    let proof = t.create_proof(0).unwrap();
    assert!(proof.siblings.is_empty());
    assert!(t.verify_proof(&proof));
}

#[test]
fn out_of_range_index_is_refused() {
    let mut t = tree(2, 2, Some(strings(&["a", "b"])));
    let root = t.root();
    assert_eq!(t.update(2, "x".to_string()), Err(IMTError::LeafNotFound));
    assert_eq!(t.delete(5), Err(IMTError::LeafNotFound));
    assert!(matches!(t.create_proof(2), Err(IMTError::LeafNotFound)));
    assert_eq!(t.root(), root);
    assert_eq!(t.leaves(), vec![Some("a".to_string()), Some("b".to_string())]);
}

#[test]
fn accessors_report_configuration() {
    let mut t = tree(4, 3, Some(strings(&["a"])));
    assert_eq!(t.depth(), 4);
    assert_eq!(t.arity(), 3);
    assert_eq!(t.leaves(), vec![Some("a".to_string())]);
}

#[test]
fn tampered_or_malformed_proof_fails() {
    let t = tree(2, 2, Some(strings(&["a", "b", "c"])));
    let proof = t.create_proof(2).unwrap();
    let mut wrong_leaf = IMTMerkleProof {
        root: proof.root.clone(),
        leaf: "d".to_string(),
        path_indices: proof.path_indices.clone(),
        siblings: proof.siblings.clone(),
        leaf_index: 2,
    };
    assert!(!t.verify_proof(&wrong_leaf));
    wrong_leaf.leaf = proof.leaf.clone();
    assert!(t.verify_proof(&wrong_leaf));
    wrong_leaf.path_indices = vec![2, 0];
    assert!(!t.verify_proof(&wrong_leaf));
    wrong_leaf.path_indices = proof.path_indices.clone();
    wrong_leaf.siblings = vec![vec![]];
    assert!(!t.verify_proof(&wrong_leaf));
}

#[test]
fn keccak_hash_of_empty_input() {
    assert_eq!(
        keccak256_hash_function(vec![]),
        "c5d2460186f7233c927e7db2dcc703c0e500b653ca82273b7bfad8045d85a470".to_string()
    );
}

#[test]
fn keccak_hash_reads_nodes_as_one_byte_string() {
    let split = keccak256_hash_function(strings(&["ab", "c"]));
    let whole = keccak256_hash_function(strings(&["abc"]));
    assert_eq!(split, whole);
    assert_eq!(split.len(), 64);
    assert!(split.chars().all(|c| c.is_ascii_hexdigit() && !c.is_ascii_uppercase()));
    assert_ne!(split, keccak256_hash_function(strings(&["abd"])));
}

#[test]
fn keccak_tree_round_trip() {
    let hash: IMTHashFunction = keccak256_hash_function;
    let mut t = IMT::new(hash, 3, "0".to_string(), 2, Some(strings(&["a", "b", "c"]))).unwrap();
    let proof = t.create_proof(2).unwrap();
    assert!(t.verify_proof(&proof));
    let root = t.root().unwrap();
    assert_eq!(root.len(), 64);
    t.delete(2).unwrap();
    assert_ne!(t.root().unwrap(), root);
}
