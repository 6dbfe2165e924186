use imt::{IMTHashFunction, IMT};

fn simple_hash_function(nodes: Vec<String>) -> String {
    nodes.join(",")
}

#[test]
fn test_new_imt() {
    let hash: IMTHashFunction = simple_hash_function;
    let imt = IMT::new(hash, 3, "zero".to_string(), 2, None);

    assert!(imt.is_ok());
}

#[test]
fn test_insertion() {
    let hash: IMTHashFunction = simple_hash_function;
    let mut imt = IMT::new(hash, 3, "zero".to_string(), 2, None).unwrap();

    assert!(imt.insert("leaf1".to_string()).is_ok());
}

#[test]
fn test_delete() {
    let hash: IMTHashFunction = simple_hash_function;
    let mut imt = IMT::new(hash, 3, "zero".to_string(), 2, Some(vec!["leaf1".to_string()])).unwrap();

    assert!(imt.delete(0).is_ok());
}

#[test]
fn test_update() {
    let hash: IMTHashFunction = simple_hash_function;
    let mut imt = IMT::new(hash, 3, "zero".to_string(), 2, Some(vec!["leaf1".to_string()])).unwrap();

    assert!(imt.update(0, "new_leaf".to_string()).is_ok());
}

#[test]
fn test_create_and_verify_proof() {
    let hash: IMTHashFunction = simple_hash_function;
    let mut imt = IMT::new(hash, 3, "zero".to_string(), 2, Some(vec!["leaf1".to_string()])).unwrap();
    imt.insert("leaf2".to_string()).unwrap();

    let proof = imt.create_proof(0);
    assert!(proof.is_ok());

    let proof = proof.unwrap();
    assert!(imt.verify_proof(&proof));
}

#[test]
fn should_not_initialize_with_too_many_leaves() {
    let hash: IMTHashFunction = simple_hash_function;
    let leaves = vec!["leaf1".to_string(), "leaf2".to_string(), "leaf3".to_string(), "leaf4".to_string(), "leaf5".to_string()];
    let imt = IMT::new(hash, 2, "zero".to_string(), 2, Some(leaves));
    assert!(imt.is_err());
}

#[test]
fn should_not_insert_in_full_tree() {
    let hash: IMTHashFunction = simple_hash_function;
    let mut imt = IMT::new(hash, 1, "zero".to_string(), 2, Some(vec!["leaf1".to_string(), "leaf2".to_string()])).unwrap();

    let result = imt.insert("leaf3".to_string());
    assert!(result.is_err());
}

#[test]
fn should_not_delete_nonexistent_leaf() {
    let hash: IMTHashFunction = simple_hash_function;
    let mut imt = IMT::new(hash, 3, "zero".to_string(), 2, Some(vec!["leaf1".to_string()])).unwrap();

    let result = imt.delete(1);
    assert!(result.is_err());
}
