use rusty_merkle_tree::{
    get_sha256, get_sha256_vec, hash_to_u64, is_pwr_two, raw_numbers_to_vector, MerkleTree,
};

#[test]
fn lib_u64_convertion() {
    let hash: Vec<u8> = vec![0, 0, 0, 0, 0, 0, 0, 1];
    let expected = 1;
    let result = hash_to_u64(hash);
    assert_eq!(result, expected);

    let hash: Vec<u8> = vec![255, 255, 255, 255, 255, 255, 255, 254];
    let expected = 18446744073709551614;
    let result = hash_to_u64(hash);
    assert_eq!(result, expected);
}

#[test]
fn lib_raw_numbers_to_vector_test() {
    let data = vec![1, 2, 3, 4];
    let expected = vec![vec![1], vec![2], vec![3], vec![4]];
    let result = raw_numbers_to_vector(data);
    assert_eq!(result, expected);
}

#[test]
fn leafs_creation() {
    let data = raw_numbers_to_vector(vec![1, 2, 3, 4]);
    let leafs = MerkleTree::create_leavs(data.clone()).unwrap();
    let h1 = get_sha256(&data[0]);
    assert_eq!(leafs[0].hash, h1);
    let h2 = get_sha256(&data[1].clone());
    assert_eq!(leafs[1].hash, h2);
    let h3 = get_sha256(&data[2].clone());
    assert_eq!(leafs[2].hash, h3);
    let h4 = get_sha256(&data[3].clone());
    assert_eq!(leafs[3].hash, h4);
}

#[test]
fn test_tree_generation() {
    let data = raw_numbers_to_vector(vec![1, 2, 3, 4]);
    let mut tree = MerkleTree::new(data.clone()).unwrap();
    tree.complete_tree();
    let nodes = tree.nodes();
    assert_eq!(nodes.len(), 7);

    let h5 = get_sha256_vec(&vec![nodes[0].hash.clone(), nodes[1].hash.clone()]);
    assert_eq!(nodes[4].hash, h5);

    let h6 = get_sha256_vec(&vec![nodes[2].hash.clone(), nodes[3].hash.clone()]);
    assert_eq!(nodes[5].hash, h6);

    let h7 = get_sha256_vec(&vec![h5, h6]);
    assert_eq!(tree.get_root(), h7);

    assert_eq!(tree.root_index(), 6);
}

#[test]
fn test_add_data() {
    let data = raw_numbers_to_vector(vec![1, 2]);
    let mut tree = MerkleTree::new(data.clone()).unwrap();
    tree.complete_tree();
    let root = tree.get_root();

    let data2 = raw_numbers_to_vector(vec![3]);
    tree.add_data(data2).unwrap();
    let new_root = tree.get_root();

    //if the tree is completed as it should then, the roots should be the same
    let data3 = raw_numbers_to_vector(vec![1, 2, 3, 3]);

    let mut tree2 = MerkleTree::new(data3).unwrap();
    tree2.complete_tree();
    let new_root2 = tree2.get_root();

    assert_ne!(root, new_root);
    assert_eq!(new_root, new_root2);

    println!("TREE: {:?}", tree.nodes());
    println!();
    println!("TREE2: {:?}", tree2.nodes());
}

#[test]
fn test_add_large_data() {
    let data: Vec<Vec<u8>> = raw_numbers_to_vector(vec![1, 2, 3, 4]);
    let mut tree = MerkleTree::new(data).unwrap();
    tree.complete_tree();
    let root = tree.get_root();

    let data2: Vec<Vec<u8>> = raw_numbers_to_vector(vec![5]);
    tree.add_data(data2).unwrap();
    let new_root = tree.get_root();

    //if the tree is completed as it should then, the roots should be the same
    let data3: Vec<Vec<u8>> = raw_numbers_to_vector(vec![1, 2, 3, 4, 5, 5, 5, 5]);
    let mut tree2 = MerkleTree::new(data3).unwrap();
    tree2.complete_tree();
    let new_root2 = tree2.get_root();

    assert_ne!(root, new_root);
    assert_eq!(new_root, new_root2);
}

#[test]
fn test_add_data_verify_new() {
    let data: Vec<Vec<u8>> = raw_numbers_to_vector(vec![1, 2]);
    let mut tree = MerkleTree::new(data).unwrap();
    tree.complete_tree();

    let data2: Vec<Vec<u8>> = raw_numbers_to_vector(vec![3, 4]);
    tree.add_data(data2).unwrap();
    let new_root = tree.get_root();
    println!("TREE: {:?}", tree.nodes());

    let candidate = 3_u8.to_be_bytes().to_vec();
    let proof = tree.get_proof(candidate.clone());
    println!("PROOF: {:?}", proof);
    assert!(proof.verify_proof(candidate.clone(), new_root.clone()));

    let candidate = 4_u8.to_be_bytes().to_vec();
    let proof = tree.get_proof(candidate.clone());
    assert!(proof.verify_proof(candidate.clone(), new_root.clone()));
}

#[test]
fn test_get_leafs() {
    let data: Vec<Vec<u8>> = raw_numbers_to_vector(vec![1, 2, 3, 4]);
    let mut tree = MerkleTree::new(data.clone()).unwrap();
    tree.complete_tree();
    let leafs = tree.get_leafs();
    assert_eq!(leafs.len(), 4);
    assert_eq!(leafs[0].hash, get_sha256(&data[0]));
    assert_eq!(leafs[1].hash, get_sha256(&data[1]));
    assert_eq!(leafs[2].hash, get_sha256(&data[2]));
    assert_eq!(leafs[3].hash, get_sha256(&data[3]));
}

#[test]
fn test_get_proof() {
    let data: Vec<Vec<u8>> = raw_numbers_to_vector(vec![1, 2, 3, 4]);
    let mut tree = MerkleTree::new(data.clone()).unwrap();
    tree.complete_tree();
    let candidate: Vec<u8> = 3_u8.to_be_bytes().to_vec();
    let a_proof = tree.get_proof(candidate.clone());
    let proof = a_proof.get_path().unwrap();
    assert_eq!(proof.len(), 2);
    assert_eq!(proof[0].clone(), get_sha256(&data[3]));
    assert_eq!(
        proof[1].clone(),
        get_sha256_vec(&vec![get_sha256(&data[0]), get_sha256(&data[1])])
    );
    assert_eq!(
        tree.get_root(),
        get_sha256_vec(&vec![
            proof[1].clone(),
            get_sha256_vec(&vec![get_sha256(&candidate), proof[0].clone()])
        ])
    );
}

#[test]
fn test_verifier() {
    let data: Vec<Vec<u8>> = raw_numbers_to_vector(vec![1, 2, 3, 4]);
    let mut tree = MerkleTree::new(data.clone()).unwrap();
    tree.complete_tree();

    let candidate: Vec<u8> = 4_u8.to_be_bytes().to_vec();
    let proof = tree.get_proof(candidate.clone());
    assert!(proof.verify_proof(candidate.clone(), tree.get_root()));
}

#[test]
fn verifier_fails() {
    let data: Vec<Vec<u8>> = raw_numbers_to_vector(vec![1, 2, 3, 4]);
    let mut tree = MerkleTree::new(data.clone()).unwrap();
    tree.complete_tree();

    let proof = tree.get_proof(100_u8.to_be_bytes().to_vec());
    assert!(proof.is_empty());
}

#[test]
fn invalid_proof() {
    let data: Vec<Vec<u8>> = raw_numbers_to_vector(vec![1, 2, 3, 4]);
    let mut tree = MerkleTree::new(data.clone()).unwrap();
    tree.complete_tree();

    let candidate: Vec<u8> = 4_u8.to_be_bytes().to_vec();
    let proof = tree.get_proof(candidate.clone());
    assert!(!proof.verify_proof(10_u8.to_be_bytes().to_vec(), tree.get_root()));
}

#[test]
fn invalid_proof_element_include() {
    let data: Vec<Vec<u8>> = raw_numbers_to_vector(vec![1, 2, 3, 4]);
    let mut tree = MerkleTree::new(data.clone()).unwrap();
    tree.complete_tree();

    let candidate: Vec<u8> = 4_u8.to_be_bytes().to_vec();
    let proof = tree.get_proof(candidate.clone());
    assert!(!proof.verify_proof(1_u8.to_be_bytes().to_vec(), tree.get_root()));
}

#[test]
fn test_merge_trees() {
    let data: Vec<Vec<u8>> = raw_numbers_to_vector(vec![1, 2, 3, 4]);
    let mut tree = MerkleTree::new(data.clone()).unwrap();
    tree.complete_tree();
    let old_root = tree.get_root();

    let data1: Vec<Vec<u8>> = raw_numbers_to_vector(vec![1, 2]);
    let mut tree1 = MerkleTree::new(data1.clone()).unwrap();
    tree1.complete_tree();

    let data2: Vec<Vec<u8>> = raw_numbers_to_vector(vec![3, 4]);
    let mut tree2 = MerkleTree::new(data2.clone()).unwrap();
    tree2.complete_tree();

    tree1.merge_trees(tree2);
    assert_eq!(old_root, tree1.get_root());
}

#[test]
fn test_is_pwr_two() {
    assert!(is_pwr_two(2));
    assert!(is_pwr_two(4));
    assert!(is_pwr_two(8));
    assert!(is_pwr_two(16));
    assert!(is_pwr_two(32));
    assert!(is_pwr_two(64));
    assert!(is_pwr_two(128));
    assert!(is_pwr_two(256));
}

#[test]
fn test_is_pwr_two_fails() {
    assert!(!is_pwr_two(3));
    assert!(!is_pwr_two(5));
    assert!(!is_pwr_two(6));
    assert!(!is_pwr_two(7));
    assert!(!is_pwr_two(9));
    assert!(!is_pwr_two(11));
    assert!(!is_pwr_two(13));
    assert!(!is_pwr_two(15));
    assert!(!is_pwr_two(17));
}

#[test]
fn test_get_iterable_level() {
    let data: Vec<Vec<u8>> = raw_numbers_to_vector(vec![1, 2, 3, 4]);
    let mut tree = MerkleTree::new(data.clone()).unwrap();
    tree.complete_tree();

    let levels = tree.get_iterable_level();

    assert_eq!(levels.len(), 3);
    assert_eq!(levels[0].len(), 4);
    assert_eq!(levels[1].len(), 2);
    assert_eq!(levels[2].len(), 1);

    let nodes = tree.nodes();
    let mut i = 0;
    for l in levels {
        for n in l {
            assert_eq!(n.hash, nodes[i].hash);
            i += 1;
        }
    }
}
