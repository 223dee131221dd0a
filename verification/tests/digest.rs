use rusty_merkle_tree::digest::{combine_hashes, concat_bytes, truncate_digest, DIGEST_WIDTH};
use rusty_merkle_tree::{get_sha256, get_sha256_vec};
use sha2::{Digest, Sha256};

#[test]
fn digest_of_hello_world_is_the_prefix_of_its_sha256() {
    let data = b"hello world".to_vec();
    let expected: Vec<u8> = vec![0xb9, 0x4d, 0x27, 0xb9, 0x93, 0x4d, 0x3e, 0x08];
    assert_eq!(get_sha256(&data), expected);
}

#[test]
fn digest_of_nothing_is_the_prefix_of_the_empty_sha256() {
    let expected: Vec<u8> = vec![0xe3, 0xb0, 0xc4, 0x42, 0x98, 0xfc, 0x1c, 0x14];
    assert_eq!(get_sha256(&Vec::new()), expected);
}

#[test]
fn digest_agrees_with_sha2_and_has_the_configured_width() {
    let data: Vec<u8> = (0..200u8).collect();
    let full = Sha256::digest(&data);
    let hash = get_sha256(&data);
    assert_eq!(hash.len(), DIGEST_WIDTH);
    assert_eq!(hash, full[..DIGEST_WIDTH].to_vec());
    assert_ne!(hash, data);
}

#[test]
fn digest_of_parts_is_one_digest_over_their_concatenation() {
    let parts = vec![b"hello".to_vec(), b" ".to_vec(), b"world".to_vec()];
    assert_eq!(get_sha256_vec(&parts), get_sha256(&b"hello world".to_vec()));
    let hashed_apart = get_sha256_vec(&vec![
        get_sha256(&b"hello".to_vec()),
        get_sha256(&b" world".to_vec()),
    ]);
    assert_ne!(get_sha256_vec(&parts), hashed_apart);
}

#[test]
fn digest_of_no_parts_is_the_digest_of_nothing() {
    assert_eq!(get_sha256_vec(&Vec::new()), get_sha256(&Vec::new()));
    assert_eq!(get_sha256_vec(&vec![Vec::new(), Vec::new()]), get_sha256(&Vec::new()));
}

#[test]
fn truncation_keeps_a_prefix() {
    let full: Vec<u8> = vec![1, 2, 3, 4, 5];
    assert_eq!(truncate_digest(&full, 0), Vec::<u8>::new());
    assert_eq!(truncate_digest(&full, 3), vec![1, 2, 3]);
    assert_eq!(truncate_digest(&full, 5), full);
    assert_eq!(truncate_digest(&full, 9), full);
}

#[test]
fn concatenation_keeps_order() {
    let parts = vec![vec![1, 2], vec![], vec![3], vec![4, 5, 6]];
    assert_eq!(concat_bytes(&parts), vec![1, 2, 3, 4, 5, 6]);
    assert_eq!(concat_bytes(&Vec::new()), Vec::<u8>::new());
}

#[test]
fn parent_digest_is_the_digest_of_both_children_in_order() {
    let left = get_sha256(&vec![1]);
    let right = get_sha256(&vec![2]);
    let mut joined = left.clone();
    joined.extend(right.clone());
    assert_eq!(combine_hashes(&left, &right), get_sha256(&joined));
    assert_eq!(combine_hashes(&left, &right), get_sha256_vec(&vec![left.clone(), right.clone()]));
    assert_ne!(combine_hashes(&left, &right), combine_hashes(&right, &left));
}
