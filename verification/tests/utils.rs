use rusty_merkle_tree::utils::{bytes_equal, copy_blocks, copy_bytes, copy_flags};
use rusty_merkle_tree::{hash_to_u64, is_pwr_two, raw_numbers_to_vector};

#[test]
fn utils_u64_convertion() {
    let hash: Vec<u8> = vec![0, 0, 0, 0, 0, 0, 0, 1];
    let expected = 1;
    let result = hash_to_u64(hash);
    assert_eq!(result, expected);

    let hash: Vec<u8> = vec![255, 255, 255, 255, 255, 255, 255, 254];
    let expected = 18446744073709551614;
    let result = hash_to_u64(hash);
    assert_eq!(result, expected);
}

#[test]
fn utils_raw_numbers_to_vector_test() {
    let data = vec![1, 2, 3, 4];
    let expected = vec![vec![1], vec![2], vec![3], vec![4]];
    let result = raw_numbers_to_vector(data);
    assert_eq!(result, expected);
}

#[test]
fn u64_conversion_reads_big_endian() {
    let hash: Vec<u8> = vec![1, 2, 3, 4, 5, 6, 7, 8];
    assert_eq!(hash_to_u64(hash), 0x0102030405060708);
}

#[test]
fn u64_conversion_ignores_bytes_after_the_eighth() {
    let hash: Vec<u8> = vec![0, 0, 0, 0, 0, 0, 1, 0, 255, 255];
    assert_eq!(hash_to_u64(hash), 256);
}

#[test]
fn raw_numbers_of_nothing_is_nothing() {
    let result = raw_numbers_to_vector(Vec::new());
    assert_eq!(result, Vec::<Vec<u8>>::new());
}

#[test]
fn power_of_two_edges() {
    assert!(!is_pwr_two(0));
    assert!(is_pwr_two(1));
    assert!(is_pwr_two(1 << 20));
    assert!(!is_pwr_two((1 << 20) + 1));
    assert!(!is_pwr_two(usize::MAX));
    assert!(is_pwr_two((usize::MAX >> 1) + 1));
}

#[test]
fn copies_are_equal_to_what_they_copy() {
    let bytes: Vec<u8> = vec![3, 1, 4, 1, 5];
    assert_eq!(copy_bytes(&bytes), bytes);
    let blocks: Vec<Vec<u8>> = vec![vec![], vec![9, 9], vec![0]];
    assert_eq!(copy_blocks(&blocks), blocks);
    let flags = vec![true, false, false, true];
    assert_eq!(copy_flags(&flags), flags);
}

#[test]
fn byte_strings_are_compared_by_content() {
    assert!(bytes_equal(&vec![], &vec![]));
    assert!(bytes_equal(&vec![1, 2, 3], &vec![1, 2, 3]));
    assert!(!bytes_equal(&vec![1, 2, 3], &vec![1, 2, 4]));
    assert!(!bytes_equal(&vec![1, 2, 3], &vec![1, 2]));
    assert!(!bytes_equal(&vec![1, 2], &vec![1, 2, 3]));
}
