use graph_lib::hashing::{hash2, hash_bytes, hash_label_pairs, hash_words};

#[test]
fn hash_of_nothing_is_the_offset() {
    assert_eq!(hash_bytes(&Vec::new()), 0x84222325);
    assert_eq!(hash_words(&Vec::new()), 0x84222325);
}

#[test]
fn hash_absorbs_words() {
    assert_eq!(hash_bytes(&vec![0u8]), 0x8601b7df);
    assert_eq!(hash2(7, 9), 0xb4e2d5bd);
}

#[test]
fn hash_depends_on_order() {
    assert_ne!(hash2(7, 9), hash2(9, 7));
    let a = hash_label_pairs(1, &vec![(1, 2), (3, 4)]);
    let b = hash_label_pairs(1, &vec![(3, 4), (1, 2)]);
    assert_ne!(a, b);
}
