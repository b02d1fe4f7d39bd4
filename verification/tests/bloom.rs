use warehouse_lab::bloom::{
    bloom_add, bloom_add_stored, bloom_empty, bloom_maybe, bloom_merge, bloom_positions, InvalidKeyLength,
};
use warehouse_lab::digest::operation_id_hash;

#[test]
fn positions_are_the_four_numbers_of_a_key() {
    let mut key = [0; 32];
    for (i, number) in [5u64, 1000, 8, u64::MAX].iter().enumerate() {
        key[i * 8..i * 8 + 8].copy_from_slice(&number.to_le_bytes());
    }
    assert_eq!(bloom_positions(&key, 64), [5, 1000 % 64, 8, (u64::MAX % 64) as usize]);
}

#[test]
fn added_bits_are_set_and_no_others() {
    let mut bloom = bloom_empty(8);
    let mut key = [0; 32];
    key[0] = 3;
    key[8] = 17;
    key[16] = 3;
    key[24] = 63;
    bloom_add(&mut bloom, &key);
    assert_eq!(bloom, vec![0b0000_1000, 0, 0b0000_0010, 0, 0, 0, 0, 0b1000_0000]);
}

#[test]
fn noted_keys_are_never_absent() {
    let mut bloom = bloom_empty(4096);
    let keys = (0..200).map(|i| operation_id_hash(&format!("id-{i}"))).collect::<Vec<_>>();
    for (i, key) in keys.iter().enumerate() {
        bloom_add(&mut bloom, key);
        assert!(keys[..=i].iter().all(|key| bloom_maybe(&bloom, key)));
    }
    let absent = (1000..2000).filter(|i| !bloom_maybe(&bloom, &operation_id_hash(&format!("id-{i}")))).count();
    assert!(absent > 900);
}

#[test]
fn empty_filter_holds_nothing() {
    assert!(!bloom_maybe(&bloom_empty(64), &operation_id_hash("a")));
}

#[test]
fn merged_filter_keeps_both() {
    let mut first = bloom_empty(1024);
    let mut second = bloom_empty(1024);
    bloom_add(&mut first, &operation_id_hash("a"));
    bloom_add(&mut second, &operation_id_hash("b"));
    bloom_merge(&mut first, &second);
    assert!(bloom_maybe(&first, &operation_id_hash("a")));
    assert!(bloom_maybe(&first, &operation_id_hash("b")));
    let mut short = vec![1, 2, 3];
    bloom_merge(&mut short, &[4]);
    assert_eq!(short, vec![5, 2, 3]);
}

#[test]
fn stored_keys_must_be_digests() {
    let mut bloom = bloom_empty(64);
    assert_eq!(bloom_add_stored(&mut bloom, &[1; 31]), Err(InvalidKeyLength));
    assert_eq!(bloom, vec![0; 64]);
    assert_eq!(bloom_add_stored(&mut bloom, &[1; 32]), Ok(()));
    assert!(bloom_maybe(&bloom, &[1; 32]));
}
