use std::collections::HashMap;

use warehouse_lab::bloom::{bloom_add, bloom_empty};
use warehouse_lab::dedup_disk::{
    bloom_starts_ready, dedup_disk_shard, dedup_lsm_shard, dedup_shard_file, fingerprint_bytes, index_len,
    legacy_fallback, lookup_sources, lsm_shard_name, lsm_u64, DiskError, Lookup, Source,
};

fn key(first: u8) -> [u8; 32] {
    let mut key = [0; 32];
    key[0] = first;
    key[31] = first;
    key
}

fn run(keys: &[[u8; 32]], bloom: &[u8], ready: bool, legacy: bool, held: &HashMap<(u8, usize, [u8; 32]), Vec<u8>>) -> Result<Vec<Option<[u8; 32]>>, DiskError> {
    let mut lookup = Lookup::new(keys.to_vec(), bloom, ready);
    if !lookup.any_candidate() {
        return Ok(lookup.into_found());
    }
    for source in lookup_sources(legacy) {
        let place = match source {
            Source::LsmShard(shard) => (0, shard),
            Source::Lsm => (1, 0),
            Source::LegacyShard(shard) => (2, shard),
            Source::Legacy => (3, 0),
        };
        let indices = lookup.questions(source);
        let values = indices.iter().map(|index| held.get(&(place.0, place.1, lookup.key(*index))).cloned()).collect::<Vec<_>>();
        lookup.absorb(&indices, &values)?;
    }
    Ok(lookup.into_found())
}

#[test]
fn shards_come_from_the_first_byte() {
    assert_eq!(dedup_disk_shard(&key(0x5a)), 10);
    assert_eq!(dedup_lsm_shard(&key(0x5a)), 26);
    assert_eq!(dedup_lsm_shard(&key(255)), 63);
    assert_eq!(dedup_disk_shard(&key(255)), 15);
}

#[test]
fn names_have_two_digits() {
    assert_eq!(lsm_shard_name(0), "dedup_v2_00");
    assert_eq!(lsm_shard_name(63), "dedup_v2_63");
    assert_eq!(dedup_shard_file("dedup", 7), "dedup.shard-07.redb");
    assert_eq!(dedup_shard_file("dedup", 15), "dedup.shard-15.redb");
    assert_eq!(lsm_shard_name(123), "dedup_v2_123");
}

#[test]
fn sources_are_asked_from_new_to_old() {
    let order = lookup_sources(true);
    assert_eq!(order.len(), 64 + 1 + 16 + 1);
    assert_eq!(order[0], Source::LsmShard(0));
    assert_eq!(order[63], Source::LsmShard(63));
    assert_eq!(order[64], Source::Lsm);
    assert_eq!(order[65], Source::LegacyShard(0));
    assert_eq!(order[81], Source::Legacy);
    assert_eq!(lookup_sources(false), order[..65].to_vec());
}

#[test]
fn first_answer_counts() {
    let bloom = bloom_empty(64);
    let keys = [key(1), key(2), key(70), key(3)];
    let mut held = HashMap::new();
    held.insert((0, 1, key(1)), vec![11; 32]);
    held.insert((1, 0, key(1)), vec![99; 32]);
    held.insert((1, 0, key(2)), vec![12; 32]);
    held.insert((2, 6, key(70)), vec![13; 32]);
    held.insert((3, 0, key(70)), vec![98; 32]);
    held.insert((3, 0, key(3)), vec![14; 32]);
    let found = run(&keys, &bloom, false, true, &held).unwrap();
    assert_eq!(found, vec![Some([11; 32]), Some([12; 32]), Some([13; 32]), Some([14; 32])]);
    let found = run(&keys, &bloom, false, false, &held).unwrap();
    assert_eq!(found, vec![Some([11; 32]), Some([12; 32]), None, None]);
}

#[test]
fn ready_filter_spares_absent_keys() {
    let mut bloom = bloom_empty(4096);
    bloom_add(&mut bloom, &key(1));
    let mut held = HashMap::new();
    held.insert((0, 1, key(1)), vec![11; 32]);
    held.insert((0, 2, key(2)), vec![12; 32]);
    assert_eq!(run(&[key(1), key(2)], &bloom, true, false, &held).unwrap(), vec![Some([11; 32]), None]);
    assert_eq!(run(&[key(1), key(2)], &bloom, false, false, &held).unwrap(), vec![Some([11; 32]), Some([12; 32])]);
    assert_eq!(run(&[key(2)], &bloom, true, false, &held).unwrap(), vec![None]);
}

#[test]
fn values_must_be_digests() {
    let mut held = HashMap::new();
    held.insert((0, 1, key(1)), vec![11; 31]);
    assert_eq!(run(&[key(1)], &bloom_empty(64), false, false, &held), Err(DiskError::InvalidFingerprint));
    assert_eq!(fingerprint_bytes(&[1; 33]), Err(DiskError::InvalidFingerprint));
    assert_eq!(fingerprint_bytes(&[7; 32]), Ok([7; 32]));
}

#[test]
fn metadata_is_a_number() {
    assert_eq!(lsm_u64(None), Ok(0));
    assert_eq!(lsm_u64(Some(&258u64.to_le_bytes())), Ok(258));
    assert_eq!(lsm_u64(Some(&[1, 2])), Err(DiskError::InvalidMetadata));
}

#[test]
fn older_stores_are_asked_where_one_holds_something() {
    assert!(!legacy_fallback(&[0, 0]));
    assert!(legacy_fallback(&[0, 3]));
    assert!(!legacy_fallback(&[]));
}

#[test]
fn filter_is_ready_where_nothing_was_there_before() {
    assert!(bloom_starts_ready(false, false));
    assert!(!bloom_starts_ready(true, false));
    assert!(!bloom_starts_ready(false, true));
    assert!(!bloom_starts_ready(true, true));
}

#[test]
fn index_holds_what_its_stores_hold_together() {
    assert_eq!(index_len(&[]), Some(0));
    assert_eq!(index_len(&[3, 0, 4]), Some(7));
    assert_eq!(index_len(&[u64::MAX, 0]), Some(u64::MAX));
    assert_eq!(index_len(&[u64::MAX, 1, 0]), None);
}

#[test]
fn lookup_finds_what_was_written() {
    let mut held = HashMap::new();
    held.insert((1, 0, key(70)), vec![1; 32]);
    held.insert((2, 6, key(70)), vec![2; 32]);
    held.insert((3, 0, key(5)), vec![3; 32]);
    let mut bloom = bloom_empty(4096);
    for known in [key(70), key(5)] {
        bloom_add(&mut bloom, &known);
    }
    let keys = [key(70), key(5), key(9)];
    for ready in [false, true] {
        assert_eq!(run(&keys, &bloom, ready, true, &held).unwrap(), vec![Some([1; 32]), Some([3; 32]), None]);
    }
    for (written, value) in [(key(70), [8; 32]), (key(9), [9; 32])] {
        held.insert((0, dedup_lsm_shard(&written), written), value.to_vec());
        bloom_add(&mut bloom, &written);
    }
    for ready in [false, true] {
        let found = run(&keys, &bloom, ready, true, &held).unwrap();
        assert_eq!(found, vec![Some([8; 32]), Some([3; 32]), Some([9; 32])]);
        for (i, key) in keys.iter().enumerate() {
            assert_eq!(run(&[*key], &bloom, ready, true, &held).unwrap(), vec![found[i]]);
        }
    }
}
