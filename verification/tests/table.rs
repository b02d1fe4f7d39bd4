use warehouse_lab::balances::BalanceKey;
use warehouse_lab::dedup::DedupKey;
use warehouse_lab::sharded::Sharded;
use warehouse_lab::table::Table;

fn key(i: u64) -> DedupKey {
    // The first eight bytes agree for every key, so all of them share a bucket.
    let mut bytes = [7; 32];
    bytes[8..16].copy_from_slice(&i.to_le_bytes());
    DedupKey { bytes }
}

#[test]
fn colliding_keys_are_told_apart() {
    let mut table: Table<DedupKey, u64> = Table::new();
    for i in 0..20 {
        table.insert(key(i), i * 10);
    }
    assert_eq!(table.len(), 20);
    table.insert(key(3), 333);
    assert_eq!(table.len(), 20);
    assert_eq!(table.get(&key(3)), Some(333));
    for i in (0..20).step_by(2) {
        assert_eq!(table.remove(&key(i)), Some(i * 10));
    }
    assert_eq!(table.remove(&key(0)), None);
    assert_eq!(table.len(), 10);
    for i in 0..20 {
        let expected = if i % 2 == 0 { None } else if i == 3 { Some(333) } else { Some(i * 10) };
        assert_eq!(table.get(&key(i)), expected);
    }
    let mut seen = (0..table.len()).map(|position| table.at(position).1).collect::<Vec<_>>();
    seen.sort();
    assert_eq!(seen, vec![10, 50, 70, 90, 110, 130, 150, 170, 190, 333]);
}

#[test]
fn sharded_map_holds_what_was_put_in() {
    let mut map: Sharded<BalanceKey, i64> = Sharded::new(8);
    assert_eq!(map.count(), 8);
    let pair = |i: i64| BalanceKey { owner_id: format!("o-{i}"), sku: format!("s-{}", i % 3) };
    for i in 0..100 {
        map.insert(pair(i), i);
    }
    assert_eq!(map.len(), 100);
    assert_eq!((0..8).map(|shard| map.table(shard).len()).sum::<usize>(), 100);
    assert_eq!(map.get(&pair(42)), Some(42));
    assert_eq!(map.remove(&pair(42)), Some(42));
    assert_eq!(map.get(&pair(42)), None);
    assert_eq!(map.len(), 99);
}
