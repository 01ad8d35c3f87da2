use orbit::bytes::{decode_be, decode_u32, decode_u64, encode_be, encode_u32, encode_u64};
use orbit::usage::{key_of, uuid_of, EpochUsage, EpochUsageTable};
use orbit::Uuid;
use std::collections::BTreeMap;

fn id(last: u8) -> Uuid {
    let mut id = [0u8; 16];
    id[15] = last;
    id
}

fn record(epoch: u64, entries: &[(u8, u64)]) -> EpochUsage {
    EpochUsage::from_vec(epoch, entries.iter().map(|(n, amount)| (id(*n), *amount)).collect())
}

fn epochs(table: &EpochUsageTable) -> Vec<u64> {
    table.tables.iter().map(|record| record.epoch).collect()
}

#[test]
fn default_table_is_for_ten_nodes() {
    let table = EpochUsageTable::default();
    assert_eq!(table.recent_epoch, 0);
    assert_eq!(table.node_count, 10);
    assert!(table.tables.is_empty());
}

#[test]
fn integers_are_written_from_the_most_significant_byte_on() {
    assert_eq!(encode_u64(0x0102_0304_0506_0708), vec![1, 2, 3, 4, 5, 6, 7, 8]);
    assert_eq!(encode_u64(u64::MAX), u64::MAX.to_be_bytes().to_vec());
    assert_eq!(encode_u32(0x0a0b_0c0d), vec![10, 11, 12, 13]);
    assert_eq!(decode_u64(&[0, 0, 0, 0, 0, 0, 1, 2]), 258);
    assert_eq!(decode_u32(&[0xff, 0xff, 0xff, 0xfe]), u32::MAX - 1);
    assert_eq!(encode_be(258, 3), vec![0, 1, 2]);
    assert_eq!(decode_be(&[]), 0);
    assert_eq!(decode_be(&[1, 0, 0]), 65536);
}

#[test]
fn identifiers_spell_numbers_and_back() {
    let id: Uuid = [0x01, 0x23, 0x45, 0x67, 0x89, 0xab, 0xcd, 0xef, 0, 1, 2, 3, 4, 5, 6, 7];
    assert_eq!(key_of(&id), u128::from_be_bytes(id));
    assert_eq!(uuid_of(key_of(&id)), id);
    assert_eq!(uuid_of(0), [0u8; 16]);
    assert_eq!(uuid_of(u128::MAX), [0xffu8; 16]);
}

#[test]
fn identifiers_are_ordered_by_their_bytes() {
    let mut front = [0u8; 16];
    front[0] = 1;
    let back = [0, 0xff, 0xff, 0xff, 0xff, 0xff, 0xff, 0xff, 0, 0, 0, 0, 0, 0, 0, 0];
    assert!(back < front);
    assert!(key_of(&back) < key_of(&front));
}

#[test]
fn search_finds_every_entry_of_a_sorted_record() {
    for count in 0..20u8 {
        let entries: Vec<(u8, u64)> = (0..count).map(|n| (2 * n + 1, n as u64 + 100)).collect();
        let record = record(7, &entries);
        for n in 0..count {
            assert_eq!(record.get_usage(&id(2 * n + 1)), Some(n as u64 + 100));
            assert_eq!(record.get_usage(&id(2 * n)), None);
        }
        assert_eq!(record.get_usage(&id(2 * count + 1)), None);
    }
}

#[test]
fn search_in_an_empty_record_finds_nothing() {
    assert_eq!(record(1, &[]).get_usage(&id(0)), None);
}

#[test]
fn search_tells_zero_from_absence() {
    let record = record(1, &[(3, 0)]);
    assert_eq!(record.get_usage(&id(3)), Some(0));
    assert_eq!(record.get_usage(&id(4)), None);
}

#[test]
fn search_in_an_unsorted_record_can_miss() {
    let record = record(1, &[(9, 1), (2, 5), (1, 3)]);
    assert_eq!(record.get_usage(&id(9)), None);
    assert_eq!(record.get_usage(&id(2)), None);
    assert_eq!(record.get_usage(&id(1)), None);
}

#[test]
fn search_takes_the_last_of_equal_entries() {
    let record = record(1, &[(1, 10), (1, 20), (1, 30), (2, 40)]);
    assert_eq!(record.get_usage(&id(1)), Some(30));
}

#[test]
fn a_map_is_listed_in_the_order_of_identifiers() {
    let mut usages: BTreeMap<u128, u64> = BTreeMap::new();
    let mut high = [0u8; 16];
    high[0] = 0x80;
    usages.insert(key_of(&high), 3);
    usages.insert(key_of(&id(2)), 2);
    usages.insert(key_of(&id(1)), 1);
    let record = EpochUsage::from_btree_map(5, &usages);
    assert_eq!(record.epoch, 5);
    assert_eq!(record.usages, vec![(id(1), 1), (id(2), 2), (high, 3)]);
    assert_eq!(record.get_usage(&high), Some(3));
    assert!(EpochUsage::from_btree_map(5, &BTreeMap::new()).usages.is_empty());
}

#[test]
fn a_push_puts_the_newest_epoch_in_front() {
    let mut table = EpochUsageTable::new(1, 4);
    table.push_epoch(record(2, &[]));
    table.push_epoch(record(3, &[]));
    assert_eq!(table.recent_epoch, 3);
    assert_eq!(epochs(&table), vec![3, 2]);
}

#[test]
fn a_full_table_drops_the_oldest_epoch() {
    let mut table = EpochUsageTable::new(0, 4);
    for epoch in 1..=6 {
        table.push_epoch(record(epoch, &[]));
    }
    assert_eq!(epochs(&table), vec![6, 5, 4]);
}

#[test]
fn a_table_always_has_room_for_one_epoch() {
    for node_count in [1, 2] {
        let mut table = EpochUsageTable::new(0, node_count);
        table.push_epoch(record(1, &[]));
        table.push_epoch(record(2, &[]));
        assert_eq!(epochs(&table), vec![2]);
    }
}

#[test]
fn usage_is_summed_over_the_epochs() {
    let mut table = EpochUsageTable::new(0, 10);
    assert_eq!(table.get_usage(&id(1)), 0);
    table.push_epoch(record(1, &[(1, 5), (2, 7)]));
    table.push_epoch(record(2, &[(2, 11)]));
    table.push_epoch(record(3, &[(1, 13), (3, 17)]));
    assert_eq!(table.get_usage(&id(1)), 18);
    assert_eq!(table.get_usage(&id(2)), 18);
    assert_eq!(table.get_usage(&id(3)), 17);
    assert_eq!(table.get_usage(&id(4)), 0);
    assert_eq!(table.checked_usage(&id(1)), Some(18));
}

#[test]
fn usage_that_does_not_fit_is_told() {
    let mut table = EpochUsageTable::new(0, 10);
    table.push_epoch(record(1, &[(1, u64::MAX)]));
    assert_eq!(table.checked_usage(&id(1)), Some(u64::MAX));
    table.push_epoch(record(2, &[(1, 1)]));
    assert_eq!(table.checked_usage(&id(1)), None);
    assert_eq!(table.checked_usage(&id(2)), Some(0));
}

#[test]
fn the_oldest_epoch_is_excluded_once_the_table_is_full() {
    let mut table = EpochUsageTable::new(0, 4);
    assert_eq!(table.get_usage_excluding_oldest(&id(1)), 0);
    table.push_epoch(record(1, &[(1, 1)]));
    table.push_epoch(record(2, &[(1, 10)]));
    assert_eq!(table.get_usage_excluding_oldest(&id(1)), 11);
    table.push_epoch(record(3, &[(1, 100)]));
    assert_eq!(table.get_usage(&id(1)), 111);
    assert_eq!(table.get_usage_excluding_oldest(&id(1)), 110);
    table.push_epoch(record(4, &[(1, 1000)]));
    assert_eq!(table.get_usage(&id(1)), 1110);
}

#[test]
fn excluding_the_oldest_is_what_the_next_push_keeps() {
    for node_count in 1..6 {
        let mut table = EpochUsageTable::new(0, node_count);
        for epoch in 1..10u64 {
            let kept = table.get_usage_excluding_oldest(&id(1));
            table.push_epoch(record(epoch, &[(1, epoch * epoch)]));
            assert_eq!(table.get_usage(&id(1)), epoch * epoch + kept);
        }
    }
}
