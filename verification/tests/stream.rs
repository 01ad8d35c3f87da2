use orbit::archive::{archive_size, decode_table, encode_table, is_archivable};
use orbit::stream::{
    decode_request, encode_request, read_reply, respond, OrbitStreamError, Reply, ReplyReader,
    ReplyStage, Wanted,
};
use orbit::usage::{EpochUsage, EpochUsageTable};

struct TestNode {
    current_epoch: u64,
}

impl TestNode {
    fn get_usage_table(&self, epoch: u64) -> Result<EpochUsageTable, OrbitStreamError> {
        if epoch != self.current_epoch {
            return Err(OrbitStreamError::EpochMismatch {
                requested: epoch,
                server: self.current_epoch,
            });
        }
        let mut table = EpochUsageTable::new(self.current_epoch, 10);
        table.push_epoch(EpochUsage::from_vec(
            42,
            vec![(uuid::Uuid::new_v4().to_bytes_le(), 50)],
        ));
        Ok(table)
    }

    fn exchange(&self, epoch: u64) -> Result<EpochUsageTable, OrbitStreamError> {
        let requested = decode_request(&encode_request(epoch));
        let reply = respond(self.get_usage_table(requested)).unwrap();
        match read_reply(epoch, &reply) {
            Reply::Answer(answer) => answer,
            other => panic!("unexpected reply: {:?}", other),
        }
    }
}

#[test]
fn test_client_server_roundtrip() {
    let node = TestNode { current_epoch: 42 };

    let response = node.exchange(42).unwrap();

    assert_eq!(response.tables.len(), 1);
    assert_eq!(response.tables[0].epoch, 42);
    assert_eq!(response.tables[0].usages[0].1, 50);
}

#[test]
fn test_epoch_mismatch() {
    let node = TestNode { current_epoch: 42 };

    let result = node.exchange(99);

    match result {
        Err(OrbitStreamError::EpochMismatch { requested, server }) => {
            assert_eq!(requested, 99);
            assert_eq!(server, 42);
        }
        _ => panic!("Expected EpochMismatch error"),
    }
}

fn same(a: &EpochUsageTable, b: &EpochUsageTable) -> bool {
    a.recent_epoch == b.recent_epoch
        && a.node_count == b.node_count
        && a.tables.len() == b.tables.len()
        && a.tables
            .iter()
            .zip(b.tables.iter())
            .all(|(x, y)| x.epoch == y.epoch && x.usages == y.usages)
}

fn sample(epochs: u64, entries: u64) -> EpochUsageTable {
    let mut table = EpochUsageTable::new(7, epochs as usize + 1);
    for epoch in 0..epochs {
        let mut usages = Vec::new();
        for i in 0..entries * (epoch + 1) {
            let mut id = [0u8; 16];
            id[0..8].copy_from_slice(&epoch.to_be_bytes());
            id[8..16].copy_from_slice(&i.to_be_bytes());
            usages.push((id, i % 1000));
        }
        table.push_epoch(EpochUsage::from_vec(100 + epoch, usages));
    }
    table
}

#[test]
fn an_archive_gives_back_its_table() {
    for (epochs, entries) in [(0, 0), (1, 0), (3, 0), (1, 1), (4, 3), (9, 50)] {
        let table = sample(epochs, entries);
        assert!(is_archivable(&table));
        let bytes = encode_table(table.clone()).unwrap();
        assert!(same(&decode_table(&bytes).unwrap(), &table));
    }
}

#[test]
fn an_archive_has_the_length_of_its_parts() {
    assert_eq!(encode_table(sample(0, 0)).unwrap().len(), 24);
    assert_eq!(encode_table(sample(1, 0)).unwrap().len(), 40);
    assert_eq!(encode_table(sample(1, 1)).unwrap().len(), 64);
    assert_eq!(encode_table(sample(3, 2)).unwrap().len(), 24 * 12 + 16 * 3 + 24);
}

#[test]
fn empty_epochs_between_full_ones_are_archived() {
    let mut table = EpochUsageTable::new(1, 6);
    for (epoch, amount) in [(1, 5), (2, 0), (3, 7), (4, 0), (5, 0)] {
        let usages = if amount == 0 { vec![] } else { vec![([amount as u8; 16], amount)] };
        table.push_epoch(EpochUsage::from_vec(epoch, usages));
    }
    assert!(is_archivable(&table));
    let bytes = encode_table(table.clone()).unwrap();
    assert_eq!(bytes.len(), 24 * 2 + 16 * 5 + 24);
    assert_eq!(archive_size(&table), Some(bytes.len() as u64));
    assert!(same(&decode_table(&bytes).unwrap(), &table));
}

#[test]
fn an_archive_can_be_read_wherever_it_lies() {
    let table = sample(3, 4);
    let bytes = encode_table(table.clone()).unwrap();
    for offset in 0..16 {
        let mut shifted = vec![0u8; offset];
        shifted.extend_from_slice(&bytes);
        assert!(same(&decode_table(&shifted[offset..]).unwrap(), &table));
    }
}

#[test]
fn the_largest_amounts_and_epochs_survive() {
    let mut table = EpochUsageTable::new(u64::MAX, 3);
    table.push_epoch(EpochUsage::from_vec(u64::MAX, vec![([0xffu8; 16], u64::MAX)]));
    let bytes = encode_table(table.clone()).unwrap();
    assert!(same(&decode_table(&bytes).unwrap(), &table));
}

#[test]
fn bytes_that_are_no_archive_are_refused() {
    assert!(decode_table(&[]).is_err());
    assert!(decode_table(&[1, 2, 3]).is_err());
    assert!(decode_table(&[0xffu8; 40]).is_err());
    let mut bytes = encode_table(sample(1, 1)).unwrap();
    bytes.truncate(60);
    assert!(decode_table(&bytes).is_err());
}

#[test]
fn a_request_is_the_epoch_in_eight_bytes() {
    assert_eq!(encode_request(42), vec![0, 0, 0, 0, 0, 0, 0, 42]);
    assert_eq!(encode_request(u64::MAX), vec![0xff; 8]);
    assert_eq!(decode_request(&[0, 0, 0, 0, 0, 0, 1, 0]), 256);
}

#[test]
fn a_table_goes_out_behind_its_length() {
    let table = sample(1, 1);
    let archive = encode_table(table.clone()).unwrap();
    let reply = respond(Ok(table)).unwrap();
    assert_eq!(&reply[0..5], &[0, 0, 0, 0, 64]);
    assert_eq!(&reply[5..], &archive[..]);
}

#[test]
fn a_mismatch_goes_out_with_the_servers_epoch() {
    let answer = Err(OrbitStreamError::EpochMismatch { requested: 99, server: 0x0102 });
    assert_eq!(respond(answer).unwrap(), vec![1, 0, 0, 0, 0, 0, 0, 1, 2]);
}

#[test]
fn a_missing_table_is_not_answered() {
    match respond(Err(OrbitStreamError::TableNotExist(5))) {
        Err(OrbitStreamError::TableNotExist(epoch)) => assert_eq!(epoch, 5),
        _ => panic!("expected the error back"),
    }
}

#[test]
fn other_errors_of_a_node_are_handed_back() {
    let error = decode_table(&[]).unwrap_err();
    let answer = Err(OrbitStreamError::Serialization(error));
    assert!(matches!(respond(answer), Err(OrbitStreamError::Serialization(_))));
}

#[test]
fn a_reply_that_breaks_off_is_truncated() {
    assert!(matches!(read_reply(1, &[]), Reply::Truncated));
    assert!(matches!(read_reply(1, &[1, 0, 0]), Reply::Truncated));
    assert!(matches!(read_reply(1, &[0, 0, 0, 0]), Reply::Truncated));
}

#[test]
fn a_reply_with_more_than_was_announced_is_too_long() {
    assert!(matches!(read_reply(1, &[0, 0, 0, 0, 1, 9, 9]), Reply::TooLong));
}

#[test]
fn a_reply_without_an_archive_is_undecodable() {
    match read_reply(1, &[0, 0, 0, 0, 3, 9, 9, 9]) {
        Reply::Answer(Err(OrbitStreamError::Deserialization(_))) => {}
        other => panic!("unexpected reply: {:?}", other),
    }
}

#[test]
fn any_other_status_announces_a_table() {
    let table = sample(2, 2);
    let mut reply = respond(Ok(table.clone())).unwrap();
    reply[0] = 7;
    match read_reply(1, &reply) {
        Reply::Answer(Ok(read)) => assert!(same(&read, &table)),
        other => panic!("unexpected reply: {:?}", other),
    }
}

#[test]
fn what_follows_a_servers_epoch_is_ignored() {
    match read_reply(8, &[1, 0, 0, 0, 0, 0, 0, 0, 9, 55, 66]) {
        Reply::Answer(Err(OrbitStreamError::EpochMismatch { requested, server })) => {
            assert_eq!((requested, server), (8, 9));
        }
        other => panic!("unexpected reply: {:?}", other),
    }
}

#[test]
fn a_reader_asks_for_one_piece_after_the_other() {
    let table = sample(1, 1);
    let reply = respond(Ok(table.clone())).unwrap();
    let mut reader = ReplyReader::new(3);
    assert_eq!(reader.wanted(), Wanted::Exactly(1));
    assert!(reader.feed(&reply[0..1]).is_none());
    assert_eq!(reader.wanted(), Wanted::Exactly(4));
    assert!(reader.feed(&reply[1..5]).is_none());
    assert_eq!(reader.wanted(), Wanted::ToEnd(64));
    let answer = reader.feed(&reply[5..]).unwrap();
    assert!(same(&answer.unwrap(), &table));
    assert_eq!(reader.stage, ReplyStage::Finished);

    let mut reader = ReplyReader::new(3);
    assert!(reader.feed(&[1]).is_none());
    assert_eq!(reader.wanted(), Wanted::Exactly(8));
}

#[test]
fn a_table_of_many_entries_goes_through() {
    let mut table = EpochUsageTable::new(42, 11);
    for epoch_offset in 0..10u64 {
        let mut usages = Vec::with_capacity(2000);
        for i in 0..2000u64 {
            let mut id = [0u8; 16];
            id[0..8].copy_from_slice(&epoch_offset.to_le_bytes());
            id[8..16].copy_from_slice(&i.to_le_bytes());
            usages.push((id, i % 1000));
        }
        table.push_epoch(EpochUsage::from_vec(42 - epoch_offset, usages));
    }
    let reply = respond(Ok(table.clone())).unwrap();
    assert_eq!(reply.len(), 5 + 24 * 20000 + 16 * 10 + 24);
    match read_reply(42, &reply) {
        Reply::Answer(Ok(read)) => {
            assert_eq!(read.tables.len(), 10);
            assert!(same(&read, &table));
        }
        other => panic!("unexpected reply: {:?}", other),
    }
}
