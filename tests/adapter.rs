use msg_store_plugin_leveldb::id::{DecodeError, Id, ParseError, KEY_LEN};
use msg_store_plugin_leveldb::record::{
    metadata_record, payload_record, read_metadata_record, read_payload_record, RecordError,
};
use msg_store_plugin_leveldb::store::{plan_add, read_metadata, read_payload, StoreError};
use std::collections::BTreeMap;

/// Two ordered tables held in memory, driven through the library the way the
/// on-disk adapter drives its engine.
struct MemTables {
    metadata: BTreeMap<Vec<u8>, Vec<u8>>,
    payloads: BTreeMap<Vec<u8>, Vec<u8>>,
}

impl MemTables {
    fn new() -> MemTables {
        MemTables { metadata: BTreeMap::new(), payloads: BTreeMap::new() }
    }

    fn add(&mut self, id: Id, payload: &[u8], size: u32) -> Result<(), StoreError> {
        let plan = plan_add(&id, &payload.to_vec(), size)?;
        self.metadata.insert(plan.key.clone(), plan.metadata);
        self.payloads.insert(plan.key, plan.payload);
        Ok(())
    }

    fn get(&self, id: Id) -> Result<Vec<u8>, StoreError> {
        read_payload(self.payloads.get(&id.encode()).cloned())
    }

    fn delete(&mut self, id: Id) -> Result<(), StoreError> {
        let key = id.encode();
        self.payloads.remove(&key);
        self.metadata.remove(&key);
        Ok(())
    }

    fn fetch(&self) -> Result<Vec<(Id, u32)>, StoreError> {
        let entries: Vec<(Vec<u8>, Vec<u8>)> =
            self.metadata.iter().map(|(k, v)| (k.clone(), v.clone())).collect();
        read_metadata(&entries)
    }
}

fn id(priority: u32, timestamp: u128, sequence: u32) -> Id {
    Id { priority, timestamp, sequence }
}

#[test]
fn it_works() {
    assert_eq!(2 + 2, 4);
}

#[test]
fn encode_is_big_endian() {
    let key = id(1, 2, 3).encode();
    let mut expected = vec![0, 0, 0, 1];
    expected.extend(vec![0u8; 15]);
    expected.push(2);
    expected.extend(vec![0, 0, 0, 3]);
    assert_eq!(key.len(), KEY_LEN);
    assert_eq!(key, expected);
}

#[test]
fn decode_round_trip() {
    for x in [id(0, 0, 0), id(1, 1, 1), id(u32::MAX, u128::MAX, u32::MAX), id(7, 1 << 100, 42)] {
        assert_eq!(Id::decode(&x.encode()), Ok(x));
    }
}

#[test]
fn decode_rejects_wrong_length() {
    assert_eq!(Id::decode(&[0u8; 23]), Err(DecodeError::WrongLength));
    assert_eq!(Id::decode(&[0u8; 25]), Err(DecodeError::WrongLength));
    assert_eq!(Id::decode(&[]), Err(DecodeError::WrongLength));
}

#[test]
fn key_order_matches_identity_order() {
    let ids = [
        id(0, 0, 0),
        id(0, 0, 1),
        id(0, 1, 0),
        id(0, 256, 0),
        id(0, u128::MAX, u32::MAX),
        id(1, 0, 0),
        id(2, 3, 4),
        id(256, 0, 0),
        id(u32::MAX, 0, 0),
    ];
    for a in ids.iter() {
        for b in ids.iter() {
            assert_eq!(a < b, a.encode() < b.encode());
        }
    }
}

#[test]
fn display_form() {
    assert_eq!(id(1, 2, 3).to_string(), "1-2-3");
    assert_eq!(id(0, 0, 0).to_string(), "0-0-0");
    assert_eq!(
        id(u32::MAX, u128::MAX, 10).to_string(),
        "4294967295-340282366920938463463374607431768211455-10"
    );
}

#[test]
fn metadata_record_layout() {
    assert_eq!(metadata_record(13), Ok(vec![13, 0, 0, 0]));
    assert_eq!(metadata_record(0x01020304), Ok(vec![4, 3, 2, 1]));
    assert_eq!(read_metadata_record(&[13, 0, 0, 0]), Ok(13));
    assert_eq!(read_metadata_record(&[1, 2, 3]), Err(RecordError::Decode));
}

#[test]
fn payload_record_layout() {
    assert_eq!(payload_record(&b"hi".to_vec()), Ok(vec![2, 0, 0, 0, 0, 0, 0, 0, b'h', b'i']));
    assert_eq!(read_payload_record(&[2, 0, 0, 0, 0, 0, 0, 0, b'h', b'i']), Ok(b"hi".to_vec()));
    assert_eq!(read_payload_record(&[3, 0, 0, 0, 0, 0, 0, 0, b'h', b'i']), Err(RecordError::Decode));
    assert_eq!(read_payload_record(&[1, 0]), Err(RecordError::Decode));
}

#[test]
fn read_payload_outcomes() {
    assert_eq!(read_payload(None), Err(StoreError::NotFound));
    assert_eq!(read_payload(Some(vec![9, 9])), Err(StoreError::DecodeFailure));
    assert_eq!(read_payload(Some(vec![1, 0, 0, 0, 0, 0, 0, 0, 7])), Ok(vec![7]));
}

#[test]
fn add_then_get_and_fetch() {
    let mut t = MemTables::new();
    let x = id(1, 1, 1);
    t.add(x, b"hello, world!", 13).unwrap();
    assert_eq!(t.get(x), Ok(b"hello, world!".to_vec()));
    assert_eq!(t.fetch(), Ok(vec![(id(1, 1, 1), 13)]));
}

#[test]
fn fetch_orders_by_timestamp() {
    let mut t = MemTables::new();
    for ts in [5u128, 3, 9] {
        t.add(id(1, ts, 0), b"m", 1).unwrap();
    }
    let got: Vec<u128> = t.fetch().unwrap().iter().map(|(i, _)| i.timestamp).collect();
    assert_eq!(got, vec![3, 5, 9]);
}

#[test]
fn fetch_orders_by_priority_then_sequence() {
    let mut t = MemTables::new();
    t.add(id(2, 0, 0), b"a", 1).unwrap();
    t.add(id(1, 9, 2), b"b", 2).unwrap();
    t.add(id(1, 9, 1), b"c", 3).unwrap();
    t.add(id(1, 300, 0), b"d", 4).unwrap();
    assert_eq!(
        t.fetch(),
        Ok(vec![(id(1, 9, 1), 3), (id(1, 9, 2), 2), (id(1, 300, 0), 4), (id(2, 0, 0), 1)])
    );
}

#[test]
fn delete_then_get_is_not_found() {
    let mut t = MemTables::new();
    let x = id(3, 4, 5);
    t.add(x, b"payload", 7).unwrap();
    t.delete(x).unwrap();
    assert_eq!(t.get(x), Err(StoreError::NotFound));
    assert_eq!(t.fetch(), Ok(vec![]));
}

#[test]
fn delete_absent_is_a_no_op() {
    let mut t = MemTables::new();
    t.add(id(1, 1, 1), b"keep", 4).unwrap();
    assert_eq!(t.delete(id(9, 9, 9)), Ok(()));
    assert_eq!(t.get(id(1, 1, 1)), Ok(b"keep".to_vec()));
    assert_eq!(t.fetch(), Ok(vec![(id(1, 1, 1), 4)]));
}

#[test]
fn get_absent_is_not_found() {
    let t = MemTables::new();
    assert_eq!(t.get(id(1, 2, 3)), Err(StoreError::NotFound));
}

#[test]
fn add_overwrites_existing() {
    let mut t = MemTables::new();
    t.add(id(1, 1, 1), b"old", 3).unwrap();
    t.add(id(1, 1, 1), b"newer", 5).unwrap();
    assert_eq!(t.get(id(1, 1, 1)), Ok(b"newer".to_vec()));
    assert_eq!(t.fetch(), Ok(vec![(id(1, 1, 1), 5)]));
}

#[test]
fn empty_payload_round_trips() {
    let mut t = MemTables::new();
    t.add(id(0, 0, 0), b"", 0).unwrap();
    assert_eq!(t.get(id(0, 0, 0)), Ok(vec![]));
}

#[test]
fn undersized_metadata_fails_fetch() {
    let mut t = MemTables::new();
    t.add(id(1, 1, 1), b"ok", 2).unwrap();
    t.metadata.insert(id(1, 1, 2).encode(), vec![1, 2]);
    assert_eq!(t.fetch(), Err(StoreError::DecodeFailure));
}

#[test]
fn malformed_key_fails_fetch() {
    let mut t = MemTables::new();
    t.add(id(1, 1, 1), b"ok", 2).unwrap();
    t.metadata.insert(vec![0, 1, 2], vec![1, 0, 0, 0]);
    assert_eq!(t.fetch(), Err(StoreError::DecodeFailure));
}

#[test]
fn corrupt_payload_fails_get() {
    let mut t = MemTables::new();
    t.payloads.insert(id(1, 1, 1).encode(), vec![0xff; 4]);
    assert_eq!(t.get(id(1, 1, 1)), Err(StoreError::DecodeFailure));
}

#[test]
fn parse_display_form() {
    assert_eq!(Id::from_string("1-2-3"), Ok(id(1, 2, 3)));
    assert_eq!(Id::from_string("007-0-10"), Ok(id(7, 0, 10)));
    assert_eq!(
        Id::from_string("4294967295-340282366920938463463374607431768211455-4294967295"),
        Ok(id(u32::MAX, u128::MAX, u32::MAX))
    );
}

#[test]
fn parse_rejects_wrong_field_count() {
    assert_eq!(Id::from_string("1-2"), Err(ParseError::WrongFieldCount));
    assert_eq!(Id::from_string("1-2-3-4"), Err(ParseError::WrongFieldCount));
    assert_eq!(Id::from_string(""), Err(ParseError::WrongFieldCount));
}

#[test]
fn parse_rejects_bad_fields() {
    assert_eq!(Id::from_string("a-2-3"), Err(ParseError::InvalidPriority));
    assert_eq!(Id::from_string("4294967296-2-3"), Err(ParseError::InvalidPriority));
    assert_eq!(Id::from_string("+1-2-3"), Err(ParseError::InvalidPriority));
    assert_eq!(Id::from_string("1--3"), Err(ParseError::InvalidTimestamp));
    assert_eq!(
        Id::from_string("1-340282366920938463463374607431768211456-3"),
        Err(ParseError::InvalidTimestamp)
    );
    assert_eq!(Id::from_string("1-2-4294967296"), Err(ParseError::InvalidSequence));
    assert_eq!(Id::from_string("1-2-x"), Err(ParseError::InvalidSequence));
}

#[test]
fn display_form_parses_back() {
    for x in [id(0, 0, 0), id(12, 345678901234567890, 7), id(u32::MAX, u128::MAX, u32::MAX)] {
        assert_eq!(Id::from_string(&x.to_string()), Ok(x));
    }
}
