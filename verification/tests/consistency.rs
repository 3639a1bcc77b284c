use coretex::bytestring::{bytes_equal, bytes_less, copy_bytes};
use coretex::consistency::{
    pick_winner, ConsistencyEvent, ConsistencyManager, ConsistencyResult,
    DummyConsistencyManager, InMemoryConsistency, VersionedValue,
};
use coretex::error::ErrorKind;
use coretex::record::{decode, encode, ContextEntry, StoredRecord};
use coretex::storage::{InMemoryEngine, StorageEngine};

fn manager() -> InMemoryConsistency<InMemoryEngine> {
    InMemoryConsistency::new(InMemoryEngine::new("replica"))
}

fn vv(key: &str, value: &str, version: u64) -> VersionedValue {
    VersionedValue {
        key: key.as_bytes().to_vec(),
        value: value.as_bytes().to_vec(),
        version,
        context: None,
    }
}

fn context(entries: &[(&str, u64)]) -> Option<Vec<ContextEntry>> {
    Some(
        entries
            .iter()
            .map(|(peer, counter)| ContextEntry { peer: peer.as_bytes().to_vec(), counter: *counter })
            .collect(),
    )
}

fn stored(result: ConsistencyResult) -> VersionedValue {
    match result {
        ConsistencyResult::Stored(value) => value,
        ConsistencyResult::Conflict(candidates) => panic!("conflict: {:?}", candidates),
    }
}

#[test]
fn test_consistency_manager() {
    let consistency = DummyConsistencyManager;

    let key = b"test_key";
    let value = b"test_value";

    consistency.put(key, value).unwrap();
    let result = consistency.get(key).unwrap();
    assert!(result.is_none());

    consistency.delete(key).unwrap();
    consistency.read_repair(key).unwrap();
    assert!(consistency.watch_events().unwrap().is_empty());
}

#[test]
fn byte_order_is_byte_by_byte() {
    assert!(bytes_less(b"A", b"B"));
    assert!(!bytes_less(b"B", b"A"));
    assert!(!bytes_less(b"A", b"A"));
    assert!(bytes_less(b"", b"A"));
    assert!(bytes_less(b"A", b"AA"));
    assert!(bytes_less(b"AB", b"B"));
    assert!(bytes_less(&[0x7f], &[0x80]));
    assert!(bytes_equal(b"same", b"same"));
    assert!(!bytes_equal(b"same", b"sane"));
    assert!(!bytes_equal(b"same", b"sam"));
    assert_eq!(copy_bytes(b"copy"), b"copy".to_vec());
}

#[test]
fn a_plain_record_is_tag_version_value() {
    let record = StoredRecord::Live { version: 1, value: b"v".to_vec(), context: None };
    assert_eq!(encode(&record), vec![0, 1, 0, 0, 0, 0, 0, 0, 0, b'v']);
    let record = StoredRecord::Tombstone { version: 0x0102 };
    assert_eq!(encode(&record), vec![2, 2, 1, 0, 0, 0, 0, 0, 0]);
}

#[test]
fn a_record_with_context_lists_its_entries() {
    let record = StoredRecord::Live {
        version: 3,
        value: b"xy".to_vec(),
        context: context(&[("p", 7)]),
    };
    let mut expected = vec![1u8, 3, 0, 0, 0, 0, 0, 0, 0];
    expected.extend_from_slice(&[1, 0, 0, 0, 0, 0, 0, 0]);
    expected.extend_from_slice(&[1, 0, 0, 0, 0, 0, 0, 0]);
    expected.push(b'p');
    expected.extend_from_slice(&[7, 0, 0, 0, 0, 0, 0, 0]);
    expected.extend_from_slice(b"xy");
    assert_eq!(encode(&record), expected);
    assert_eq!(decode(&expected), Some(record));
}

#[test]
fn records_are_read_back_as_written() {
    let records = vec![
        StoredRecord::Live { version: 0, value: Vec::new(), context: None },
        StoredRecord::Live { version: u64::MAX, value: b"value".to_vec(), context: context(&[]) },
        StoredRecord::Live {
            version: 9,
            value: vec![0, 1, 2, 255],
            context: context(&[("peer-a", 1), ("", 2), ("peer-c", u64::MAX)]),
        },
        StoredRecord::Tombstone { version: 77 },
    ];
    for record in records {
        let bytes = encode(&record);
        assert_eq!(decode(&bytes), Some(record));
    }
}

#[test]
fn bytes_that_are_no_record_are_refused() {
    assert_eq!(decode(&[]), None);
    assert_eq!(decode(&[0, 1, 2, 3]), None);
    assert_eq!(decode(&[9, 0, 0, 0, 0, 0, 0, 0, 0]), None);
    assert_eq!(decode(&[2, 0, 0, 0, 0, 0, 0, 0, 0, 1]), None);
    assert_eq!(decode(&[1, 0, 0, 0, 0, 0, 0, 0, 0]), None);
    let mut short = vec![1u8, 0, 0, 0, 0, 0, 0, 0, 0];
    short.extend_from_slice(&[2, 0, 0, 0, 0, 0, 0, 0]);
    short.extend_from_slice(&[0, 0, 0, 0, 0, 0, 0, 0]);
    short.extend_from_slice(&[5, 0, 0, 0, 0, 0, 0, 0]);
    assert_eq!(decode(&short), None);
    let mut huge = vec![1u8, 0, 0, 0, 0, 0, 0, 0, 0];
    huge.extend_from_slice(&[1, 0, 0, 0, 0, 0, 0, 0]);
    huge.extend_from_slice(&[255; 8]);
    huge.extend_from_slice(&[0; 16]);
    assert_eq!(decode(&huge), None);
}

#[test]
fn put_then_get_returns_the_value() {
    let mut m = manager();
    let first = stored(m.put(b"k", b"one".to_vec(), None, None).unwrap());
    assert_eq!(first, vv("k", "one", 1));
    assert_eq!(m.get(b"k").unwrap(), Some(vv("k", "one", 1)));
    assert_eq!(m.get(b"other").unwrap(), None);
}

#[test]
fn versions_grow_with_every_write() {
    let mut m = manager();
    let mut seen = 0u64;
    for i in 0..10 {
        let value = format!("value-{}", i).into_bytes();
        let written = stored(m.put(b"k", value.clone(), None, None).unwrap());
        assert!(written.version > seen);
        seen = written.version;
        let read = m.get(b"k").unwrap().unwrap();
        assert_eq!(read.value, value);
        assert_eq!(read.version, seen);
    }
    assert_eq!(seen, 10);
    assert_eq!(m.last_version(b"k").unwrap(), Some(10));
    assert_eq!(m.last_version(b"never").unwrap(), None);
}

#[test]
fn versions_are_kept_per_key() {
    let mut m = manager();
    stored(m.put(b"a", b"1".to_vec(), None, None).unwrap());
    stored(m.put(b"a", b"2".to_vec(), None, None).unwrap());
    let other = stored(m.put(b"b", b"1".to_vec(), None, None).unwrap());
    assert_eq!(other.version, 1);
    assert_eq!(m.get(b"a").unwrap().unwrap().version, 2);
}

#[test]
fn a_given_version_is_stored_when_it_is_new() {
    let mut m = manager();
    let written = stored(m.put(b"k", b"v".to_vec(), Some(5), context(&[("n1", 4)])).unwrap());
    assert_eq!(written.version, 5);
    assert_eq!(written.context, context(&[("n1", 4)]));
    assert_eq!(m.get(b"k").unwrap(), Some(written));
    let next = stored(m.put(b"k", b"w".to_vec(), None, None).unwrap());
    assert_eq!(next.version, 6);
}

#[test]
fn a_stale_version_is_a_conflict() {
    let mut m = manager();
    stored(m.put(b"k", b"held".to_vec(), Some(5), None).unwrap());
    m.take_events();
    for wanted in [5u64, 4, 0] {
        let result = m.put(b"k", b"late".to_vec(), Some(wanted), None).unwrap();
        let expected = vec![vv("k", "held", 5), vv("k", "late", wanted)];
        assert_eq!(result, ConsistencyResult::Conflict(expected.clone()));
        assert_eq!(
            m.take_events(),
            vec![ConsistencyEvent::WriteConflict { key: b"k".to_vec(), candidates: expected }]
        );
        assert_eq!(m.get(b"k").unwrap(), Some(vv("k", "held", 5)));
    }
}

#[test]
fn the_last_version_cannot_be_followed() {
    let mut m = manager();
    stored(m.put(b"k", b"v".to_vec(), Some(u64::MAX), None).unwrap());
    let error = m.put(b"k", b"w".to_vec(), None, None).unwrap_err();
    assert_eq!(error.kind(), ErrorKind::Consistency);
    assert_eq!(m.get(b"k").unwrap(), Some(vv("k", "v", u64::MAX)));
    let error = m.delete(b"k").unwrap_err();
    assert_eq!(error.kind(), ErrorKind::Consistency);
}

#[test]
fn delete_leaves_a_tombstone() {
    let mut m = manager();
    stored(m.put(b"k", b"v".to_vec(), None, None).unwrap());
    stored(m.put(b"k", b"w".to_vec(), None, None).unwrap());
    m.delete(b"k").unwrap();
    assert_eq!(m.get(b"k").unwrap(), None);
    assert_eq!(m.last_version(b"k").unwrap(), Some(3));
    m.delete(b"k").unwrap();
    assert_eq!(m.last_version(b"k").unwrap(), Some(3));
    m.delete(b"never").unwrap();
    assert_eq!(m.last_version(b"never").unwrap(), None);
}

#[test]
fn a_tombstone_keeps_older_data_out() {
    let mut m = manager();
    stored(m.put(b"k", b"v".to_vec(), Some(4), None).unwrap());
    m.delete(b"k").unwrap();
    let result = m.put(b"k", b"old".to_vec(), Some(5), None).unwrap();
    assert_eq!(result, ConsistencyResult::Conflict(vec![vv("k", "old", 5)]));
    assert_eq!(m.get(b"k").unwrap(), None);
    m.read_repair(b"k", &vv("k", "old", 5)).unwrap();
    assert_eq!(m.get(b"k").unwrap(), None);
    let again = stored(m.put(b"k", b"new".to_vec(), None, None).unwrap());
    assert_eq!(again.version, 6);
    assert_eq!(m.get(b"k").unwrap(), Some(vv("k", "new", 6)));
}

#[test]
fn writes_are_logged() {
    let mut m = manager();
    stored(m.put(b"k", b"one".to_vec(), None, None).unwrap());
    stored(m.put(b"j", b"two".to_vec(), None, None).unwrap());
    m.delete(b"k").unwrap();
    assert_eq!(
        m.take_events(),
        vec![
            ConsistencyEvent::WriteCommitted { key: b"k".to_vec(), value: b"one".to_vec() },
            ConsistencyEvent::WriteCommitted { key: b"j".to_vec(), value: b"two".to_vec() },
        ]
    );
    assert!(m.take_events().is_empty());
}

#[test]
fn the_highest_version_wins() {
    let candidates = vec![vv("k", "zz", 3), vv("k", "aa", 7), vv("k", "mm", 5)];
    assert_eq!(pick_winner(b"k", &candidates), Some(vv("k", "aa", 7)));
}

#[test]
fn equal_versions_are_settled_by_the_value() {
    let a = vv("k", "A", 5);
    let b = vv("k", "B", 5);
    assert_eq!(pick_winner(b"k", &vec![a.clone(), b.clone()]), Some(b.clone()));
    assert_eq!(pick_winner(b"k", &vec![b.clone(), a.clone()]), Some(b));
}

#[test]
fn equal_values_are_settled_by_the_context() {
    let mut a = vv("k", "same", 5);
    let mut b = vv("k", "same", 5);
    let c = vv("k", "same", 5);
    a.context = context(&[("n1", 1)]);
    b.context = context(&[("n1", 2)]);
    let expected = pick_winner(b"k", &vec![a.clone(), b.clone(), c.clone()]);
    assert_eq!(expected, Some(b.clone()));
    assert_eq!(pick_winner(b"k", &vec![c.clone(), b.clone(), a.clone()]), expected);
    assert_eq!(pick_winner(b"k", &vec![b.clone(), c.clone(), a.clone()]), expected);
    assert_eq!(pick_winner(b"k", &vec![a.clone(), c.clone()]), Some(a));
}

#[test]
fn the_winner_is_named_by_the_key() {
    let candidates = vec![vv("elsewhere", "v", 2)];
    assert_eq!(pick_winner(b"k", &candidates), Some(vv("k", "v", 2)));
    assert_eq!(pick_winner(b"k", &Vec::new()), None);
}

#[test]
fn resolve_conflict_is_commutative() {
    let a = vv("k", "left", 4);
    let b = vv("k", "right", 9);
    let mut one = manager();
    let mut two = manager();
    let ab = one.resolve_conflict(b"k", vec![a.clone(), b.clone()]).unwrap();
    let ba = two.resolve_conflict(b"k", vec![b.clone(), a.clone()]).unwrap();
    assert_eq!(ab, ba);
    assert_eq!(ab, b);
    assert_eq!(one.get(b"k").unwrap(), two.get(b"k").unwrap());
}

#[test]
fn resolve_conflict_is_idempotent() {
    let candidates = vec![vv("k", "x", 1), vv("k", "y", 3), vv("k", "z", 2)];
    let mut m = manager();
    let winner = m.resolve_conflict(b"k", candidates).unwrap();
    let again = m.resolve_conflict(b"k", vec![winner.clone()]).unwrap();
    assert_eq!(again, winner);
    assert_eq!(m.get(b"k").unwrap(), Some(winner));
}

#[test]
fn concurrent_writes_of_one_version_have_one_winner_everywhere() {
    let a = vv("k", "A", 5);
    let b = vv("k", "B", 5);
    let orders = vec![vec![a.clone(), b.clone()], vec![b.clone(), a.clone()]];
    let mut winners = Vec::new();
    for candidates in orders {
        let mut replica = manager();
        let winner = replica.resolve_conflict(b"k", candidates).unwrap();
        assert_eq!(replica.get(b"k").unwrap(), Some(winner.clone()));
        winners.push(winner);
    }
    assert_eq!(winners[0], winners[1]);
    assert_eq!(winners[0], b);
}

#[test]
fn the_winner_is_no_older_than_any_candidate() {
    let candidates = vec![vv("k", "a", 2), vv("k", "b", 8), vv("k", "c", 8), vv("k", "d", 1)];
    let mut m = manager();
    let winner = m.resolve_conflict(b"k", candidates.clone()).unwrap();
    assert!(candidates.iter().all(|c| winner.version >= c.version));
    assert_eq!(winner, vv("k", "c", 8));
}

#[test]
fn resolve_conflict_stores_the_winner_and_logs_both_events() {
    let mut m = manager();
    stored(m.put(b"k", b"local".to_vec(), None, None).unwrap());
    m.take_events();
    let candidates = vec![vv("k", "local", 1), vv("k", "remote", 2)];
    let winner = m.resolve_conflict(b"k", candidates.clone()).unwrap();
    assert_eq!(winner, vv("k", "remote", 2));
    assert_eq!(m.get(b"k").unwrap(), Some(winner));
    assert_eq!(
        m.take_events(),
        vec![
            ConsistencyEvent::WriteConflict { key: b"k".to_vec(), candidates },
            ConsistencyEvent::WriteCommitted { key: b"k".to_vec(), value: b"remote".to_vec() },
        ]
    );
}

#[test]
fn resolving_nothing_is_a_usage_error() {
    let mut m = manager();
    stored(m.put(b"k", b"v".to_vec(), None, None).unwrap());
    m.take_events();
    let error = m.resolve_conflict(b"k", Vec::new()).unwrap_err();
    assert_eq!(error.kind(), ErrorKind::Consistency);
    assert!(!error.message().is_empty());
    assert_eq!(m.get(b"k").unwrap(), Some(vv("k", "v", 1)));
    assert!(m.take_events().is_empty());
}

#[test]
fn read_repair_overwrites_what_differs() {
    let mut m = manager();
    stored(m.put(b"k", b"stale".to_vec(), None, None).unwrap());
    m.take_events();
    let authoritative = vv("k", "fresh", 4);
    m.read_repair(b"k", &authoritative).unwrap();
    assert_eq!(m.get(b"k").unwrap(), Some(authoritative.clone()));
    assert_eq!(
        m.take_events(),
        vec![ConsistencyEvent::ReadRepair { key: b"k".to_vec(), value: b"fresh".to_vec() }]
    );
    m.read_repair(b"k", &authoritative).unwrap();
    assert!(m.take_events().is_empty());
    assert_eq!(m.get(b"k").unwrap(), Some(authoritative));
}

#[test]
fn read_repair_fills_an_empty_store() {
    let mut m = manager();
    let authoritative = vv("k", "fresh", 4);
    m.read_repair(b"k", &authoritative).unwrap();
    assert_eq!(m.get(b"k").unwrap(), Some(authoritative));
    assert_eq!(m.take_events().len(), 1);
}

#[test]
fn a_record_that_cannot_be_read_is_a_storage_failure() {
    let mut engine = InMemoryEngine::new("broken");
    engine.put(b"k", b"junk").unwrap();
    let mut m = InMemoryConsistency::new(engine);
    assert_eq!(m.get(b"k").unwrap_err().kind(), ErrorKind::Storage);
    assert_eq!(m.put(b"k", b"v".to_vec(), None, None).unwrap_err().kind(), ErrorKind::Storage);
    assert_eq!(m.delete(b"k").unwrap_err().kind(), ErrorKind::Storage);
    assert_eq!(m.last_version(b"k").unwrap_err().kind(), ErrorKind::Storage);
    m.read_repair(b"k", &vv("k", "fresh", 2)).unwrap();
    assert_eq!(m.get(b"k").unwrap(), Some(vv("k", "fresh", 2)));
}
