use coretex::api::LocalClient;
use coretex::storage::{InMemoryEngine, KeyValue, StorageEngine, WriteOperation};

fn kv(key: &str, value: &str) -> KeyValue {
    KeyValue { key: key.as_bytes().to_vec(), value: value.as_bytes().to_vec() }
}

fn filled() -> InMemoryEngine {
    let mut engine = InMemoryEngine::new("scan");
    for (k, v) in [("d", "4"), ("a", "1"), ("c", "3"), ("b", "2"), ("ab", "12"), ("e", "5")] {
        engine.put(k.as_bytes(), v.as_bytes()).unwrap();
    }
    engine
}

#[test]
fn test_storage_engine_basic_operations() {
    let mut engine = InMemoryEngine::new("test");

    let key = b"test_key";
    let value = b"test_value";
    engine.put(key, value).unwrap();

    let result = engine.get(key).unwrap();
    assert!(result.is_some());
    assert_eq!(result.unwrap().as_slice(), value);

    engine.delete(key).unwrap();
    let result = engine.get(key).unwrap();
    assert!(result.is_none());
}

#[test]
fn engine_keeps_its_name() {
    let engine = InMemoryEngine::new("demo-storage");
    assert_eq!(engine.name(), "demo-storage");
}

#[test]
fn put_replaces_the_value() {
    let mut engine = InMemoryEngine::new("test");
    engine.put(b"k", b"one").unwrap();
    engine.put(b"k", b"two").unwrap();
    assert_eq!(engine.get(b"k").unwrap(), Some(b"two".to_vec()));
    assert_eq!(engine.get(b"other").unwrap(), None);
}

#[test]
fn delete_of_an_absent_key_is_accepted() {
    let mut engine = InMemoryEngine::new("test");
    engine.delete(b"nothing").unwrap();
    assert_eq!(engine.get(b"nothing").unwrap(), None);
}

#[test]
fn scan_is_ascending_over_the_half_open_range() {
    let engine = filled();
    let items = engine.scan(b"ab", Some(b"d"), None).unwrap();
    assert_eq!(items, vec![kv("ab", "12"), kv("b", "2"), kv("c", "3")]);
}

#[test]
fn scan_without_end_runs_to_the_last_key() {
    let engine = filled();
    let items = engine.scan(b"c", None, None).unwrap();
    assert_eq!(items, vec![kv("c", "3"), kv("d", "4"), kv("e", "5")]);
}

#[test]
fn scan_from_the_empty_key_sees_everything() {
    let engine = filled();
    let items = engine.scan(b"", None, None).unwrap();
    assert_eq!(
        items,
        vec![kv("a", "1"), kv("ab", "12"), kv("b", "2"), kv("c", "3"), kv("d", "4"), kv("e", "5")]
    );
}

#[test]
fn scan_limit_keeps_the_smallest_keys() {
    let engine = filled();
    let items = engine.scan(b"a", None, Some(2)).unwrap();
    assert_eq!(items, vec![kv("a", "1"), kv("ab", "12")]);
    assert!(engine.scan(b"a", None, Some(0)).unwrap().is_empty());
    assert_eq!(engine.scan(b"a", None, Some(100)).unwrap().len(), 6);
}

#[test]
fn scan_of_an_empty_range_is_empty() {
    let engine = filled();
    assert!(engine.scan(b"c", Some(b"c"), None).unwrap().is_empty());
    assert!(engine.scan(b"x", None, None).unwrap().is_empty());
    assert!(engine.scan(b"d", Some(b"a"), None).unwrap().is_empty());
}

#[test]
fn batch_write_applies_its_steps_in_order() {
    let mut engine = InMemoryEngine::new("batch");
    engine.put(b"old", b"x").unwrap();
    engine
        .batch_write(vec![
            WriteOperation::Put { key: b"batch:1".to_vec(), value: b"value1".to_vec() },
            WriteOperation::Put { key: b"batch:2".to_vec(), value: b"value2".to_vec() },
            WriteOperation::Delete { key: b"old".to_vec() },
            WriteOperation::Put { key: b"batch:1".to_vec(), value: b"again".to_vec() },
            WriteOperation::Delete { key: b"batch:2".to_vec() },
        ])
        .unwrap();
    assert_eq!(engine.get(b"batch:1").unwrap(), Some(b"again".to_vec()));
    assert_eq!(engine.get(b"batch:2").unwrap(), None);
    assert_eq!(engine.get(b"old").unwrap(), None);
}

#[test]
fn local_client_reaches_the_engine() {
    let mut client = LocalClient::new(InMemoryEngine::new("local"));
    client.put(b"user:1", b"Alice").unwrap();
    client.put(b"user:2", b"Bob").unwrap();
    assert_eq!(client.get(b"user:1").unwrap(), Some(b"Alice".to_vec()));
    client.delete(b"user:1").unwrap();
    assert_eq!(client.get(b"user:1").unwrap(), None);
    client
        .batch_put(vec![
            (b"k".to_vec(), b"first".to_vec()),
            (b"j".to_vec(), b"other".to_vec()),
            (b"k".to_vec(), b"second".to_vec()),
        ])
        .unwrap();
    assert_eq!(client.get(b"k").unwrap(), Some(b"second".to_vec()));
    assert_eq!(client.get(b"j").unwrap(), Some(b"other".to_vec()));
    assert_eq!(client.get(b"user:2").unwrap(), Some(b"Bob".to_vec()));
}
