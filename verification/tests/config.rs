use coretex::config::{
    poll_outcome, Config, ConfigChange, ConsistencyConfig, ConsistencyMode, EngineKind,
    FileConfigProvider, InMemoryConfigProvider, NodeConfig, ReplicationConfig, StorageConfig,
};
use coretex::consistency::ConsistencyManager;
use coretex::error::ErrorKind;
use coretex::storage::StorageEngine;
use coretex::utils::{bytes_to_string, current_timestamp, generate_id};
use coretex::Coretex;

fn sample(engine: &str, factor: usize, write_quorum: usize, read_quorum: usize) -> Config {
    Config {
        node: NodeConfig {
            bind_address: "127.0.0.1:7000".to_string(),
            data_dir: "./data".to_string(),
            seed_nodes: vec!["127.0.0.1:7001".to_string()],
        },
        storage: StorageConfig {
            engine: engine.to_string(),
            rocksdb_options: None,
            sled_options: None,
        },
        replication: ReplicationConfig { factor, read_quorum, write_quorum },
        consistency: ConsistencyConfig { mode: ConsistencyMode::Eventual, vector_clock_enabled: false },
    }
}

#[test]
fn the_quorum_rule_is_write_plus_read_above_factor() {
    assert!(ReplicationConfig { factor: 3, read_quorum: 2, write_quorum: 2 }.validate().is_ok());
    assert!(ReplicationConfig { factor: 3, read_quorum: 1, write_quorum: 3 }.validate().is_ok());
    assert!(ReplicationConfig { factor: 4, read_quorum: 2, write_quorum: 2 }.validate().is_err());
    assert!(ReplicationConfig { factor: usize::MAX, read_quorum: usize::MAX, write_quorum: 1 }
        .validate()
        .is_ok());
    assert!(ReplicationConfig { factor: usize::MAX, read_quorum: usize::MAX, write_quorum: 0 }
        .validate()
        .is_err());
}

#[test]
fn only_the_memory_engine_is_known() {
    assert_eq!(sample("memory", 3, 2, 2).storage.engine_kind().unwrap(), EngineKind::Memory);
    for name in ["rocksdb", "sled", "Memory", "", "memory "] {
        assert_eq!(sample(name, 3, 2, 2).storage.engine_kind().unwrap_err().kind(), ErrorKind::Storage);
    }
}

#[test]
fn a_node_is_assembled_from_a_valid_configuration() {
    let node = Coretex::assemble(sample("memory", 3, 2, 2)).unwrap();
    assert_eq!(node.config.replication, ReplicationConfig { factor: 3, read_quorum: 2, write_quorum: 2 });
    assert_eq!(node.storage.name(), "memory");
    assert!(node.storage.get(b"k").unwrap().is_none());
    assert!(node.membership.get_nodes().is_empty());
    assert!(node.messaging.subscribed_topics().unwrap().is_empty());
    assert!(node.consistency.get(b"k").unwrap().is_none());
}

#[test]
fn an_invalid_configuration_is_fatal_at_startup() {
    match Coretex::assemble(sample("memory", 3, 1, 2)) {
        Ok(_) => panic!("accepted"),
        Err(e) => assert_eq!(e.kind(), ErrorKind::Configuration),
    }
    match Coretex::assemble(sample("rocksdb", 3, 1, 2)) {
        Ok(_) => panic!("accepted"),
        Err(e) => assert_eq!(e.kind(), ErrorKind::Configuration),
    }
    match Coretex::assemble(sample("rocksdb", 3, 2, 2)) {
        Ok(_) => panic!("accepted"),
        Err(e) => assert_eq!(e.kind(), ErrorKind::Storage),
    }
}

#[test]
fn a_file_provider_notices_new_content() {
    let mut provider = FileConfigProvider::new("./config.toml");
    assert_eq!(provider.path(), "./config.toml");
    assert!(!provider.observe(None));
    assert!(provider.observe(Some("a = 1".to_string())));
    assert!(!provider.observe(Some("a = 1".to_string())));
    assert!(!provider.observe(None));
    assert!(!provider.observe(Some("a = 1".to_string())));
    assert!(provider.observe(Some("a = 2".to_string())));
    assert!(provider.observe(Some("a = 1".to_string())));
}

#[test]
fn a_poll_yields_the_configuration_only_when_it_is_new_and_parses() {
    match poll_outcome(true, Some(sample("memory", 3, 2, 2))) {
        Ok(ConfigChange::Full(config)) => assert_eq!(config.storage.engine, "memory"),
        other => panic!("unexpected {:?}", other),
    }
    assert_eq!(poll_outcome(true, None).unwrap_err().kind(), ErrorKind::Configuration);
    assert_eq!(
        poll_outcome(false, Some(sample("memory", 3, 2, 2))).unwrap_err().kind(),
        ErrorKind::Configuration
    );
    assert_eq!(poll_outcome(false, None).unwrap_err().kind(), ErrorKind::Configuration);
}

#[test]
fn a_memory_provider_holds_what_it_is_given() {
    let mut provider = InMemoryConfigProvider::new(sample("memory", 3, 2, 2));
    assert_eq!(provider.get_config().replication.factor, 3);
    provider.set_config(sample("memory", 5, 3, 3));
    assert_eq!(provider.get_config().replication.factor, 5);
    assert_eq!(provider.get_config().node.bind_address, "127.0.0.1:7000");
}

#[test]
fn generated_ids_are_hyphenated_and_differ() {
    let a = generate_id();
    let b = generate_id();
    assert_eq!(a.len(), 36);
    assert_eq!(a.matches('-').count(), 4);
    assert!(a.chars().all(|c| c == '-' || c.is_ascii_hexdigit()));
    assert_ne!(a, b);
}

#[test]
fn the_clock_is_past_the_epoch() {
    let now = current_timestamp();
    assert!(now > 1_600_000_000);
    assert!(current_timestamp() >= now);
}

#[test]
fn bytes_are_read_as_text() {
    assert_eq!(bytes_to_string(b"Alice"), "Alice");
    assert_eq!(bytes_to_string("héllo ✓".as_bytes()), "héllo ✓");
    assert_eq!(bytes_to_string(b""), "");
    assert_eq!(bytes_to_string(&[b'a', 0xff, b'b']), "a\u{fffd}b");
}
