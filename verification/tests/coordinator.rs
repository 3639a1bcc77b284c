use coretex::config::ReplicationConfig;
use coretex::consistency::{
    ConsistencyEvent, ConsistencyManager, ConsistencyResult, InMemoryConsistency, VersionedValue,
};
use coretex::coordinator::ReplicaCoordinator;
use coretex::distribution::DistributionNode;
use coretex::error::ErrorKind;
use coretex::storage::{InMemoryEngine, StorageEngine};

fn config(factor: usize, write_quorum: usize, read_quorum: usize) -> ReplicationConfig {
    ReplicationConfig { factor, read_quorum, write_quorum }
}

type Cluster = ReplicaCoordinator<InMemoryConsistency<InMemoryEngine>>;

fn store(name: &str) -> InMemoryConsistency<InMemoryEngine> {
    InMemoryConsistency::new(InMemoryEngine::new(name))
}

fn cluster(ids: &[&str], cfg: ReplicationConfig) -> Cluster {
    let mut coordinator = ReplicaCoordinator::new(cfg).unwrap();
    for id in ids {
        coordinator.add_replica(DistributionNode { id: id.to_string(), weight: 50 }, store(id));
    }
    coordinator
}

fn vv(key: &str, value: &str, version: u64) -> VersionedValue {
    VersionedValue {
        key: key.as_bytes().to_vec(),
        value: value.as_bytes().to_vec(),
        version,
        context: None,
    }
}

fn held(coordinator: &Cluster, id: &str, key: &[u8]) -> Option<VersionedValue> {
    coordinator.replica(id).unwrap().get(key).unwrap()
}

#[test]
fn quorums_that_do_not_intersect_are_rejected_at_startup() {
    for (factor, w, r) in [(3usize, 1usize, 2usize), (3, 2, 1), (3, 1, 1), (5, 2, 3), (1, 0, 1), (0, 0, 0)] {
        let result = Cluster::new(config(factor, w, r));
        match result {
            Ok(_) => panic!("accepted factor {} write {} read {}", factor, w, r),
            Err(e) => assert_eq!(e.kind(), ErrorKind::Configuration),
        }
        assert_eq!(config(factor, w, r).validate().unwrap_err().kind(), ErrorKind::Configuration);
    }
}

#[test]
fn quorums_that_intersect_are_accepted() {
    for (factor, w, r) in [(3usize, 2usize, 2usize), (3, 3, 1), (3, 1, 3), (1, 1, 1), (5, 3, 3), (2, usize::MAX, usize::MAX)] {
        assert!(Cluster::new(config(factor, w, r)).is_ok());
        assert!(config(factor, w, r).validate().is_ok());
    }
}

#[test]
fn a_write_succeeds_with_two_of_three_and_is_read_from_those_two() {
    let mut coordinator = cluster(&["n1", "n2", "n3"], config(3, 2, 2));
    coordinator.set_reachable("n3", false).unwrap();

    let written = coordinator.coordinated_put(b"k", b"value").unwrap();
    assert_eq!(written, vv("k", "value", 1));
    assert_eq!(held(&coordinator, "n1", b"k"), Some(vv("k", "value", 1)));
    assert_eq!(held(&coordinator, "n2", b"k"), Some(vv("k", "value", 1)));
    assert_eq!(held(&coordinator, "n3", b"k"), None);

    let read = coordinator.coordinated_get(b"k").unwrap();
    assert_eq!(read, Some(vv("k", "value", 1)));
    assert_eq!(held(&coordinator, "n3", b"k"), None);
    assert_eq!(coordinator.replica("n3").unwrap().last_version(b"k").unwrap(), None);
}

#[test]
fn a_write_fails_when_the_quorum_is_missed() {
    let mut coordinator = cluster(&["n1", "n2", "n3"], config(3, 2, 2));
    coordinator.set_reachable("n2", false).unwrap();
    coordinator.set_reachable("n3", false).unwrap();
    let error = coordinator.coordinated_put(b"k", b"value").unwrap_err();
    assert_eq!(error.kind(), ErrorKind::Consistency);
    assert_eq!(held(&coordinator, "n1", b"k"), Some(vv("k", "value", 1)));
    let error = coordinator.coordinated_get(b"k").unwrap_err();
    assert_eq!(error.kind(), ErrorKind::Consistency);
}

#[test]
fn a_cluster_without_nodes_meets_no_quorum() {
    let mut coordinator = cluster(&[], config(3, 2, 2));
    assert_eq!(coordinator.replica_count(), 0);
    assert_eq!(coordinator.coordinated_put(b"k", b"v").unwrap_err().kind(), ErrorKind::Consistency);
    assert_eq!(coordinator.coordinated_get(b"k").unwrap_err().kind(), ErrorKind::Consistency);
}

#[test]
fn a_read_of_an_unwritten_key_finds_nothing() {
    let mut coordinator = cluster(&["n1", "n2", "n3"], config(3, 2, 2));
    assert_eq!(coordinator.coordinated_get(b"never").unwrap(), None);
}

#[test]
fn every_write_gets_a_higher_version() {
    let mut coordinator = cluster(&["n1", "n2", "n3"], config(3, 2, 2));
    for i in 1..=5u64 {
        let value = format!("v{}", i);
        let written = coordinator.coordinated_put(b"k", value.as_bytes()).unwrap();
        assert_eq!(written.version, i);
        assert_eq!(coordinator.coordinated_get(b"k").unwrap(), Some(vv("k", &value, i)));
    }
}

#[test]
fn a_read_after_a_write_sees_the_write_whichever_replica_is_down() {
    for down_at_write in ["n1", "n2", "n3"] {
        for down_at_read in ["n1", "n2", "n3"] {
            let mut coordinator = cluster(&["n1", "n2", "n3"], config(3, 2, 2));
            coordinator.coordinated_put(b"k", b"old").unwrap();
            coordinator.set_reachable(down_at_write, false).unwrap();
            let written = coordinator.coordinated_put(b"k", b"new").unwrap();
            assert_eq!(written, vv("k", "new", 2));
            coordinator.set_reachable(down_at_write, true).unwrap();
            coordinator.set_reachable(down_at_read, false).unwrap();
            let read = coordinator.coordinated_get(b"k").unwrap();
            assert_eq!(read, Some(vv("k", "new", 2)), "write without {}, read without {}", down_at_write, down_at_read);
        }
    }
}

#[test]
fn a_lagging_replica_is_repaired_by_a_read() {
    let mut coordinator = cluster(&["n1", "n2", "n3"], config(3, 2, 3));
    coordinator.coordinated_put(b"k", b"old").unwrap();
    coordinator.set_reachable("n2", false).unwrap();
    coordinator.coordinated_put(b"k", b"new").unwrap();
    assert_eq!(held(&coordinator, "n2", b"k"), Some(vv("k", "old", 1)));
    coordinator.set_reachable("n2", true).unwrap();

    let read = coordinator.coordinated_get(b"k").unwrap();
    assert_eq!(read, Some(vv("k", "new", 2)));
    for id in ["n1", "n2", "n3"] {
        assert_eq!(held(&coordinator, id, b"k"), Some(vv("k", "new", 2)));
    }
    let again = coordinator.coordinated_get(b"k").unwrap();
    assert_eq!(again, Some(vv("k", "new", 2)));
}

#[test]
fn an_unreachable_replica_is_not_written() {
    let mut coordinator = cluster(&["n1", "n2", "n3"], config(3, 2, 2));
    coordinator.set_reachable("n1", false).unwrap();
    coordinator.coordinated_put(b"k", b"v").unwrap();
    assert_eq!(held(&coordinator, "n1", b"k"), None);
    assert_eq!(held(&coordinator, "n2", b"k"), Some(vv("k", "v", 1)));
    assert_eq!(held(&coordinator, "n3", b"k"), Some(vv("k", "v", 1)));
}

#[test]
fn the_replication_factor_bounds_the_replicas_written() {
    let mut coordinator = cluster(&["n1", "n2", "n3", "n4", "n5"], config(2, 2, 1));
    coordinator.coordinated_put(b"k", b"v").unwrap();
    let holders = ["n1", "n2", "n3", "n4", "n5"]
        .iter()
        .filter(|id| held(&coordinator, id, b"k").is_some())
        .count();
    assert_eq!(holders, 2);
    assert_eq!(coordinator.coordinated_get(b"k").unwrap(), Some(vv("k", "v", 1)));
}

#[test]
fn naming_an_unknown_node_is_a_membership_failure() {
    let mut coordinator = cluster(&["n1"], config(1, 1, 1));
    assert_eq!(coordinator.set_reachable("ghost", false).unwrap_err().kind(), ErrorKind::Membership);
    assert_eq!(coordinator.remove_replica("ghost").unwrap_err().kind(), ErrorKind::Membership);
    assert!(coordinator.replica("ghost").is_none());
    assert_eq!(coordinator.replica_count(), 1);
    coordinator.remove_replica("n1").unwrap();
    assert_eq!(coordinator.replica_count(), 0);
    assert!(coordinator.replica("n1").is_none());
}

#[test]
fn adding_a_known_node_replaces_its_store() {
    let mut coordinator = cluster(&["n1", "n2"], config(2, 2, 1));
    coordinator.coordinated_put(b"k", b"v").unwrap();
    coordinator.add_replica(DistributionNode { id: "n1".to_string(), weight: 50 }, store("fresh"));
    assert_eq!(coordinator.replica_count(), 2);
    assert_eq!(held(&coordinator, "n1", b"k"), None);
    assert_eq!(held(&coordinator, "n2", b"k"), Some(vv("k", "v", 1)));
    assert_eq!(coordinator.config(), config(2, 2, 1));
}

#[test]
fn a_replica_with_an_unreadable_record_does_not_count() {
    let mut coordinator = Cluster::new(config(2, 2, 1)).unwrap();
    let mut broken = InMemoryEngine::new("broken");
    broken.put(b"k", b"junk").unwrap();
    coordinator.add_replica(
        DistributionNode { id: "n1".to_string(), weight: 50 },
        InMemoryConsistency::new(broken),
    );
    coordinator.add_replica(DistributionNode { id: "n2".to_string(), weight: 50 }, store("fine"));
    let error = coordinator.coordinated_put(b"k", b"v").unwrap_err();
    assert_eq!(error.kind(), ErrorKind::Consistency);
    assert_eq!(held(&coordinator, "n2", b"k"), Some(vv("k", "v", 1)));
    assert_eq!(coordinator.coordinated_get(b"k").unwrap(), Some(vv("k", "v", 1)));
}

#[test]
fn a_settled_conflict_is_logged_where_it_was_settled() {
    let mut coordinator = cluster(&["n1", "n2", "n3"], config(3, 2, 3));
    coordinator.coordinated_put(b"k", b"old").unwrap();
    coordinator.set_reachable("n2", false).unwrap();
    coordinator.coordinated_put(b"k", b"new").unwrap();
    coordinator.set_reachable("n2", true).unwrap();
    for id in ["n1", "n2", "n3"] {
        coordinator.take_events(id).unwrap();
    }
    assert_eq!(coordinator.coordinated_get(b"k").unwrap(), Some(vv("k", "new", 2)));

    let mut conflicts = 0;
    let mut commits = 0;
    let mut repairs = 0;
    let mut settled_at = "";
    for id in ["n1", "n2", "n3"] {
        for event in coordinator.take_events(id).unwrap() {
            match event {
                ConsistencyEvent::WriteConflict { key, candidates } => {
                    assert_eq!(key, b"k".to_vec());
                    assert_eq!(candidates.len(), 3);
                    settled_at = id;
                    conflicts += 1;
                }
                ConsistencyEvent::WriteCommitted { key, value } => {
                    assert_eq!((key, value), (b"k".to_vec(), b"new".to_vec()));
                    commits += 1;
                }
                ConsistencyEvent::ReadRepair { key, value } => {
                    assert_eq!((key, value), (b"k".to_vec(), b"new".to_vec()));
                    assert_eq!(id, "n2");
                    repairs += 1;
                }
            }
        }
    }
    assert_eq!((conflicts, commits), (1, 1));
    assert_eq!(repairs, if settled_at == "n2" { 0 } else { 1 });
    for id in ["n1", "n2", "n3"] {
        assert_eq!(held(&coordinator, id, b"k"), Some(vv("k", "new", 2)));
    }
    assert_eq!(coordinator.take_events("ghost").unwrap_err().kind(), ErrorKind::Membership);
    let stored = ConsistencyResult::Stored(vv("k", "new", 2));
    assert_eq!(stored, ConsistencyResult::Stored(vv("k", "new", 2)));
}
