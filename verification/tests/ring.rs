use coretex::distribution::{
    hash64, ConsistentHashRing, DistributionNode, DistributionStrategy,
};
use std::collections::hash_map::DefaultHasher;
use std::hash::Hasher;

fn node(id: &str, weight: u64) -> DistributionNode {
    DistributionNode { id: id.to_string(), weight }
}

fn ring_of(ids: &[&str], weight: u64) -> ConsistentHashRing {
    let mut ring = ConsistentHashRing::new();
    for id in ids {
        ring.add_node(node(id, weight));
    }
    ring
}

fn key(i: usize) -> Vec<u8> {
    format!("key-{}", i).into_bytes()
}

#[test]
fn empty_ring_has_no_primary_and_no_replicas() {
    let ring = ConsistentHashRing::new();
    assert!(ring.get_primary(b"anything").is_none());
    assert!(ring.get_replicas(b"anything", 3).is_empty());
    assert!(ring.all_nodes().is_empty());
    assert!(ring.points().is_empty());
}

#[test]
fn hash64_is_the_default_hasher_digest() {
    let mut hasher = DefaultHasher::new();
    hasher.write(b"important_data");
    assert_eq!(hash64(b"important_data"), hasher.finish());
    assert_eq!(hash64(b"important_data"), hash64(b"important_data"));
    assert_ne!(hash64(b"key1"), hash64(b"key2"));
}

#[test]
fn virtual_points_lie_where_the_formula_puts_them() {
    let ring = ring_of(&["solo"], 3);
    let mut expected: Vec<u64> = Vec::new();
    for replica in 0u64..3 {
        let mut hasher = DefaultHasher::new();
        hasher.write("solo".as_bytes());
        hasher.write(&replica.to_le_bytes());
        expected.push(hasher.finish());
    }
    expected.sort();
    let positions: Vec<u64> = ring.points().iter().map(|p| p.position).collect();
    assert_eq!(positions, expected);
    assert!(ring.points().iter().all(|p| p.owner == 0));
}

#[test]
fn ring_points_are_ordered_and_unique() {
    let ring = ring_of(&["a", "b", "c"], 50);
    let points = ring.points();
    assert_eq!(points.len(), 150);
    for pair in points.windows(2) {
        assert!(pair[0].position < pair[1].position);
    }
    for owner in 0..3usize {
        assert_eq!(points.iter().filter(|p| p.owner == owner).count(), 50);
    }
}

#[test]
fn primary_is_the_owner_of_the_first_point_at_or_after_the_hash() {
    let ring = ring_of(&["a", "b", "c"], 20);
    let points = ring.points();
    let nodes = ring.all_nodes();
    for i in 0..200 {
        let k = key(i);
        let h = hash64(&k);
        let at = points.iter().position(|p| p.position >= h).unwrap_or(0);
        let primary = ring.get_primary(&k).unwrap();
        assert_eq!(primary, nodes[points[at].owner]);
    }
}

#[test]
fn primary_is_stable_across_repeated_calls() {
    let ring = ring_of(&["n1", "n2", "n3"], 100);
    for i in 0..100 {
        let k = key(i);
        let first = ring.get_primary(&k).unwrap();
        for _ in 0..5 {
            assert_eq!(ring.get_primary(&k).unwrap(), first);
        }
    }
}

#[test]
fn placement_depends_on_the_node_list_alone() {
    let direct = ring_of(&["n1", "n2", "n3"], 40);
    let mut detour = ring_of(&["n1", "gone", "n2"], 40);
    detour.remove_node("gone");
    detour.add_node(node("n3", 40));
    for i in 0..200 {
        let k = key(i);
        assert_eq!(direct.get_replicas(&k, 3), detour.get_replicas(&k, 3));
    }
}

#[test]
fn replicas_are_distinct_and_as_many_as_asked_for() {
    let ring = ring_of(&["n1", "n2", "n3", "n4"], 100);
    for i in 0..100 {
        let k = key(i);
        for n in 1..=4usize {
            let replicas = ring.get_replicas(&k, n);
            assert_eq!(replicas.len(), n);
            for a in 0..n {
                for b in (a + 1)..n {
                    assert_ne!(replicas[a].id, replicas[b].id);
                }
            }
            assert_eq!(replicas[0], ring.get_primary(&k).unwrap());
        }
    }
}

#[test]
fn replicas_are_all_nodes_when_more_are_asked_for() {
    let ring = ring_of(&["n1", "n2", "n3"], 100);
    for i in 0..50 {
        let replicas = ring.get_replicas(&key(i), 7);
        assert_eq!(replicas.len(), 3);
        let mut ids: Vec<String> = replicas.into_iter().map(|n| n.id).collect();
        ids.sort();
        assert_eq!(ids, vec!["n1".to_string(), "n2".to_string(), "n3".to_string()]);
    }
}

#[test]
fn zero_replicas_is_an_empty_list() {
    let ring = ring_of(&["n1", "n2"], 100);
    assert!(ring.get_replicas(b"k", 0).is_empty());
    assert!(ring.replica_indices(b"k", 0).is_empty());
}

#[test]
fn replica_indices_name_the_replicas() {
    let ring = ring_of(&["n1", "n2", "n3"], 30);
    let nodes = ring.all_nodes();
    for i in 0..50 {
        let k = key(i);
        let indices = ring.replica_indices(&k, 2);
        let replicas = ring.get_replicas(&k, 2);
        assert_eq!(indices.len(), 2);
        for (index, replica) in indices.iter().zip(replicas.iter()) {
            assert_eq!(&nodes[*index], replica);
        }
    }
}

#[test]
fn a_node_of_weight_zero_holds_no_key() {
    let mut ring = ring_of(&["n1", "n2"], 10);
    ring.add_node(node("idle", 0));
    assert_eq!(ring.all_nodes().len(), 3);
    assert_eq!(ring.points().len(), 20);
    for i in 0..50 {
        let replicas = ring.get_replicas(&key(i), 3);
        assert_eq!(replicas.len(), 2);
        assert!(replicas.iter().all(|n| n.id != "idle"));
    }
}

#[test]
fn removing_a_node_moves_only_its_own_keys() {
    let before = ring_of(&["n1", "n2", "n3", "n4"], 100);
    let mut after = ring_of(&["n1", "n2", "n3", "n4"], 100);
    after.remove_node("n3");
    let samples = 4000usize;
    let mut moved = 0usize;
    for i in 0..samples {
        let k = key(i);
        let old = before.get_primary(&k).unwrap();
        let new = after.get_primary(&k).unwrap();
        if old.id == "n3" {
            moved += 1;
            assert_ne!(new.id, "n3");
        } else {
            assert_eq!(old, new);
        }
    }
    assert!(moved > samples / 10, "moved {} of {}", moved, samples);
    assert!(moved < samples / 2, "moved {} of {}", moved, samples);
}

#[test]
fn adding_a_node_takes_keys_only_for_that_node() {
    let before = ring_of(&["n1", "n2", "n3"], 100);
    let mut after = ring_of(&["n1", "n2", "n3"], 100);
    after.add_node(node("n4", 100));
    let samples = 4000usize;
    let mut moved = 0usize;
    for i in 0..samples {
        let k = key(i);
        let old = before.get_primary(&k).unwrap();
        let new = after.get_primary(&k).unwrap();
        if new.id == "n4" {
            moved += 1;
        } else {
            assert_eq!(old, new);
        }
    }
    assert!(moved > samples / 10, "moved {} of {}", moved, samples);
    assert!(moved < samples / 2, "moved {} of {}", moved, samples);
}

#[test]
fn heavier_nodes_own_more_keys() {
    let mut ring = ConsistentHashRing::new();
    ring.add_node(node("light", 20));
    ring.add_node(node("heavy", 200));
    let mut heavy = 0usize;
    for i in 0..2000 {
        if ring.get_primary(&key(i)).unwrap().id == "heavy" {
            heavy += 1;
        }
    }
    assert!(heavy > 1400, "heavy owns {}", heavy);
}

#[test]
fn adding_a_known_id_replaces_the_node() {
    let mut ring = ring_of(&["n1", "n2"], 10);
    ring.add_node(node("n1", 25));
    let nodes = ring.all_nodes();
    assert_eq!(nodes, vec![node("n2", 10), node("n1", 25)]);
    assert_eq!(ring.points().len(), 35);
    assert_eq!(ring.node_count(), 2);
    assert_eq!(ring.index_of("n1"), Some(1));
    assert_eq!(ring.index_of("n2"), Some(0));
    assert_eq!(ring.index_of("n3"), None);
}

#[test]
fn removing_an_unknown_id_changes_nothing() {
    let mut ring = ring_of(&["n1", "n2"], 10);
    let before = ring.points();
    ring.remove_node("stranger");
    assert_eq!(ring.points(), before);
    assert_eq!(ring.all_nodes(), vec![node("n1", 10), node("n2", 10)]);
}

#[test]
fn removing_the_last_node_empties_the_ring() {
    let mut ring = ring_of(&["only"], 5);
    assert_eq!(ring.get_primary(b"k").unwrap().id, "only");
    ring.remove_node("only");
    assert!(ring.get_primary(b"k").is_none());
    assert!(ring.get_replicas(b"k", 2).is_empty());
}

#[test]
fn placement_goes_by_hash_and_not_by_the_order_of_ids() {
    let ring = ring_of(&["a", "b", "c"], 100);
    let mut owners = std::collections::BTreeSet::new();
    for i in 0..300 {
        owners.insert(ring.get_primary(&key(i)).unwrap().id);
    }
    assert_eq!(owners.len(), 3);
}
