use coretex::distribution::{ConsistentHashRing, DistributionNode, DistributionStrategy};
use coretex::error::ErrorKind;
use coretex::membership::{follow_membership, InMemoryMembership, MembershipEvent, Node, NodeState};

#[test]
fn test_membership_manager() {
    let mut membership = InMemoryMembership::new();

    let addr = "127.0.0.1:8080".to_string();
    let metadata = Vec::new();

    let node_id = membership.register_node(addr.clone(), metadata).unwrap();
    assert!(!node_id.is_empty());

    let node = membership.get_node(&node_id).unwrap();
    assert_eq!(node.address, addr);

    membership.update_node_state(&node_id, NodeState::Active).unwrap();

    let node = membership.get_node(&node_id);
    assert_eq!(node.unwrap().state, NodeState::Active);
}

#[test]
fn a_registered_node_starts_joining_and_is_announced() {
    let mut membership = InMemoryMembership::new();
    let metadata = vec![("role".to_string(), "primary".to_string())];
    let id = membership.register_node("127.0.0.1:8001".to_string(), metadata.clone()).unwrap();
    assert_eq!(id.len(), 36);
    let expected = Node {
        id: id.clone(),
        address: "127.0.0.1:8001".to_string(),
        state: NodeState::Joining,
        metadata,
    };
    assert_eq!(membership.get_nodes(), vec![expected.clone()]);
    assert_eq!(membership.take_events(), vec![MembershipEvent::NodeJoined(expected)]);
    assert!(membership.take_events().is_empty());
}

#[test]
fn registered_ids_differ() {
    let mut membership = InMemoryMembership::new();
    let a = membership.register_node("127.0.0.1:1".to_string(), Vec::new()).unwrap();
    let b = membership.register_node("127.0.0.1:2".to_string(), Vec::new()).unwrap();
    assert_ne!(a, b);
    assert_eq!(membership.get_nodes().len(), 2);
}

#[test]
fn registering_under_a_known_id_replaces_the_member() {
    let mut membership = InMemoryMembership::new();
    membership.register_as("a".to_string(), "10.0.0.1:1".to_string(), Vec::new());
    membership.register_as("b".to_string(), "10.0.0.2:1".to_string(), Vec::new());
    membership.update_node_state("a", NodeState::Active).unwrap();
    membership.register_as("a".to_string(), "10.0.0.9:1".to_string(), Vec::new());
    let nodes = membership.get_nodes();
    assert_eq!(nodes.len(), 2);
    assert_eq!(nodes[0].id, "b");
    assert_eq!(nodes[1].id, "a");
    assert_eq!(nodes[1].address, "10.0.0.9:1");
    assert_eq!(nodes[1].state, NodeState::Joining);
}

#[test]
fn state_changes_are_announced() {
    let mut membership = InMemoryMembership::new();
    membership.register_as("a".to_string(), "10.0.0.1:1".to_string(), Vec::new());
    membership.take_events();
    membership.update_node_state("a", NodeState::Leaving).unwrap();
    membership.update_node_state("a", NodeState::Down).unwrap();
    assert_eq!(membership.get_node("a").unwrap().state, NodeState::Down);
    assert_eq!(
        membership.take_events(),
        vec![
            MembershipEvent::NodeStateChanged { id: "a".to_string(), state: NodeState::Leaving },
            MembershipEvent::NodeStateChanged { id: "a".to_string(), state: NodeState::Down },
        ]
    );
}

#[test]
fn unregistering_removes_the_member_and_announces_it() {
    let mut membership = InMemoryMembership::new();
    membership.register_as("a".to_string(), "10.0.0.1:1".to_string(), Vec::new());
    membership.register_as("b".to_string(), "10.0.0.2:1".to_string(), Vec::new());
    membership.take_events();
    membership.unregister_node("a").unwrap();
    assert!(membership.get_node("a").is_none());
    assert_eq!(membership.get_nodes().len(), 1);
    assert_eq!(membership.take_events(), vec![MembershipEvent::NodeLeft("a".to_string())]);
}

#[test]
fn an_unknown_node_is_a_membership_failure() {
    let mut membership = InMemoryMembership::new();
    membership.register_as("a".to_string(), "10.0.0.1:1".to_string(), Vec::new());
    membership.take_events();
    let error = membership.update_node_state("ghost", NodeState::Active).unwrap_err();
    assert_eq!(error.kind(), ErrorKind::Membership);
    let error = membership.unregister_node("ghost").unwrap_err();
    assert_eq!(error.kind(), ErrorKind::Membership);
    assert!(membership.get_node("ghost").is_none());
    assert!(membership.take_events().is_empty());
    assert_eq!(membership.get_nodes().len(), 1);
}

#[test]
fn the_ring_follows_the_membership() {
    let mut membership = InMemoryMembership::new();
    let mut ring = ConsistentHashRing::new();
    membership.register_as("a".to_string(), "10.0.0.1:1".to_string(), Vec::new());
    membership.register_as("b".to_string(), "10.0.0.2:1".to_string(), Vec::new());
    for event in membership.take_events() {
        follow_membership(&mut ring, &event, 10);
    }
    assert!(ring.all_nodes().is_empty());

    membership.update_node_state("a", NodeState::Active).unwrap();
    membership.update_node_state("b", NodeState::Active).unwrap();
    for event in membership.take_events() {
        follow_membership(&mut ring, &event, 10);
    }
    assert_eq!(
        ring.all_nodes(),
        vec![
            DistributionNode { id: "a".to_string(), weight: 10 },
            DistributionNode { id: "b".to_string(), weight: 10 },
        ]
    );

    membership.update_node_state("a", NodeState::Down).unwrap();
    membership.unregister_node("b").unwrap();
    for event in membership.take_events() {
        follow_membership(&mut ring, &event, 10);
    }
    assert!(ring.all_nodes().is_empty());
    assert!(ring.get_primary(b"k").is_none());
}
