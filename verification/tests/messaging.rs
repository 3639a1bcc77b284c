use coretex::error::ErrorKind;
use coretex::messaging::{Delivery, InMemoryBroker, InMemoryMessaging, Message};

#[test]
fn test_messaging_broker() {
    let mut broker = InMemoryBroker::new("test-broker");

    let topic = "test-topic";
    let message_data = b"test message".to_vec();

    let _subscription = broker.subscribe(topic).unwrap();
    broker.publish(topic, message_data.clone()).unwrap();
}

#[test]
fn a_message_goes_to_the_subscriptions_of_its_topic() {
    let mut broker = InMemoryBroker::new("demo-broker");
    let first = broker.subscribe("cluster-events").unwrap();
    let other = broker.subscribe("metrics").unwrap();
    let second = broker.subscribe("cluster-events").unwrap();
    assert_eq!((first, other, second), (0, 1, 2));

    let delivery = broker.publish("cluster-events", b"Node joined".to_vec()).unwrap();
    assert_eq!(
        delivery,
        Delivery {
            message: Message {
                topic: "cluster-events".to_string(),
                data: b"Node joined".to_vec(),
                sender: Some("demo-broker".to_string()),
            },
            recipients: vec![0, 2],
        }
    );
    assert_eq!(broker.publish("metrics", Vec::new()).unwrap().recipients, vec![1]);
    assert!(broker.publish("nobody", b"x".to_vec()).unwrap().recipients.is_empty());
}

#[test]
fn subscribed_topics_are_listed_in_order() {
    let mut broker = InMemoryBroker::new("b");
    assert!(broker.subscribed_topics().unwrap().is_empty());
    broker.subscribe("one").unwrap();
    broker.subscribe("two").unwrap();
    broker.subscribe("one").unwrap();
    assert_eq!(
        broker.subscribed_topics().unwrap(),
        vec!["one".to_string(), "two".to_string(), "one".to_string()]
    );
}

#[test]
fn unsubscribing_drops_the_topic_and_keeps_the_subscriptions() {
    let mut broker = InMemoryBroker::new("b");
    broker.subscribe("one").unwrap();
    broker.subscribe("two").unwrap();
    broker.subscribe("one").unwrap();
    broker.unsubscribe("one").unwrap();
    assert_eq!(broker.subscribed_topics().unwrap(), vec!["two".to_string()]);
    assert_eq!(broker.publish("one", Vec::new()).unwrap().recipients, vec![0, 2]);
    broker.unsubscribe("never").unwrap();
    assert_eq!(broker.subscribed_topics().unwrap(), vec!["two".to_string()]);
    let _ = ErrorKind::Communication;
}

#[test]
fn the_plain_broker_makes_no_message_without_listeners() {
    let mut broker = InMemoryMessaging::new();
    assert_eq!(broker.publish("quiet", b"x".to_vec()).unwrap(), None);
    let first = broker.subscribe("loud").unwrap();
    let second = broker.subscribe("loud").unwrap();
    assert_eq!((first, second), (0, 1));
    assert_eq!(
        broker.publish("loud", b"x".to_vec()).unwrap(),
        Some(Delivery {
            message: Message { topic: "loud".to_string(), data: b"x".to_vec(), sender: None },
            recipients: vec![0, 1],
        })
    );
    assert_eq!(broker.publish("quiet", b"x".to_vec()).unwrap(), None);
}
