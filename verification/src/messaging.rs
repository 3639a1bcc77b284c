//! Publish and subscribe: who is subscribed to what, and to whom a message
//! goes. The broker decides; carrying a message to a subscriber is left to
//! whoever holds the subscriber's channel.

use crate::error::{Error, ErrorKind};
use vstd::prelude::*;

verus! {

/// A message on a topic.
#[derive(Debug, PartialEq, Eq)]
pub struct Message {
    pub topic: String,
    pub data: Vec<u8>,
    pub sender: Option<String>,
}

/// The mathematical content of a [`Message`].
pub ghost struct MessageView {
    pub topic: Seq<char>,
    pub data: Seq<u8>,
    pub sender: Option<Seq<char>>,
}

impl View for Message {
    type V = MessageView;

    open spec fn view(&self) -> MessageView {
        MessageView {
            topic: self.topic@,
            data: self.data@,
            sender: match self.sender {
                Some(id) => Some(id@),
                None => None,
            },
        }
    }
}

/// What happened at a broker.
#[derive(Debug, PartialEq, Eq)]
pub enum MessagingEvent {
    MessageReceived(Message),
    Subscribed(String),
    Unsubscribed(String),
}

/// A message and the subscriptions it has to be carried to.
#[derive(Debug, PartialEq, Eq)]
pub struct Delivery {
    pub message: Message,
    pub recipients: Vec<u64>,
}

/// One subscription: its number and the topic it listens to.
#[derive(Debug, PartialEq, Eq)]
pub struct Subscription {
    pub handle: u64,
    pub topic: String,
}

/// The mathematical content of a [`Subscription`].
pub ghost struct SubscriptionView {
    pub handle: u64,
    pub topic: Seq<char>,
}

impl View for Subscription {
    type V = SubscriptionView;

    open spec fn view(&self) -> SubscriptionView {
        SubscriptionView { handle: self.handle, topic: self.topic@ }
    }
}

/// The views of a list of subscriptions, in order.
pub open spec fn subscriptions_view(list: Seq<Subscription>) -> Seq<SubscriptionView> {
    list.map_values(|s: Subscription| s@)
}

/// The views of a list of topics, in order.
pub open spec fn topics_view(list: Seq<String>) -> Seq<Seq<char>> {
    list.map_values(|t: String| t@)
}

/// The numbers of the subscriptions to `topic`, oldest first.
pub open spec fn listeners(subscriptions: Seq<SubscriptionView>, topic: Seq<char>) -> Seq<u64>
    decreases subscriptions.len(),
{
    if subscriptions.len() == 0 {
        Seq::empty()
    } else {
        let before = listeners(subscriptions.drop_last(), topic);
        if subscriptions.last().topic == topic {
            before.push(subscriptions.last().handle)
        } else {
            before
        }
    }
}

/// The topics without `topic`, order kept.
pub open spec fn topics_without(topics: Seq<Seq<char>>, topic: Seq<char>) -> Seq<Seq<char>>
    decreases topics.len(),
{
    if topics.len() == 0 {
        topics
    } else {
        let before = topics_without(topics.drop_last(), topic);
        if topics.last() == topic {
            before
        } else {
            before.push(topics.last())
        }
    }
}

/// The state of a broker.
pub ghost struct BrokerView {
    /// The broker's own id, which it signs messages with.
    pub id: Seq<char>,
    /// Every subscription ever made, oldest first.
    pub subscriptions: Seq<SubscriptionView>,
    /// The topics that the broker counts as subscribed.
    pub subscribed: Seq<Seq<char>>,
    /// The number that the next subscription gets.
    pub next_handle: u64,
}

/// A broker that lives in memory.
pub struct InMemoryBroker {
    id: String,
    subscriptions: Vec<Subscription>,
    subscribed: Vec<String>,
    next_handle: u64,
}

impl View for InMemoryBroker {
    type V = BrokerView;

    closed spec fn view(&self) -> BrokerView {
        BrokerView {
            id: self.id@,
            subscriptions: subscriptions_view(self.subscriptions@),
            subscribed: topics_view(self.subscribed@),
            next_handle: self.next_handle,
        }
    }
}

impl InMemoryBroker {
    /// Every subscription has a number below the next one to be given.
    pub open spec fn wf(&self) -> bool {
        forall|i: int|
            0 <= i < self@.subscriptions.len() ==> (#[trigger] self@.subscriptions[i]).handle
                < self@.next_handle
    }

    /// A broker called `id` without subscriptions.
    pub fn new(id: &str) -> (broker: Self)
        ensures
            broker.wf(),
            broker@ == (BrokerView {
                id: id@,
                subscriptions: Seq::empty(),
                subscribed: Seq::empty(),
                next_handle: 0,
            }),
    {
        let broker = InMemoryBroker {
            id: id.to_owned(),
            subscriptions: Vec::new(),
            subscribed: Vec::new(),
            next_handle: 0,
        };
        assert(broker@.subscriptions =~= Seq::<SubscriptionView>::empty());
        assert(broker@.subscribed =~= Seq::<Seq<char>>::empty());
        broker
    }

    /// Publishes `data` on `topic`: gives the message, signed by this
    /// broker, and the subscriptions to the topic, oldest first.
    pub fn publish(&self, topic: &str, data: Vec<u8>) -> (result: Result<Delivery, Error>)
        ensures
            result matches Ok(delivery) && delivery.message@ == (MessageView {
                topic: topic@,
                data: data@,
                sender: Some(self@.id),
            }) && delivery.recipients@ == listeners(self@.subscriptions, topic@),
    {
        let wanted: String = topic.to_owned();
        let ghost all = self@.subscriptions;
        let mut recipients: Vec<u64> = Vec::new();
        let mut i: usize = 0;
        assert(all.take(0) =~= Seq::<SubscriptionView>::empty());
        while i < self.subscriptions.len()
            invariant
                0 <= i <= self.subscriptions.len(),
                wanted@ == topic@,
                all == self@.subscriptions,
                recipients@ == listeners(all.take(i as int), topic@),
            decreases self.subscriptions.len() - i,
        {
            assert(all.take(i as int + 1).drop_last() =~= all.take(i as int));
            assert(all.take(i as int + 1).last() == self.subscriptions@[i as int]@);
            if self.subscriptions[i].topic == wanted {
                recipients.push(self.subscriptions[i].handle);
            }
            i = i + 1;
        }
        assert(all.take(self.subscriptions.len() as int) =~= all);
        Ok(
            Delivery {
                message: Message { topic: wanted, data, sender: Some(self.id.clone()) },
                recipients,
            },
        )
    }

    /// Subscribes to `topic` and gives the number of the new subscription.
    /// Fails where the numbers have run out.
    pub fn subscribe(&mut self, topic: &str) -> (result: Result<u64, Error>)
        requires
            old(self).wf(),
        ensures
            final(self).wf(),
            result is Ok <==> old(self)@.next_handle < u64::MAX,
            result matches Err(e) ==> e.kind() == ErrorKind::Communication && final(self)@ == old(
                self,
            )@,
            result matches Ok(handle) ==> handle == old(self)@.next_handle && final(self)@ == (
            BrokerView {
                id: old(self)@.id,
                subscriptions: old(self)@.subscriptions.push(
                    SubscriptionView { handle, topic: topic@ },
                ),
                subscribed: old(self)@.subscribed.push(topic@),
                next_handle: (handle + 1) as u64,
            }),
    {
        if self.next_handle == u64::MAX {
            return Err(Error::Communication("no subscription number left".to_owned()));
        }
        let handle = self.next_handle;
        let ghost subscriptions = self@.subscriptions;
        let ghost subscribed = self@.subscribed;
        let entry = Subscription { handle, topic: topic.to_owned() };
        self.subscriptions.push(entry);
        self.subscribed.push(topic.to_owned());
        self.next_handle = handle + 1;
        assert(self@.subscriptions =~= subscriptions.push(
            SubscriptionView { handle, topic: topic@ },
        ));
        assert(self@.subscribed =~= subscribed.push(topic@));
        Ok(handle)
    }

    /// Stops counting `topic` as subscribed. The subscriptions themselves
    /// stay: messages on the topic still go to them.
    pub fn unsubscribe(&mut self, topic: &str) -> (result: Result<(), Error>)
        requires
            old(self).wf(),
        ensures
            final(self).wf(),
            result is Ok,
            final(self)@ == (BrokerView {
                subscribed: topics_without(old(self)@.subscribed, topic@),
                ..old(self)@
            }),
    {
        let wanted: String = topic.to_owned();
        let ghost all = self@.subscribed;
        let mut kept: Vec<String> = Vec::new();
        let mut i: usize = 0;
        assert(all.take(0) =~= Seq::<Seq<char>>::empty());
        assert(topics_view(kept@) =~= topics_without(all.take(0), topic@));
        while i < self.subscribed.len()
            invariant
                0 <= i <= self.subscribed.len(),
                wanted@ == topic@,
                all == topics_view(self.subscribed@),
                topics_view(kept@) == topics_without(all.take(i as int), topic@),
            decreases self.subscribed.len() - i,
        {
            assert(all.take(i as int + 1).drop_last() =~= all.take(i as int));
            assert(all.take(i as int + 1).last() == self.subscribed@[i as int]@);
            let ghost before = topics_view(kept@);
            let goes = self.subscribed[i] == wanted;
            if !goes {
                let copy = self.subscribed[i].clone();
                kept.push(copy);
                assert(topics_view(kept@) =~= before.push(copy@));
            }
            i = i + 1;
        }
        assert(all.take(self.subscribed.len() as int) =~= all);
        self.subscribed = kept;
        Ok(())
    }

    /// The topics that the broker counts as subscribed, oldest first.
    pub fn subscribed_topics(&self) -> (result: Result<Vec<String>, Error>)
        ensures
            result matches Ok(topics) && topics_view(topics@) == self@.subscribed,
    {
        let ghost all = self@.subscribed;
        let mut topics: Vec<String> = Vec::new();
        let mut i: usize = 0;
        assert(topics_view(topics@) =~= all.take(0));
        while i < self.subscribed.len()
            invariant
                0 <= i <= self.subscribed.len(),
                all == topics_view(self.subscribed@),
                topics_view(topics@) == all.take(i as int),
            decreases self.subscribed.len() - i,
        {
            let ghost before = topics_view(topics@);
            let copy = self.subscribed[i].clone();
            topics.push(copy);
            assert(topics_view(topics@) =~= before.push(copy@));
            assert(all.take(i as int + 1) =~= all.take(i as int).push(all[i as int]));
            i = i + 1;
        }
        assert(all.take(self.subscribed.len() as int) =~= all);
        Ok(topics)
    }
}

/// A broker that only knows who listens to what. It signs nothing, and a
/// message on a topic without listeners is not even made.
pub struct InMemoryMessaging {
    subscriptions: Vec<Subscription>,
    next_handle: u64,
}

impl InMemoryMessaging {
    /// Every subscription made, oldest first.
    pub closed spec fn subscriptions(&self) -> Seq<SubscriptionView> {
        subscriptions_view(self.subscriptions@)
    }

    /// The number that the next subscription gets.
    pub closed spec fn next_handle(&self) -> u64 {
        self.next_handle
    }

    /// A broker without subscriptions.
    pub fn new() -> (broker: Self)
        ensures
            broker.subscriptions().len() == 0,
            broker.next_handle() == 0,
    {
        let broker = InMemoryMessaging { subscriptions: Vec::new(), next_handle: 0 };
        assert(broker.subscriptions() =~= Seq::<SubscriptionView>::empty());
        broker
    }

    /// Publishes `data` on `topic`: gives the message and the
    /// subscriptions to the topic, oldest first; nothing where nobody
    /// listens.
    pub fn publish(&self, topic: &str, data: Vec<u8>) -> (result: Result<Option<Delivery>, Error>)
        ensures
            result matches Ok(outcome) && match outcome {
                Some(delivery) => delivery.message@ == (MessageView {
                    topic: topic@,
                    data: data@,
                    sender: None,
                }) && delivery.recipients@ == listeners(self.subscriptions(), topic@)
                    && delivery.recipients@.len() > 0,
                None => listeners(self.subscriptions(), topic@).len() == 0,
            },
    {
        let wanted: String = topic.to_owned();
        let ghost all = self.subscriptions();
        let mut recipients: Vec<u64> = Vec::new();
        let mut i: usize = 0;
        assert(all.take(0) =~= Seq::<SubscriptionView>::empty());
        while i < self.subscriptions.len()
            invariant
                0 <= i <= self.subscriptions.len(),
                wanted@ == topic@,
                all == self.subscriptions(),
                recipients@ == listeners(all.take(i as int), topic@),
            decreases self.subscriptions.len() - i,
        {
            assert(all.take(i as int + 1).drop_last() =~= all.take(i as int));
            assert(all.take(i as int + 1).last() == self.subscriptions@[i as int]@);
            if self.subscriptions[i].topic == wanted {
                recipients.push(self.subscriptions[i].handle);
            }
            i = i + 1;
        }
        assert(all.take(self.subscriptions.len() as int) =~= all);
        if recipients.len() == 0 {
            Ok(None)
        } else {
            let message = Message { topic: wanted, data, sender: None };
            Ok(Some(Delivery { message, recipients }))
        }
    }

    /// Subscribes to `topic` and gives the number of the new subscription.
    /// Fails where the numbers have run out.
    pub fn subscribe(&mut self, topic: &str) -> (result: Result<u64, Error>)
        ensures
            result is Ok <==> old(self).next_handle() < u64::MAX,
            result matches Err(e) ==> e.kind() == ErrorKind::Communication
                && final(self).subscriptions() == old(self).subscriptions()
                && final(self).next_handle() == old(self).next_handle(),
            result matches Ok(handle) ==> handle == old(self).next_handle()
                && final(self).next_handle() == handle + 1 && final(self).subscriptions() == old(
                self,
            ).subscriptions().push(SubscriptionView { handle, topic: topic@ }),
    {
        if self.next_handle == u64::MAX {
            return Err(Error::Communication("no subscription number left".to_owned()));
        }
        let handle = self.next_handle;
        let ghost before = self.subscriptions();
        self.subscriptions.push(Subscription { handle, topic: topic.to_owned() });
        self.next_handle = handle + 1;
        assert(self.subscriptions() =~= before.push(SubscriptionView { handle, topic: topic@ }));
        Ok(handle)
    }
}

/// After an unsubscription the topic is no longer counted.
pub proof fn lemma_unsubscribed_topic_is_gone(topics: Seq<Seq<char>>, topic: Seq<char>)
    ensures
        !topics_without(topics, topic).contains(topic),
    decreases topics.len(),
{
    if topics.len() > 0 {
        lemma_unsubscribed_topic_is_gone(topics.drop_last(), topic);
        let before = topics_without(topics.drop_last(), topic);
        let now = topics_without(topics, topic);
        if now.contains(topic) {
            let i = choose|i: int| 0 <= i < now.len() && now[i] == topic;
            if i < before.len() {
                assert(before[i] == topic);
            }
        }
    }
}

/// A new subscription to a topic is the last to hear of a message on it,
/// and changes nothing for other topics.
pub proof fn lemma_subscription_listens(
    subscriptions: Seq<SubscriptionView>,
    added: SubscriptionView,
    topic: Seq<char>,
)
    ensures
        listeners(subscriptions.push(added), topic) == if added.topic == topic {
            listeners(subscriptions, topic).push(added.handle)
        } else {
            listeners(subscriptions, topic)
        },
{
    assert(subscriptions.push(added).drop_last() =~= subscriptions);
}

} // verus!
