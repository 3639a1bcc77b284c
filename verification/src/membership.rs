//! Cluster membership: which nodes are known, and in which state.

use crate::distribution::{without_id, DistributionNode, DistributionStrategy};
use crate::error::{Error, ErrorKind};
use crate::utils::generate_id;
use vstd::prelude::*;

verus! {

/// Where a node stands in its life.
#[derive(Debug, Clone, Copy, PartialEq, Eq, Structural)]
pub enum NodeState {
    Joining,
    Active,
    Leaving,
    Down,
}

/// A member of the cluster. The address is kept as text.
#[derive(Debug, PartialEq, Eq)]
pub struct Node {
    pub id: String,
    pub address: String,
    pub state: NodeState,
    pub metadata: Vec<(String, String)>,
}

/// The mathematical content of a [`Node`].
pub ghost struct MemberView {
    pub id: Seq<char>,
    pub address: Seq<char>,
    pub state: NodeState,
    pub metadata: Seq<(Seq<char>, Seq<char>)>,
}

/// The views of a list of pairs of text, in order.
pub open spec fn pairs_view(pairs: Seq<(String, String)>) -> Seq<(Seq<char>, Seq<char>)> {
    pairs.map_values(|p: (String, String)| (p.0@, p.1@))
}

impl View for Node {
    type V = MemberView;

    open spec fn view(&self) -> MemberView {
        MemberView {
            id: self.id@,
            address: self.address@,
            state: self.state,
            metadata: pairs_view(self.metadata@),
        }
    }
}

impl Clone for Node {
    fn clone(&self) -> (copy: Self)
        ensures
            copy@ == self@,
    {
        let mut metadata: Vec<(String, String)> = Vec::new();
        let mut i: usize = 0;
        while i < self.metadata.len()
            invariant
                0 <= i <= self.metadata.len(),
                pairs_view(metadata@) == pairs_view(self.metadata@).take(i as int),
            decreases self.metadata.len() - i,
        {
            let ghost before = pairs_view(metadata@);
            let pair = (self.metadata[i].0.clone(), self.metadata[i].1.clone());
            metadata.push(pair);
            assert(pairs_view(metadata@) =~= before.push((pair.0@, pair.1@)));
            assert(pairs_view(self.metadata@).take(i as int + 1) =~= pairs_view(
                self.metadata@,
            ).take(i as int).push((self.metadata@[i as int].0@, self.metadata@[i as int].1@)));
            i = i + 1;
        }
        assert(pairs_view(self.metadata@).take(self.metadata.len() as int) =~= pairs_view(
            self.metadata@,
        ));
        Node { id: self.id.clone(), address: self.address.clone(), state: self.state, metadata }
    }
}

/// What happened to the membership.
#[derive(Debug, PartialEq, Eq)]
pub enum MembershipEvent {
    NodeJoined(Node),
    NodeStateChanged { id: String, state: NodeState },
    NodeLeft(String),
}

/// The mathematical content of a [`MembershipEvent`].
pub ghost enum MembershipEventView {
    NodeJoined(MemberView),
    NodeStateChanged { id: Seq<char>, state: NodeState },
    NodeLeft(Seq<char>),
}

impl View for MembershipEvent {
    type V = MembershipEventView;

    open spec fn view(&self) -> MembershipEventView {
        match self {
            MembershipEvent::NodeJoined(node) => MembershipEventView::NodeJoined(node@),
            MembershipEvent::NodeStateChanged { id, state } => MembershipEventView::NodeStateChanged {
                id: id@,
                state: *state,
            },
            MembershipEvent::NodeLeft(id) => MembershipEventView::NodeLeft(id@),
        }
    }
}

/// The views of a list of members, in order.
pub open spec fn members_view(nodes: Seq<Node>) -> Seq<MemberView> {
    nodes.map_values(|n: Node| n@)
}

/// The views of a list of events, in order.
pub open spec fn membership_events_view(events: Seq<MembershipEvent>) -> Seq<MembershipEventView> {
    events.map_values(|e: MembershipEvent| e@)
}

/// Member ids occur once in the list.
pub open spec fn unique_members(members: Seq<MemberView>) -> bool {
    forall|i: int, j: int|
        0 <= i < members.len() && 0 <= j < members.len() && i != j ==> (#[trigger] members[i]).id
            != (#[trigger] members[j]).id
}

/// Whether a member called `id` is known.
pub open spec fn knows(members: Seq<MemberView>, id: Seq<char>) -> bool {
    exists|i: int| 0 <= i < members.len() && (#[trigger] members[i]).id == id
}

/// The state of a registry: its members in the order of registration and
/// the events that wait to be handed out.
pub ghost struct RegistryView {
    pub members: Seq<MemberView>,
    pub events: Seq<MembershipEventView>,
}

/// The members without the one called `id`, order kept.
pub open spec fn members_without(members: Seq<MemberView>, id: Seq<char>) -> Seq<MemberView>
    decreases members.len(),
{
    if members.len() == 0 {
        members
    } else {
        let rest = members_without(members.drop_last(), id);
        if members.last().id == id {
            rest
        } else {
            rest.push(members.last())
        }
    }
}

/// The registry after `member` was registered: it takes the place of a
/// member of the same id, or the last place, and its joining is announced.
pub open spec fn after_register(pre: RegistryView, member: MemberView) -> RegistryView {
    RegistryView {
        members: members_without(pre.members, member.id).push(member),
        events: pre.events.push(MembershipEventView::NodeJoined(member)),
    }
}

/// A membership registry that lives in memory.
pub struct InMemoryMembership {
    nodes: Vec<Node>,
    events: Vec<MembershipEvent>,
}

impl View for InMemoryMembership {
    type V = RegistryView;

    closed spec fn view(&self) -> RegistryView {
        RegistryView {
            members: members_view(self.nodes@),
            events: membership_events_view(self.events@),
        }
    }
}

impl InMemoryMembership {
    /// Member ids occur once.
    pub open spec fn wf(&self) -> bool {
        unique_members(self@.members)
    }

    /// A registry without members.
    pub fn new() -> (registry: Self)
        ensures
            registry.wf(),
            registry@.members.len() == 0,
            registry@.events.len() == 0,
    {
        let registry = InMemoryMembership { nodes: Vec::new(), events: Vec::new() };
        assert(registry@.members =~= Seq::<MemberView>::empty());
        assert(registry@.events =~= Seq::<MembershipEventView>::empty());
        registry
    }

    /// Where the member called `id` stands, if it is known.
    fn find(&self, id: &str) -> (found: Option<usize>)
        ensures
            match found {
                Some(at) => at < self@.members.len() && self@.members[at as int].id == id@,
                None => !knows(self@.members, id@),
            },
    {
        let wanted: String = id.to_owned();
        let mut i: usize = 0;
        while i < self.nodes.len()
            invariant
                0 <= i <= self.nodes.len(),
                wanted@ == id@,
                forall|k: int| 0 <= k < i ==> (#[trigger] self@.members[k]).id != id@,
            decreases self.nodes.len() - i,
        {
            assert(self@.members[i as int] == self.nodes@[i as int]@);
            if self.nodes[i].id == wanted {
                return Some(i);
            }
            i = i + 1;
        }
        None
    }

    /// Announces an event to whoever takes the events next.
    fn notify(&mut self, event: MembershipEvent)
        ensures
            final(self)@.members == old(self)@.members,
            final(self)@.events == old(self)@.events.push(event@),
    {
        let ghost before = membership_events_view(self.events@);
        self.events.push(event);
        assert(membership_events_view(self.events@) =~= before.push(event@));
    }

    /// Registers a node under the given id, in state `Joining`, and
    /// announces that it joined. A member of the same id is replaced.
    pub fn register_as(&mut self, id: String, address: String, metadata: Vec<(String, String)>)
        requires
            old(self).wf(),
        ensures
            final(self).wf(),
            final(self)@ == after_register(
                old(self)@,
                MemberView {
                    id: id@,
                    address: address@,
                    state: NodeState::Joining,
                    metadata: pairs_view(metadata@),
                },
            ),
    {
        let ghost before = self@.members;
        let node = Node { id, address, state: NodeState::Joining, metadata };
        let announced = node.clone();
        match self.find(node.id.as_str()) {
            Some(at) => {
                let gone = self.nodes.remove(at);
                proof {
                    assert(members_view(self.nodes@) =~= before.remove(at as int));
                    lemma_members_without_removes(before, node.id@, at as int);
                }
            },
            None => {
                proof {
                    lemma_members_without_absent(before, node.id@);
                }
            },
        }
        let ghost kept = self@.members;
        proof {
            lemma_members_without_keeps(before, node.id@);
        }
        self.nodes.push(node);
        assert(members_view(self.nodes@) =~= kept.push(node@));
        assert(unique_members(self@.members)) by {
            let now = self@.members;
            assert forall|i: int, j: int|
                0 <= i < now.len() && 0 <= j < now.len() && i != j implies (#[trigger] now[i]).id != (
            #[trigger] now[j]).id by {
                let last = now.len() - 1;
                if i < last && j < last {
                    assert(now[i] == kept[i] && now[j] == kept[j]);
                } else if i == last {
                    assert(now[j] == kept[j]);
                } else {
                    assert(now[i] == kept[i]);
                }
            }
        }
        self.notify(MembershipEvent::NodeJoined(announced));
    }

    /// Registers a node under a fresh random id and returns the id.
    pub fn register_node(&mut self, address: String, metadata: Vec<(String, String)>) -> (result:
        Result<String, Error>)
        requires
            old(self).wf(),
        ensures
            final(self).wf(),
            result matches Ok(id) && id@.len() == 36 && final(self)@ == after_register(
                old(self)@,
                MemberView {
                    id: id@,
                    address: address@,
                    state: NodeState::Joining,
                    metadata: pairs_view(metadata@),
                },
            ),
    {
        let id = generate_id();
        let given = id.clone();
        self.register_as(id, address, metadata);
        Ok(given)
    }

    /// Moves the member called `node_id` to `state` and announces the
    /// change. Naming a node that is not known is a membership failure.
    pub fn update_node_state(&mut self, node_id: &str, state: NodeState) -> (result: Result<
        (),
        Error,
    >)
        requires
            old(self).wf(),
        ensures
            final(self).wf(),
            result is Ok <==> knows(old(self)@.members, node_id@),
            result matches Err(e) ==> e.kind() == ErrorKind::Membership && final(self)@ == old(
                self,
            )@,
            result is Ok ==> exists|at: int|
                0 <= at < old(self)@.members.len() && (#[trigger] old(self)@.members[at]).id
                    == node_id@ && final(self)@.members == old(self)@.members.update(
                    at,
                    MemberView { state, ..old(self)@.members[at] },
                ),
            result is Ok ==> final(self)@.events == old(self)@.events.push(
                MembershipEventView::NodeStateChanged { id: node_id@, state },
            ),
    {
        let ghost before = self@.members;
        match self.find(node_id) {
            Some(at) => {
                self.nodes[at].state = state;
                proof {
                    assert(self@.members =~= before.update(
                        at as int,
                        MemberView { state, ..before[at as int] },
                    ));
                }
                self.notify(MembershipEvent::NodeStateChanged { id: node_id.to_owned(), state });
                Ok(())
            },
            None => Err(Error::Membership("node not found".to_owned())),
        }
    }

    /// Removes the member called `node_id` and announces that it left.
    /// Naming a node that is not known is a membership failure.
    pub fn unregister_node(&mut self, node_id: &str) -> (result: Result<(), Error>)
        requires
            old(self).wf(),
        ensures
            final(self).wf(),
            result is Ok <==> knows(old(self)@.members, node_id@),
            result matches Err(e) ==> e.kind() == ErrorKind::Membership && final(self)@ == old(
                self,
            )@,
            result is Ok ==> final(self)@.members == members_without(
                old(self)@.members,
                node_id@,
            ) && !knows(final(self)@.members, node_id@),
            result is Ok ==> final(self)@.events == old(self)@.events.push(
                MembershipEventView::NodeLeft(node_id@),
            ),
    {
        let ghost before = self@.members;
        match self.find(node_id) {
            Some(at) => {
                let gone = self.nodes.remove(at);
                proof {
                    assert(members_view(self.nodes@) =~= before.remove(at as int));
                    lemma_members_without_removes(before, node_id@, at as int);
                    lemma_members_without_keeps(before, node_id@);
                }
                self.notify(MembershipEvent::NodeLeft(node_id.to_owned()));
                Ok(())
            },
            None => Err(Error::Membership("node not found".to_owned())),
        }
    }

    /// All members, in the order of registration.
    pub fn get_nodes(&self) -> (nodes: Vec<Node>)
        ensures
            members_view(nodes@) == self@.members,
    {
        let mut nodes: Vec<Node> = Vec::new();
        let mut i: usize = 0;
        assert(members_view(nodes@) =~= self@.members.take(0));
        while i < self.nodes.len()
            invariant
                0 <= i <= self.nodes.len(),
                members_view(nodes@) == self@.members.take(i as int),
            decreases self.nodes.len() - i,
        {
            let ghost before = members_view(nodes@);
            let copy = self.nodes[i].clone();
            nodes.push(copy);
            assert(members_view(nodes@) =~= before.push(copy@));
            assert(self@.members.take(i as int + 1) =~= self@.members.take(i as int).push(
                self@.members[i as int],
            ));
            i = i + 1;
        }
        assert(self@.members.take(self.nodes.len() as int) =~= self@.members);
        nodes
    }

    /// The member called `node_id`, if it is known.
    pub fn get_node(&self, node_id: &str) -> (found: Option<Node>)
        ensures
            match found {
                Some(node) => node@.id == node_id@ && self@.members.contains(node@),
                None => !knows(self@.members, node_id@),
            },
    {
        match self.find(node_id) {
            Some(at) => {
                assert(self@.members[at as int] == self.nodes@[at as int]@);
                Some(self.nodes[at].clone())
            },
            None => None,
        }
    }

    /// Hands out the events that were announced since the last call,
    /// oldest first, and forgets them.
    pub fn take_events(&mut self) -> (events: Vec<MembershipEvent>)
        ensures
            membership_events_view(events@) == old(self)@.events,
            final(self)@.members == old(self)@.members,
            final(self)@.events.len() == 0,
    {
        let mut events: Vec<MembershipEvent> = Vec::new();
        std::mem::swap(&mut events, &mut self.events);
        assert(membership_events_view(self.events@) =~= Seq::<MembershipEventView>::empty());
        events
    }
}

/// Removing an id that no member bears changes nothing.
proof fn lemma_members_without_absent(members: Seq<MemberView>, id: Seq<char>)
    requires
        !knows(members, id),
    ensures
        members_without(members, id) == members,
    decreases members.len(),
{
    if members.len() > 0 {
        let rest = members.drop_last();
        assert forall|j: int| 0 <= j < rest.len() implies (#[trigger] rest[j]).id != id by {
            assert(rest[j] == members[j]);
        }
        lemma_members_without_absent(rest, id);
        assert(members[members.len() - 1].id != id);
        assert(rest.push(members.last()) =~= members);
    } else {
        assert(members_without(members, id) =~= members);
    }
}

/// Removing the id of the member at `at` takes out that member and no
/// other, where ids occur once.
proof fn lemma_members_without_removes(members: Seq<MemberView>, id: Seq<char>, at: int)
    requires
        unique_members(members),
        0 <= at < members.len(),
        members[at].id == id,
    ensures
        members_without(members, id) == members.remove(at),
    decreases members.len(),
{
    let last = members.len() - 1;
    let rest = members.drop_last();
    if at == last {
        assert forall|j: int| 0 <= j < rest.len() implies (#[trigger] rest[j]).id != id by {
            assert(rest[j] == members[j]);
            assert(members[j].id != members[at].id);
        }
        lemma_members_without_absent(rest, id);
        assert(members.remove(at) =~= rest);
    } else {
        assert forall|i: int, j: int|
            0 <= i < rest.len() && 0 <= j < rest.len() && i != j implies (#[trigger] rest[i]).id
            != (#[trigger] rest[j]).id by {
            assert(rest[i] == members[i] && rest[j] == members[j]);
        }
        assert(rest[at] == members[at]);
        lemma_members_without_removes(rest, id, at);
        assert(members[last].id != members[at].id);
        assert(rest.remove(at).push(members.last()) =~= members.remove(at));
    }
}

/// What is left after a removal bears other ids, each once, and each was
/// there before.
proof fn lemma_members_without_keeps(members: Seq<MemberView>, id: Seq<char>)
    requires
        unique_members(members),
    ensures
        unique_members(members_without(members, id)),
        !knows(members_without(members, id), id),
        forall|a: int|
            0 <= a < members_without(members, id).len() ==> knows(
                members,
                (#[trigger] members_without(members, id)[a]).id,
            ),
    decreases members.len(),
{
    if members.len() > 0 {
        let rest = members.drop_last();
        let last = members.last();
        assert forall|i: int, j: int|
            0 <= i < rest.len() && 0 <= j < rest.len() && i != j implies (#[trigger] rest[i]).id
            != (#[trigger] rest[j]).id by {
            assert(rest[i] == members[i] && rest[j] == members[j]);
        }
        lemma_members_without_keeps(rest, id);
        let inner = members_without(rest, id);
        let kept = members_without(members, id);
        assert forall|a: int| 0 <= a < kept.len() implies knows(members, (#[trigger] kept[a]).id) by {
            if a < inner.len() {
                assert(kept[a] == inner[a]);
                assert(knows(rest, inner[a].id));
                let b = choose|b: int| 0 <= b < rest.len() && (#[trigger] rest[b]).id == inner[a].id;
                assert(members[b].id == kept[a].id);
            } else {
                assert(members[members.len() - 1].id == kept[a].id);
            }
        }
        if last.id != id {
            assert forall|i: int, j: int|
                0 <= i < kept.len() && 0 <= j < kept.len() && i != j implies (#[trigger] kept[i]).id
                != (#[trigger] kept[j]).id by {
                let end = kept.len() - 1;
                if i < end && j < end {
                    assert(kept[i] == inner[i] && kept[j] == inner[j]);
                } else {
                    let other = if i == end { j } else { i };
                    assert(kept[other] == inner[other]);
                    assert(knows(rest, inner[other].id));
                    let b = choose|b: int|
                        0 <= b < rest.len() && (#[trigger] rest[b]).id == inner[other].id;
                    assert(rest[b] == members[b]);
                    assert(members[b].id != members[members.len() - 1].id);
                }
            }
            assert forall|a: int| 0 <= a < kept.len() implies (#[trigger] kept[a]).id != id by {
                if a < inner.len() {
                    assert(kept[a] == inner[a]);
                }
            }
        }
    }
}

/// Keeps a placement strategy in step with the membership: a node holds
/// keys, with the given weight, from the moment it is active until it
/// changes state again or leaves.
pub fn follow_membership<D: DistributionStrategy>(
    strategy: &mut D,
    event: &MembershipEvent,
    weight: u64,
)
    requires
        old(strategy).valid(),
    ensures
        final(strategy).valid(),
        final(strategy).members() == match event@ {
            MembershipEventView::NodeJoined(member) => if member.state == NodeState::Active {
                without_id(old(strategy).members(), member.id).push(
                    crate::distribution::NodeView { id: member.id, weight },
                )
            } else {
                old(strategy).members()
            },
            MembershipEventView::NodeStateChanged { id, state } => if state == NodeState::Active {
                without_id(old(strategy).members(), id).push(
                    crate::distribution::NodeView { id, weight },
                )
            } else {
                without_id(old(strategy).members(), id)
            },
            MembershipEventView::NodeLeft(id) => without_id(old(strategy).members(), id),
        },
{
    match event {
        MembershipEvent::NodeJoined(node) => {
            if node.state == NodeState::Active {
                strategy.add_node(DistributionNode { id: node.id.clone(), weight });
            }
        },
        MembershipEvent::NodeStateChanged { id, state } => {
            if *state == NodeState::Active {
                strategy.add_node(DistributionNode { id: id.clone(), weight });
            } else {
                strategy.remove_node(id.as_str());
            }
        },
        MembershipEvent::NodeLeft(id) => {
            strategy.remove_node(id.as_str());
        },
    }
}

} // verus!
