//! Quorum reads and writes over the replicas of a key.
//!
//! The coordinator owns the ring and one consistency manager per node. A
//! write goes to the replicas of its key under one version, picked above
//! every version those replicas have seen, and succeeds once the write
//! quorum has stored it. A read asks replicas in order of preference until
//! the read quorum has answered; where the answers differ the winner is
//! settled, the lagging replicas are repaired and the winner is returned.

use crate::bytestring::{bytes_equal, copy_bytes};
use crate::config::ReplicationConfig;
use crate::consistency::{
    events_view, get_result, get_view, pick_winner, put_result, repair_result, resolve_result,
    resolved, slot_of, value_result_view, values_view, ConsistencyEvent, ConsistencyManager,
    ConsistencyResult, ResultView, Slot, StoreView, VersionedValue, VersionedView,
};
use crate::distribution::{
    at_most, digest, distinct_ids, lemma_without_id_absent, lemma_without_id_removes, owners_view,
    preference, ring_of, without_id, ConsistentHashRing, DistributionNode, DistributionStrategy,
    NodeView, RingView,
};
use crate::error::{Error, ErrorKind};
use crate::record::{
    context_view, encode_context_bytes, lemma_context_bytes_injective, lemma_context_fits,
};
use vstd::prelude::*;

verus! {

/// One node's manager, and whether the node can be reached.
pub struct Replica<M: ConsistencyManager> {
    node_id: String,
    manager: M,
    reachable: bool,
}

/// The mathematical content of a [`Replica`].
pub ghost struct ReplicaView {
    pub id: Seq<char>,
    pub store: StoreView,
    pub reachable: bool,
}

impl<M: ConsistencyManager> View for Replica<M> {
    type V = ReplicaView;

    closed spec fn view(&self) -> ReplicaView {
        ReplicaView { id: self.node_id@, store: self.manager.state(), reachable: self.reachable }
    }
}

/// The views of a list of replicas, in order.
pub open spec fn replicas_view<M: ConsistencyManager>(replicas: Seq<Replica<M>>) -> Seq<
    ReplicaView,
> {
    replicas.map_values(|r: Replica<M>| r@)
}

/// The state of a cluster: the ring, the replicas in the order of the
/// ring's node list, and the replication settings.
pub ghost struct ClusterView {
    pub ring: RingView,
    pub replicas: Seq<ReplicaView>,
    pub config: ReplicationConfig,
}

/// Whether no backend of the cluster ever fails.
pub open spec fn all_reliable(replicas: Seq<ReplicaView>) -> bool {
    forall|j: int| 0 <= j < replicas.len() ==> (#[trigger] replicas[j]).store.reliable
}

/// The replicas with the store of number `t` replaced.
pub open spec fn with_store(replicas: Seq<ReplicaView>, t: int, store: StoreView) -> Seq<
    ReplicaView,
> {
    replicas.update(t, ReplicaView { store, ..replicas[t] })
}

/// The replicas that hold `key`, by their place in the node list: the
/// first `factor` of the key's preference list.
pub open spec fn targets(cluster: ClusterView, key: Seq<u8>) -> Seq<int> {
    let all = preference(cluster.ring.points, digest(key));
    all.take(at_most(cluster.config.factor as nat, all.len()) as int)
}

/// The highest version that the reachable ones among `targets` hold for
/// `key`; zero where none holds a record.
pub open spec fn highest_version(replicas: Seq<ReplicaView>, targets: Seq<int>, key: Seq<u8>)
    -> u64
    decreases targets.len(),
{
    if targets.len() == 0 {
        0
    } else {
        let rest = highest_version(replicas, targets.drop_last(), key);
        let replica = replicas[targets.last()];
        match slot_of(replica.store.backend, key) {
            Slot::Holds(record) => if replica.reachable && record.version() > rest {
                record.version()
            } else {
                rest
            },
            _ => rest,
        }
    }
}

/// The replicas after the write went to every reachable one of `targets`,
/// and how many of them stored it.
pub open spec fn write_all(
    replicas: Seq<ReplicaView>,
    targets: Seq<int>,
    key: Seq<u8>,
    value: Seq<u8>,
    version: u64,
) -> (Seq<ReplicaView>, nat)
    decreases targets.len(),
{
    if targets.len() == 0 {
        (replicas, 0)
    } else {
        let (done, acks) = write_all(replicas, targets.drop_last(), key, value, version);
        let t = targets.last();
        if done[t].reachable {
            let (store, outcome) = put_result(done[t].store, key, value, Some(version), None);
            (
                with_store(done, t, store),
                if outcome matches Ok(ResultView::Stored(_)) {
                    acks + 1
                } else {
                    acks
                },
            )
        } else {
            (done, acks)
        }
    }
}

/// What a coordinated write returns, and the cluster it leaves, where
/// every backend answers.
pub open spec fn coordinated_put_result(pre: ClusterView, key: Seq<u8>, value: Seq<u8>) -> (
    ClusterView,
    Result<VersionedView, ErrorKind>,
) {
    let to = targets(pre, key);
    let highest = highest_version(pre.replicas, to, key);
    if highest == u64::MAX {
        (pre, Err(ErrorKind::Consistency))
    } else {
        let version = (highest + 1) as u64;
        let (replicas, acks) = write_all(pre.replicas, to, key, value, version);
        (
            ClusterView { replicas, ..pre },
            if acks >= pre.config.write_quorum {
                Ok(VersionedView { key, value, version, context: None })
            } else {
                Err(ErrorKind::Consistency)
            },
        )
    }
}

/// The first `quorum` of `targets` that are reachable and answer a read.
pub open spec fn responders(
    replicas: Seq<ReplicaView>,
    targets: Seq<int>,
    key: Seq<u8>,
    quorum: nat,
) -> Seq<int>
    decreases targets.len(),
{
    if targets.len() == 0 {
        Seq::empty()
    } else {
        let before = responders(replicas, targets.drop_last(), key, quorum);
        let t = targets.last();
        if before.len() < quorum && replicas[t].reachable && get_result(replicas[t].store, key)
            is Ok {
            before.push(t)
        } else {
            before
        }
    }
}

/// What the replica at `t` answers to a read of `key`.
pub open spec fn answer_of(replicas: Seq<ReplicaView>, t: int, key: Seq<u8>) -> Option<
    VersionedView,
> {
    match get_result(replicas[t].store, key) {
        Ok(answer) => answer,
        Err(_) => None,
    }
}

/// What the replicas `who` answer, in order.
pub open spec fn answers_of(replicas: Seq<ReplicaView>, who: Seq<int>, key: Seq<u8>) -> Seq<
    Option<VersionedView>,
> {
    who.map_values(|t: int| answer_of(replicas, t, key))
}

/// Whether all answers are the same.
pub open spec fn agree(answers: Seq<Option<VersionedView>>) -> bool {
    forall|i: int| 0 <= i < answers.len() ==> #[trigger] answers[i] == answers[0]
}

/// The values among the answers, in order.
pub open spec fn present(answers: Seq<Option<VersionedView>>) -> Seq<VersionedView>
    decreases answers.len(),
{
    if answers.len() == 0 {
        Seq::empty()
    } else {
        let before = present(answers.drop_last());
        match answers.last() {
            Some(value) => before.push(value),
            None => before,
        }
    }
}

/// The replicas after each of `who` was repaired with `winner`.
pub open spec fn repair_all(
    replicas: Seq<ReplicaView>,
    who: Seq<int>,
    key: Seq<u8>,
    winner: VersionedView,
) -> Seq<ReplicaView>
    decreases who.len(),
{
    if who.len() == 0 {
        replicas
    } else {
        let done = repair_all(replicas, who.drop_last(), key, winner);
        let t = who.last();
        with_store(done, t, repair_result(done[t].store, key, winner))
    }
}

/// What a coordinated read returns, and the cluster it leaves, where every
/// backend answers.
pub open spec fn coordinated_get_result(pre: ClusterView, key: Seq<u8>) -> (
    ClusterView,
    Result<Option<VersionedView>, ErrorKind>,
) {
    let who = responders(pre.replicas, targets(pre, key), key, pre.config.read_quorum as nat);
    let answers = answers_of(pre.replicas, who, key);
    if who.len() < pre.config.read_quorum {
        (pre, Err(ErrorKind::Consistency))
    } else if who.len() == 0 {
        (pre, Ok(None))
    } else if agree(answers) {
        (pre, Ok(answers[0]))
    } else {
        let candidates = present(answers);
        let winner = resolved(key, candidates);
        let first = who[0];
        let settled = with_store(
            pre.replicas,
            first,
            resolve_result(pre.replicas[first].store, key, candidates).0,
        );
        (
            ClusterView { replicas: repair_all(settled, who.drop_first(), key, winner), ..pre },
            Ok(Some(winner)),
        )
    }
}

/// Composes the ring and the replicas' managers into quorum reads and
/// writes.
pub struct ReplicaCoordinator<M: ConsistencyManager> {
    ring: ConsistentHashRing,
    replicas: Vec<Replica<M>>,
    config: ReplicationConfig,
}

impl<M: ConsistencyManager> View for ReplicaCoordinator<M> {
    type V = ClusterView;

    closed spec fn view(&self) -> ClusterView {
        ClusterView {
            ring: self.ring@,
            replicas: replicas_view(self.replicas@),
            config: self.config,
        }
    }
}

/// Whether replica number `j` stands for node number `j`, for every `j`.
pub open spec fn aligned(nodes: Seq<NodeView>, replicas: Seq<ReplicaView>) -> bool {
    &&& nodes.len() == replicas.len()
    &&& forall|j: int| 0 <= j < nodes.len() ==> (#[trigger] replicas[j]).id == nodes[j].id
}

impl<M: ConsistencyManager> ReplicaCoordinator<M> {
    /// The ring is well formed, the quorums intersect, and there is one
    /// replica for each node of the ring, in the same order.
    pub open spec fn wf(&self) -> bool {
        &&& distinct_ids(self@.ring.nodes)
        &&& ring_of(self@.ring.nodes, self@.ring.points)
        &&& self@.config.quorums_intersect()
        &&& aligned(self@.ring.nodes, self@.replicas)
    }

    /// A cluster without nodes. A configuration whose quorums do not
    /// intersect is rejected.
    pub fn new(config: ReplicationConfig) -> (result: Result<Self, Error>)
        ensures
            result is Ok <==> config.quorums_intersect(),
            result matches Ok(coordinator) ==> coordinator.wf() && coordinator@.config == config
                && coordinator@.replicas.len() == 0 && coordinator@.ring.nodes.len() == 0,
            result matches Err(e) ==> e.kind() == ErrorKind::Configuration,
    {
        match config.validate() {
            Err(e) => Err(e),
            Ok(()) => {
                let coordinator = ReplicaCoordinator {
                    ring: ConsistentHashRing::new(),
                    replicas: Vec::new(),
                    config,
                };
                assert(coordinator@.replicas =~= Seq::<ReplicaView>::empty());
                Ok(coordinator)
            },
        }
    }

    /// The replication settings.
    pub fn config(&self) -> (config: ReplicationConfig)
        ensures
            config == self@.config,
    {
        self.config
    }

    /// How many replicas there are.
    pub fn replica_count(&self) -> (count: usize)
        ensures
            count == self@.replicas.len(),
    {
        self.replicas.len()
    }
}

/// The replicas without the one called `id`, order kept.
pub open spec fn replicas_without(replicas: Seq<ReplicaView>, id: Seq<char>) -> Seq<ReplicaView>
    decreases replicas.len(),
{
    if replicas.len() == 0 {
        replicas
    } else {
        let rest = replicas_without(replicas.drop_last(), id);
        if replicas.last().id == id {
            rest
        } else {
            rest.push(replicas.last())
        }
    }
}

/// The ids of a list of replicas, in order.
pub open spec fn replica_ids(replicas: Seq<ReplicaView>) -> Seq<Seq<char>> {
    replicas.map_values(|r: ReplicaView| r.id)
}

/// Removing an id that no replica bears changes nothing.
proof fn lemma_replicas_without_absent(replicas: Seq<ReplicaView>, id: Seq<char>)
    requires
        forall|j: int| 0 <= j < replicas.len() ==> (#[trigger] replicas[j]).id != id,
    ensures
        replicas_without(replicas, id) == replicas,
    decreases replicas.len(),
{
    if replicas.len() > 0 {
        let rest = replicas.drop_last();
        assert forall|j: int| 0 <= j < rest.len() implies (#[trigger] rest[j]).id != id by {
            assert(rest[j] == replicas[j]);
        }
        lemma_replicas_without_absent(rest, id);
        assert(replicas[replicas.len() - 1].id != id);
        assert(rest.push(replicas.last()) =~= replicas);
    } else {
        assert(replicas_without(replicas, id) =~= replicas);
    }
}

/// Removing the id of the replica at `at` takes out that replica and no
/// other, where ids occur once.
proof fn lemma_replicas_without_removes(replicas: Seq<ReplicaView>, id: Seq<char>, at: int)
    requires
        forall|i: int, j: int|
            0 <= i < replicas.len() && 0 <= j < replicas.len() && i != j
                ==> (#[trigger] replicas[i]).id != (#[trigger] replicas[j]).id,
        0 <= at < replicas.len(),
        replicas[at].id == id,
    ensures
        replicas_without(replicas, id) == replicas.remove(at),
    decreases replicas.len(),
{
    let last = replicas.len() - 1;
    let rest = replicas.drop_last();
    if at == last {
        assert forall|j: int| 0 <= j < rest.len() implies (#[trigger] rest[j]).id != id by {
            assert(rest[j] == replicas[j]);
            assert(replicas[j].id != replicas[at].id);
        }
        lemma_replicas_without_absent(rest, id);
        assert(replicas.remove(at) =~= rest);
    } else {
        assert forall|i: int, j: int|
            0 <= i < rest.len() && 0 <= j < rest.len() && i != j implies (#[trigger] rest[i]).id
            != (#[trigger] rest[j]).id by {
            assert(rest[i] == replicas[i] && rest[j] == replicas[j]);
        }
        assert(rest[at] == replicas[at]);
        lemma_replicas_without_removes(rest, id, at);
        assert(replicas[last].id != replicas[at].id);
        assert(rest.remove(at).push(replicas.last()) =~= replicas.remove(at));
    }
}

impl<M: ConsistencyManager> ReplicaCoordinator<M> {
    /// Takes the replica called `id` out of the list, if there is one, in
    /// step with what the ring does to its node list.
    fn drop_replica(&mut self, id: &str)
        requires
            old(self).wf(),
        ensures
            final(self).ring == old(self).ring,
            final(self).config == old(self).config,
            final(self)@.replicas == replicas_without(old(self)@.replicas, id@),
            aligned(without_id(old(self)@.ring.nodes, id@), final(self)@.replicas),
    {
        let ghost nodes = self@.ring.nodes;
        let ghost before = self@.replicas;
        match self.ring.index_of(id) {
            Some(at) => {
                let gone = self.replicas.remove(at);
                proof {
                    lemma_without_id_removes(nodes, id@, at as int);
                    assert forall|i: int, j: int|
                        0 <= i < before.len() && 0 <= j < before.len() && i != j implies (
                    #[trigger] before[i]).id != (#[trigger] before[j]).id by {
                        assert(nodes[i].id != nodes[j].id);
                    }
                    lemma_replicas_without_removes(before, id@, at as int);
                    assert(replicas_view(self.replicas@) =~= before.remove(at as int));
                    let left = nodes.remove(at as int);
                    let kept = before.remove(at as int);
                    assert forall|j: int| 0 <= j < left.len() implies (#[trigger] kept[j]).id
                        == left[j].id by {
                        if j < at {
                            assert(kept[j] == before[j] && left[j] == nodes[j]);
                        } else {
                            assert(kept[j] == before[j + 1] && left[j] == nodes[j + 1]);
                        }
                    }
                }
            },
            None => {
                proof {
                    lemma_without_id_absent(nodes, id@);
                    assert forall|j: int| 0 <= j < before.len() implies (#[trigger] before[j]).id
                        != id@ by {
                        assert(nodes[j].id != id@);
                    }
                    lemma_replicas_without_absent(before, id@);
                }
            },
        }
    }

    /// Adds a node with its manager; the node is reachable. A node that is
    /// already present under the same id is replaced, manager and all.
    pub fn add_replica(&mut self, node: DistributionNode, manager: M)
        requires
            old(self).wf(),
        ensures
            final(self).wf(),
            final(self)@.config == old(self)@.config,
            final(self)@.ring.nodes == without_id(old(self)@.ring.nodes, node.id@).push(node@),
            final(self)@.replicas == replicas_without(old(self)@.replicas, node.id@).push(
                ReplicaView { id: node.id@, store: manager.state(), reachable: true },
            ),
    {
        self.drop_replica(node.id.as_str());
        let ghost kept = self@.replicas;
        let ghost left = without_id(self@.ring.nodes, node.id@);
        let replica = Replica { node_id: node.id.clone(), manager, reachable: true };
        self.replicas.push(replica);
        assert(replicas_view(self.replicas@) =~= kept.push(replica@));
        self.ring.add_node(node);
        proof {
            let nodes = self@.ring.nodes;
            let now = self@.replicas;
            assert forall|j: int| 0 <= j < nodes.len() implies (#[trigger] now[j]).id
                == nodes[j].id by {
                if j < left.len() {
                    assert(now[j] == kept[j] && nodes[j] == left[j]);
                }
            }
        }
    }

    /// Removes the node called `node_id` and its manager. Naming a node that
    /// is not there is a membership failure.
    pub fn remove_replica(&mut self, node_id: &str) -> (result: Result<(), Error>)
        requires
            old(self).wf(),
        ensures
            final(self).wf(),
            final(self)@.config == old(self)@.config,
            result is Ok <==> replica_ids(old(self)@.replicas).contains(node_id@),
            result matches Err(e) ==> e.kind() == ErrorKind::Membership,
            final(self)@.ring.nodes == without_id(old(self)@.ring.nodes, node_id@),
            final(self)@.replicas == replicas_without(old(self)@.replicas, node_id@),
    {
        let known = self.ring.index_of(node_id);
        proof {
            let ids = replica_ids(self@.replicas);
            match known {
                Some(at) => {
                    assert(ids[at as int] == node_id@);
                },
                None => {
                    if ids.contains(node_id@) {
                        let j = choose|j: int| 0 <= j < ids.len() && ids[j] == node_id@;
                        assert(self@.ring.nodes[j].id == node_id@);
                    }
                },
            }
        }
        self.drop_replica(node_id);
        self.ring.remove_node(node_id);
        match known {
            Some(_) => Ok(()),
            None => Err(Error::Membership("no such node".to_owned())),
        }
    }

    /// Marks the node called `node_id` as reachable or not. Naming a node
    /// that is not there is a membership failure.
    pub fn set_reachable(&mut self, node_id: &str, reachable: bool) -> (result: Result<(), Error>)
        requires
            old(self).wf(),
        ensures
            final(self).wf(),
            final(self)@.config == old(self)@.config,
            final(self)@.ring == old(self)@.ring,
            result matches Err(e) ==> e.kind() == ErrorKind::Membership && final(self)@ == old(
                self,
            )@,
            result is Err <==> !replica_ids(old(self)@.replicas).contains(node_id@),
            result is Ok ==> exists|at: int|
                0 <= at < old(self)@.replicas.len() && (#[trigger] old(self)@.replicas[at]).id
                    == node_id@ && final(self)@.replicas == old(self)@.replicas.update(
                    at,
                    ReplicaView { reachable, ..old(self)@.replicas[at] },
                ),
    {
        let ghost before = self@.replicas;
        match self.ring.index_of(node_id) {
            Some(at) => {
                self.replicas[at].reachable = reachable;
                proof {
                    assert(replica_ids(before)[at as int] == node_id@);
                    assert(self@.replicas =~= before.update(
                        at as int,
                        ReplicaView { reachable, ..before[at as int] },
                    ));
                }
                Ok(())
            },
            None => {
                proof {
                    let ids = replica_ids(before);
                    if ids.contains(node_id@) {
                        let j = choose|j: int| 0 <= j < ids.len() && ids[j] == node_id@;
                        assert(self@.ring.nodes[j].id == node_id@);
                    }
                }
                Err(Error::Membership("no such node".to_owned()))
            },
        }
    }

    /// Hands out the events that the node called `node_id` has logged since
    /// the last call. Naming a node that is not there is a membership
    /// failure.
    pub fn take_events(&mut self, node_id: &str) -> (result: Result<Vec<ConsistencyEvent>, Error>)
        requires
            old(self).wf(),
        ensures
            final(self).wf(),
            final(self)@.config == old(self)@.config,
            final(self)@.ring == old(self)@.ring,
            result is Err <==> !replica_ids(old(self)@.replicas).contains(node_id@),
            result matches Err(e) ==> e.kind() == ErrorKind::Membership && final(self)@ == old(
                self,
            )@,
            result matches Ok(events) ==> exists|at: int|
                0 <= at < old(self)@.replicas.len() && (#[trigger] old(self)@.replicas[at]).id
                    == node_id@ && events_view(events@) == old(self)@.replicas[at].store.events
                    && final(self)@.replicas == with_store(
                    old(self)@.replicas,
                    at,
                    StoreView { events: Seq::empty(), ..old(self)@.replicas[at].store },
                ),
    {
        let ghost before = self@.replicas;
        match self.ring.index_of(node_id) {
            Some(at) => {
                assert(before[at as int] == self.replicas@[at as int]@);
                let events = self.replicas[at].manager.take_events();
                proof {
                    assert(replica_ids(before)[at as int] == node_id@);
                    assert(self@.replicas =~= with_store(
                        before,
                        at as int,
                        StoreView { events: Seq::empty(), ..before[at as int].store },
                    ));
                }
                Ok(events)
            },
            None => {
                proof {
                    let ids = replica_ids(before);
                    if ids.contains(node_id@) {
                        let j = choose|j: int| 0 <= j < ids.len() && ids[j] == node_id@;
                        assert(self@.ring.nodes[j].id == node_id@);
                    }
                }
                Err(Error::Membership("no such node".to_owned()))
            },
        }
    }

    /// The manager of the node called `node_id`, if the node is there.
    pub fn replica(&self, node_id: &str) -> (found: Option<&M>)
        requires
            self.wf(),
        ensures
            match found {
                Some(manager) => exists|at: int|
                    0 <= at < self@.replicas.len() && (#[trigger] self@.replicas[at]).id == node_id@
                        && manager.state() == self@.replicas[at].store,
                None => !replica_ids(self@.replicas).contains(node_id@),
            },
    {
        match self.ring.index_of(node_id) {
            Some(at) => {
                assert(self@.replicas[at as int] == self.replicas@[at as int]@);
                Some(&self.replicas[at].manager)
            },
            None => {
                proof {
                    let ids = replica_ids(self@.replicas);
                    if ids.contains(node_id@) {
                        let j = choose|j: int| 0 <= j < ids.len() && ids[j] == node_id@;
                        assert(self@.ring.nodes[j].id == node_id@);
                    }
                }
                None
            },
        }
    }
}

/// The ids and the reachability of the replicas are those of `before`, and
/// so is the reliability of their backends.
pub open spec fn same_nodes(before: Seq<ReplicaView>, after: Seq<ReplicaView>) -> bool {
    &&& after.len() == before.len()
    &&& forall|j: int|
        0 <= j < before.len() ==> (#[trigger] after[j]).id == before[j].id && after[j].reachable
            == before[j].reachable && after[j].store.reliable == before[j].store.reliable
}

/// The view of an optional value.
pub open spec fn answer_view(answer: Option<VersionedValue>) -> Option<VersionedView> {
    match answer {
        Some(value) => Some(value@),
        None => None,
    }
}

/// The views of a list of answers, in order.
pub open spec fn answers_view(answers: Seq<Option<VersionedValue>>) -> Seq<Option<VersionedView>> {
    answers.map_values(|a: Option<VersionedValue>| answer_view(a))
}

/// Whether two values are the same in every part.
fn same_value(a: &VersionedValue, b: &VersionedValue) -> (same: bool)
    ensures
        same == (a@ == b@),
{
    if a.version != b.version {
        return false;
    }
    if !bytes_equal(a.key.as_slice(), b.key.as_slice()) {
        return false;
    }
    if !bytes_equal(a.value.as_slice(), b.value.as_slice()) {
        return false;
    }
    let left = encode_context_bytes(&a.context);
    let right = encode_context_bytes(&b.context);
    proof {
        lemma_context_fits(a.context);
        lemma_context_fits(b.context);
        if left@ == right@ {
            lemma_context_bytes_injective(context_view(a.context), context_view(b.context));
        }
    }
    bytes_equal(left.as_slice(), right.as_slice())
}

/// Whether two answers are the same.
fn same_answer(a: &Option<VersionedValue>, b: &Option<VersionedValue>) -> (same: bool)
    ensures
        same == (answer_view(*a) == answer_view(*b)),
{
    match (a, b) {
        (Some(x), Some(y)) => same_value(x, y),
        (None, None) => true,
        _ => false,
    }
}

/// A value among the answers is among the candidates.
proof fn lemma_present_nonempty(answers: Seq<Option<VersionedView>>, i: int)
    requires
        0 <= i < answers.len(),
        answers[i] is Some,
    ensures
        present(answers).len() > 0,
    decreases answers.len(),
{
    if i < answers.len() - 1 {
        assert(answers.drop_last()[i] == answers[i]);
        lemma_present_nonempty(answers.drop_last(), i);
    }
}

impl<M: ConsistencyManager> ReplicaCoordinator<M> {
    /// The highest version that the reachable replicas of `key` hold.
    fn discover_version(&self, key: &[u8], to: &Vec<usize>) -> (highest: u64)
        requires
            forall|a: int| 0 <= a < to@.len() ==> (#[trigger] to@[a]) < self@.replicas.len(),
        ensures
            all_reliable(self@.replicas) ==> highest == highest_version(
                self@.replicas,
                owners_view(to@),
                key@,
            ),
    {
        let ghost views = self@.replicas;
        let ghost places = owners_view(to@);
        let mut highest: u64 = 0;
        let mut i: usize = 0;
        assert(places.take(0) =~= Seq::<int>::empty());
        while i < to.len()
            invariant
                0 <= i <= to.len(),
                views == self@.replicas,
                places == owners_view(to@),
                forall|a: int| 0 <= a < to@.len() ==> (#[trigger] to@[a]) < views.len(),
                all_reliable(views) ==> highest == highest_version(
                    views,
                    places.take(i as int),
                    key@,
                ),
            decreases to.len() - i,
        {
            let t = to[i];
            assert(places.take(i as int + 1).drop_last() =~= places.take(i as int));
            assert(places.take(i as int + 1).last() == t as int);
            assert(views[t as int] == self.replicas@[t as int]@);
            if self.replicas[t].reachable {
                match self.replicas[t].manager.last_version(key) {
                    Ok(Some(version)) => {
                        if version > highest {
                            highest = version;
                        }
                    },
                    _ => {},
                }
            }
            i = i + 1;
        }
        assert(places.take(to.len() as int) =~= places);
        highest
    }

    /// Writes `value` under `key` to the replicas of the key, all under one
    /// new version. Succeeds where at least the write quorum has stored
    /// it; what was stored stays where the quorum is missed.
    pub fn coordinated_put(&mut self, key: &[u8], value: &[u8]) -> (result: Result<
        VersionedValue,
        Error,
    >)
        requires
            old(self).wf(),
        ensures
            final(self).wf(),
            final(self)@.ring == old(self)@.ring,
            final(self)@.config == old(self)@.config,
            same_nodes(old(self)@.replicas, final(self)@.replicas),
            result matches Err(e) ==> e.kind() == ErrorKind::Consistency,
            result matches Ok(written) ==> written@.key == key@ && written@.value == value@
                && written@.context is None,
            all_reliable(old(self)@.replicas) ==> (final(self)@, value_result_view(result))
                == coordinated_put_result(old(self)@, key@, value@),
    {
        let to = self.ring.replica_indices(key, self.config.factor);
        let ghost places = owners_view(to@);
        let ghost before = self@.replicas;
        assert(places == targets(self@, key@));
        let highest = self.discover_version(key, &to);
        if highest == u64::MAX {
            return Err(Error::Consistency("the key has no version left".to_owned()));
        }
        let version: u64 = highest + 1;
        let mut acks: usize = 0;
        let mut i: usize = 0;
        assert(places.take(0) =~= Seq::<int>::empty());
        while i < to.len()
            invariant
                0 <= i <= to.len(),
                acks <= i,
                places == owners_view(to@),
                self.ring == old(self).ring,
                self.config == old(self).config,
                before == old(self)@.replicas,
                same_nodes(before, self@.replicas),
                forall|a: int| 0 <= a < to@.len() ==> (#[trigger] to@[a]) < before.len(),
                all_reliable(before) ==> (self@.replicas, acks as nat) == write_all(
                    before,
                    places.take(i as int),
                    key@,
                    value@,
                    version,
                ),
            decreases to.len() - i,
        {
            let t = to[i];
            let ghost now = self@.replicas;
            assert(places.take(i as int + 1).drop_last() =~= places.take(i as int));
            assert(places.take(i as int + 1).last() == t as int);
            assert(now[t as int] == self.replicas@[t as int]@);
            if self.replicas[t].reachable {
                let outcome = self.replicas[t].manager.put(
                    key,
                    copy_bytes(value),
                    Some(version),
                    None,
                );
                let stored = match outcome {
                    Ok(ConsistencyResult::Stored(_)) => true,
                    _ => false,
                };
                proof {
                    let after = self.replicas@[t as int]@;
                    assert(self@.replicas =~= with_store(now, t as int, after.store));
                    assert(same_nodes(before, self@.replicas)) by {
                        assert forall|j: int| 0 <= j < before.len() implies (
                        #[trigger] self@.replicas[j]).id == before[j].id
                            && self@.replicas[j].reachable == before[j].reachable
                            && self@.replicas[j].store.reliable == before[j].store.reliable by {
                            if j != t {
                                assert(self@.replicas[j] == now[j]);
                            }
                        }
                    }
                }
                if stored {
                    acks = acks + 1;
                }
            }
            i = i + 1;
        }
        assert(places.take(to.len() as int) =~= places);
        if acks >= self.config.write_quorum {
            Ok(
                VersionedValue {
                    key: copy_bytes(key),
                    value: copy_bytes(value),
                    version,
                    context: None,
                },
            )
        } else {
            Err(Error::Consistency("the write quorum was not met".to_owned()))
        }
    }
}

/// Copies an answer.
fn copy_answer(answer: &Option<VersionedValue>) -> (copy: Option<VersionedValue>)
    ensures
        answer_view(copy) == answer_view(*answer),
{
    match answer {
        Some(value) => Some(value.clone()),
        None => None,
    }
}

/// Whether all answers are the same.
fn answers_agree(answers: &Vec<Option<VersionedValue>>) -> (same: bool)
    ensures
        same == agree(answers_view(answers@)),
{
    let ghost views = answers_view(answers@);
    let mut i: usize = 1;
    while i < answers.len()
        invariant
            1 <= i,
            views == answers_view(answers@),
            forall|j: int| 0 <= j < i && j < views.len() ==> #[trigger] views[j] == views[0],
        decreases answers.len() - i,
    {
        assert(views[i as int] == answer_view(answers@[i as int]));
        assert(views[0] == answer_view(answers@[0]));
        if !same_answer(&answers[i], &answers[0]) {
            return false;
        }
        i = i + 1;
    }
    true
}

/// The values among the answers, in order.
fn collect_present(answers: &Vec<Option<VersionedValue>>) -> (candidates: Vec<VersionedValue>)
    ensures
        values_view(candidates@) == present(answers_view(answers@)),
{
    let ghost views = answers_view(answers@);
    let mut candidates: Vec<VersionedValue> = Vec::new();
    let mut i: usize = 0;
    assert(views.take(0) =~= Seq::empty());
    assert(values_view(candidates@) =~= present(views.take(0)));
    while i < answers.len()
        invariant
            0 <= i <= answers.len(),
            views == answers_view(answers@),
            values_view(candidates@) == present(views.take(i as int)),
        decreases answers.len() - i,
    {
        assert(views.take(i as int + 1).drop_last() =~= views.take(i as int));
        assert(views.take(i as int + 1).last() == answer_view(answers@[i as int]));
        let ghost before = values_view(candidates@);
        match &answers[i] {
            Some(value) => {
                let copy = value.clone();
                candidates.push(copy);
                assert(values_view(candidates@) =~= before.push(copy@));
            },
            None => {},
        }
        i = i + 1;
    }
    assert(views.take(answers.len() as int) =~= views);
    candidates
}

impl<M: ConsistencyManager> ReplicaCoordinator<M> {
    /// Asks the replicas of `key` in order until the read quorum has
    /// answered; gives who answered and what.
    fn gather(&self, key: &[u8], to: &Vec<usize>) -> (found: (
        Vec<usize>,
        Vec<Option<VersionedValue>>,
    ))
        requires
            forall|a: int| 0 <= a < to@.len() ==> (#[trigger] to@[a]) < self@.replicas.len(),
        ensures
            found.0@.len() == found.1@.len(),
            found.0@.len() <= self@.config.read_quorum,
            forall|a: int|
                0 <= a < found.0@.len() ==> (#[trigger] found.0@[a]) < self@.replicas.len(),
            all_reliable(self@.replicas) ==> owners_view(found.0@) == responders(
                self@.replicas,
                owners_view(to@),
                key@,
                self@.config.read_quorum as nat,
            ) && answers_view(found.1@) == answers_of(self@.replicas, owners_view(found.0@), key@),
    {
        let ghost views = self@.replicas;
        let ghost places = owners_view(to@);
        let quorum = self.config.read_quorum;
        let mut who: Vec<usize> = Vec::new();
        let mut answers: Vec<Option<VersionedValue>> = Vec::new();
        let mut i: usize = 0;
        assert(places.take(0) =~= Seq::<int>::empty());
        assert(owners_view(who@) =~= Seq::<int>::empty());
        assert(answers_view(answers@) =~= answers_of(views, owners_view(who@), key@));
        while i < to.len()
            invariant
                0 <= i <= to.len(),
                views == self@.replicas,
                places == owners_view(to@),
                quorum == self@.config.read_quorum,
                who@.len() == answers@.len(),
                who@.len() <= quorum,
                forall|a: int| 0 <= a < to@.len() ==> (#[trigger] to@[a]) < views.len(),
                forall|a: int| 0 <= a < who@.len() ==> (#[trigger] who@[a]) < views.len(),
                all_reliable(views) ==> owners_view(who@) == responders(
                    views,
                    places.take(i as int),
                    key@,
                    quorum as nat,
                ) && answers_view(answers@) == answers_of(views, owners_view(who@), key@),
            decreases to.len() - i,
        {
            let t = to[i];
            assert(places.take(i as int + 1).drop_last() =~= places.take(i as int));
            assert(places.take(i as int + 1).last() == t as int);
            assert(views[t as int] == self.replicas@[t as int]@);
            if who.len() < quorum && self.replicas[t].reachable {
                match self.replicas[t].manager.get(key) {
                    Ok(found) => {
                        let ghost who_before = owners_view(who@);
                        let ghost answers_before = answers_view(answers@);
                        let ghost view = answer_view(found);
                        who.push(t);
                        answers.push(found);
                        proof {
                            assert(owners_view(who@) =~= who_before.push(t as int));
                            assert(answers_view(answers@) =~= answers_before.push(view));
                            if all_reliable(views) {
                                assert(answers_of(views, who_before.push(t as int), key@)
                                    =~= answers_of(views, who_before, key@).push(
                                    answer_of(views, t as int, key@),
                                ));
                            }
                        }
                    },
                    Err(_) => {},
                }
            }
            i = i + 1;
        }
        assert(places.take(to.len() as int) =~= places);
        (who, answers)
    }

    /// Reads `key` from the read quorum. Where the answers agree that
    /// answer is returned. Where they differ the winner is settled at the
    /// first replica that answered, the others that answered are repaired,
    /// and the winner is returned.
    pub fn coordinated_get(&mut self, key: &[u8]) -> (result: Result<Option<VersionedValue>, Error>)
        requires
            old(self).wf(),
        ensures
            final(self).wf(),
            final(self)@.ring == old(self)@.ring,
            final(self)@.config == old(self)@.config,
            same_nodes(old(self)@.replicas, final(self)@.replicas),
            result matches Err(e) ==> e.kind() == ErrorKind::Consistency,
            all_reliable(old(self)@.replicas) ==> (final(self)@, get_view(result))
                == coordinated_get_result(old(self)@, key@),
    {
        let to = self.ring.replica_indices(key, self.config.factor);
        let ghost before = self@.replicas;
        assert(owners_view(to@) == targets(self@, key@));
        let (who, answers) = self.gather(key, &to);
        let ghost places = owners_view(who@);
        let ghost seen = answers_view(answers@);
        if who.len() < self.config.read_quorum {
            return Err(Error::Consistency("the read quorum was not met".to_owned()));
        }
        if who.len() == 0 {
            return Ok(None);
        }
        if answers_agree(&answers) {
            assert(seen[0] == answer_view(answers@[0]));
            return Ok(copy_answer(&answers[0]));
        }
        let candidates = collect_present(&answers);
        proof {
            let j = choose|j: int| 0 <= j < seen.len() && #[trigger] seen[j] != seen[0];
            if seen[j] is Some {
                lemma_present_nonempty(seen, j);
            } else {
                lemma_present_nonempty(seen, 0);
            }
        }
        let winner = pick_winner(key, &candidates).unwrap();
        let first = who[0];
        assert(before[first as int] == self.replicas@[first as int]@);
        let settled = self.replicas[first].manager.resolve_conflict(key, candidates);
        let ghost start = self@.replicas;
        let ghost rest = places.drop_first();
        proof {
            assert(start =~= with_store(before, first as int, self.replicas@[first as int]@.store));
            assert forall|j: int| 0 <= j < before.len() implies (#[trigger] start[j]).id
                == before[j].id && start[j].reachable == before[j].reachable
                && start[j].store.reliable == before[j].store.reliable by {}
            assert(rest.take(0) =~= Seq::<int>::empty());
        }
        let mut a: usize = 1;
        while a < who.len()
            invariant
                1 <= a <= who.len(),
                self.ring == old(self).ring,
                self.config == old(self).config,
                before == old(self)@.replicas,
                same_nodes(before, self@.replicas),
                same_nodes(before, start),
                places == owners_view(who@),
                rest == places.drop_first(),
                forall|b: int| 0 <= b < who@.len() ==> (#[trigger] who@[b]) < before.len(),
                all_reliable(before) ==> self@.replicas == repair_all(
                    start,
                    rest.take(a - 1),
                    key@,
                    winner@,
                ),
            decreases who.len() - a,
        {
            let t = who[a];
            let ghost now = self@.replicas;
            assert(rest.take(a as int).drop_last() =~= rest.take(a - 1));
            assert(rest.take(a as int).last() == t as int);
            assert(now[t as int] == self.replicas@[t as int]@);
            let _ = self.replicas[t].manager.read_repair(key, &winner);
            proof {
                let after = self.replicas@[t as int]@;
                assert(self@.replicas =~= with_store(now, t as int, after.store));
                assert(same_nodes(before, self@.replicas)) by {
                    assert forall|j: int| 0 <= j < before.len() implies (
                    #[trigger] self@.replicas[j]).id == before[j].id && self@.replicas[j].reachable
                        == before[j].reachable && self@.replicas[j].store.reliable
                        == before[j].store.reliable by {
                        if j != t {
                            assert(self@.replicas[j] == now[j]);
                        }
                    }
                }
            }
            a = a + 1;
        }
        assert(rest.take(who.len() - 1) =~= rest);
        Ok(Some(winner))
    }
}

} // verus!
