//! Key placement on a weighted consistent-hash ring.
//!
//! Every node contributes `weight` virtual points to a 64-bit hash space.
//! A key is owned by the node whose point is the first at or after the
//! key's digest, wrapping around at the end of the space. Replicas are the
//! distinct nodes met while walking on from there.
//!
//! The ring is a function of the node list alone: it is rebuilt whenever
//! the list changes, and where two nodes hash to the same position the one
//! that comes first in the list owns it.

use std::collections::hash_map::DefaultHasher;
use std::hash::Hasher;
use vstd::bytes::{spec_u64_to_le_bytes, u64_to_le_bytes};
use vstd::prelude::*;
use vstd::std_specs::hash::DefaultHasherAdditionalSpecFns;
use vstd::utf8::encode_utf8;

verus! {

/// A physical node and its relative capacity.
#[derive(Debug, PartialEq, Eq)]
pub struct DistributionNode {
    pub id: String,
    pub weight: u64,
}

/// The mathematical content of a [`DistributionNode`].
pub ghost struct NodeView {
    pub id: Seq<char>,
    pub weight: u64,
}

impl View for DistributionNode {
    type V = NodeView;

    open spec fn view(&self) -> NodeView {
        NodeView { id: self.id@, weight: self.weight }
    }
}

impl Clone for DistributionNode {
    fn clone(&self) -> (copy: Self)
        ensures
            copy@ == self@,
    {
        DistributionNode { id: self.id.clone(), weight: self.weight }
    }
}

/// One position of the hash space and the index, in the node list, of the
/// node that owns it.
#[derive(Debug, Clone, Copy, PartialEq, Eq, Structural)]
pub struct RingPoint {
    pub position: u64,
    pub owner: usize,
}

/// The 64-bit digest of a byte string: what a fresh default hasher reports
/// after being fed exactly these bytes in one write.
pub open spec fn digest(data: Seq<u8>) -> u64 {
    DefaultHasher::spec_finish(seq![data])
}

/// The position of virtual point number `replica` of the node called `id`:
/// the digest a fresh default hasher reports after the id's UTF-8 bytes and
/// then the eight little-endian bytes of `replica`.
pub open spec fn point_position(id: Seq<char>, replica: u64) -> u64 {
    DefaultHasher::spec_finish(seq![encode_utf8(id), spec_u64_to_le_bytes(replica)])
}

/// Whether one of the first `limit` virtual points of `id` lies at `position`.
pub open spec fn covers_upto(id: Seq<char>, limit: u64, position: u64) -> bool {
    exists|replica: u64| replica < limit && #[trigger] point_position(id, replica) == position
}

/// Whether `node` has a virtual point at `position`.
pub open spec fn node_covers(node: NodeView, position: u64) -> bool {
    covers_upto(node.id, node.weight, position)
}

/// Whether node number `j` owns `position`: it has a virtual point there
/// and no node before it in the list has.
pub open spec fn claims(nodes: Seq<NodeView>, j: int, position: u64) -> bool {
    &&& 0 <= j < nodes.len()
    &&& node_covers(nodes[j], position)
    &&& forall|k: int| 0 <= k < j ==> !node_covers(#[trigger] nodes[k], position)
}

/// Whether some point of the ring lies at `position`.
pub open spec fn has_position(points: Seq<RingPoint>, position: u64) -> bool {
    exists|i: int| 0 <= i < points.len() && #[trigger] points[i].position == position
}

/// Positions grow strictly along the ring, so each occurs once.
pub open spec fn strictly_ordered(points: Seq<RingPoint>) -> bool {
    forall|i: int, j: int|
        0 <= i < j < points.len() ==> #[trigger] points[i].position < #[trigger] points[j].position
}

/// Node ids occur once in the list.
pub open spec fn distinct_ids(nodes: Seq<NodeView>) -> bool {
    forall|i: int, j: int|
        0 <= i < nodes.len() && 0 <= j < nodes.len() && i != j ==> #[trigger] nodes[i].id
            != #[trigger] nodes[j].id
}

/// `points` is the ring of `nodes`: ordered by position, every point owned
/// by the node that claims its position, and every virtual point of every
/// node present.
pub open spec fn ring_of(nodes: Seq<NodeView>, points: Seq<RingPoint>) -> bool {
    &&& strictly_ordered(points)
    &&& forall|i: int|
        0 <= i < points.len() ==> claims(
            nodes,
            (#[trigger] points[i]).owner as int,
            points[i].position,
        )
    &&& forall|j: int, replica: u64|
        0 <= j < nodes.len() && replica < nodes[j].weight ==> has_position(
            points,
            #[trigger] point_position(nodes[j].id, replica),
        )
}

/// The index of the first point at or after `target`; the number of points
/// where there is none.
pub open spec fn first_at_or_after(points: Seq<RingPoint>, target: u64) -> int
    decreases points.len(),
{
    if points.len() == 0 {
        0
    } else if points[0].position >= target {
        0
    } else {
        1 + first_at_or_after(points.drop_first(), target)
    }
}

/// Where the clockwise walk for `target` starts: at the first point at or
/// after it, or at the first point of the ring once the end is passed.
pub open spec fn successor_index(points: Seq<RingPoint>, target: u64) -> int {
    let i = first_at_or_after(points, target);
    if i >= points.len() {
        0
    } else {
        i
    }
}

/// The owners met on the first `steps` points of the clockwise walk from
/// `start`, each listed once, in the order in which they are first met.
pub open spec fn walk_owners(points: Seq<RingPoint>, start: int, steps: nat) -> Seq<int>
    decreases steps,
{
    if steps == 0 || points.len() == 0 {
        Seq::empty()
    } else {
        let before = walk_owners(points, start, (steps - 1) as nat);
        let owner = points[(start + steps - 1) % (points.len() as int)].owner as int;
        if before.contains(owner) {
            before
        } else {
            before.push(owner)
        }
    }
}

/// The preference list for `target`: every node that owns a point, in the
/// order of the clockwise walk that starts at the target's successor.
pub open spec fn preference(points: Seq<RingPoint>, target: u64) -> Seq<int> {
    walk_owners(points, successor_index(points, target), points.len())
}

/// The node indices that own at least one point of the ring.
pub open spec fn placed(points: Seq<RingPoint>) -> Set<int> {
    Set::new(|j: int| exists|i: int| 0 <= i < points.len() && #[trigger] points[i].owner == j)
}

/// Hashes `data` into the 64-bit space shared by keys and ring points.
pub fn hash64(data: &[u8]) -> (h: u64)
    ensures
        h == digest(data@),
{
    let mut hasher = DefaultHasher::new();
    hasher.write(data);
    assert(hasher@ =~= seq![data@]);
    hasher.finish()
}

/// Computes the position of one virtual point.
fn position_of(id: &str, replica: u64) -> (p: u64)
    ensures
        p == point_position(id@, replica),
{
    let mut hasher = DefaultHasher::new();
    hasher.write(id.as_bytes());
    let tail = u64_to_le_bytes(replica);
    hasher.write(tail.as_slice());
    assert(hasher@ =~= seq![encode_utf8(id@), spec_u64_to_le_bytes(replica)]);
    hasher.finish()
}

/// Characterises [`first_at_or_after`] without recursion.
pub proof fn lemma_first_at_or_after(points: Seq<RingPoint>, target: u64)
    ensures
        0 <= first_at_or_after(points, target) <= points.len(),
        forall|i: int|
            0 <= i < first_at_or_after(points, target) ==> (#[trigger] points[i]).position < target,
        first_at_or_after(points, target) < points.len() ==> points[first_at_or_after(
            points,
            target,
        )].position >= target,
    decreases points.len(),
{
    if points.len() > 0 && points[0].position < target {
        let rest = points.drop_first();
        lemma_first_at_or_after(rest, target);
        let r = first_at_or_after(rest, target);
        assert forall|i: int| 0 <= i < 1 + r implies (#[trigger] points[i]).position < target by {
            if i > 0 {
                assert(points[i] == rest[i - 1]);
            }
        }
        if 1 + r < points.len() {
            assert(points[1 + r] == rest[r]);
        }
    }
}

/// An index that splits the ring around `target` is [`first_at_or_after`].
pub proof fn lemma_first_at_or_after_unique(points: Seq<RingPoint>, target: u64, at: int)
    requires
        0 <= at <= points.len(),
        forall|i: int| 0 <= i < at ==> (#[trigger] points[i]).position < target,
        at < points.len() ==> points[at].position >= target,
    ensures
        first_at_or_after(points, target) == at,
{
    lemma_first_at_or_after(points, target);
    let f = first_at_or_after(points, target);
    if f < at {
        assert(points[f].position < target);
    } else if at < f {
        assert(points[at].position < target);
    }
}

/// Finds the first point at or after `target` by bisection.
fn lower_bound(points: &Vec<RingPoint>, target: u64) -> (at: usize)
    requires
        strictly_ordered(points@),
    ensures
        at == first_at_or_after(points@, target),
        at <= points.len(),
{
    let mut lo: usize = 0;
    let mut hi: usize = points.len();
    while lo < hi
        invariant
            0 <= lo <= hi <= points.len(),
            strictly_ordered(points@),
            forall|i: int| 0 <= i < lo ==> (#[trigger] points@[i]).position < target,
            forall|i: int| hi <= i < points.len() ==> (#[trigger] points@[i]).position >= target,
        decreases hi - lo,
    {
        let mid: usize = lo + (hi - lo) / 2;
        if points[mid].position < target {
            assert forall|i: int| 0 <= i < mid + 1 implies (#[trigger] points@[i]).position
                < target by {
                if i < mid {
                    assert(points@[i].position < points@[mid as int].position);
                }
            }
            lo = mid + 1;
        } else {
            assert forall|i: int| mid <= i < points.len() implies (#[trigger] points@[i]).position
                >= target by {
                if i > mid {
                    assert(points@[mid as int].position < points@[i].position);
                }
            }
            hi = mid;
        }
    }
    proof {
        lemma_first_at_or_after_unique(points@, target, lo as int);
    }
    lo
}

/// The views of a list of nodes, in order.
pub open spec fn node_views(nodes: Seq<DistributionNode>) -> Seq<NodeView> {
    nodes.map_values(|n: DistributionNode| n@)
}

/// How many virtual points of node `k` have been placed once the nodes
/// before `j` are done and `limit` points of node `j` itself.
spec fn placed_limit(nodes: Seq<NodeView>, k: int, j: int, limit: u64) -> u64 {
    if k < j {
        nodes[k].weight
    } else {
        limit
    }
}

/// `points` is the ring of the nodes before `j` together with the first
/// `limit` virtual points of node `j`.
spec fn ring_partial(nodes: Seq<NodeView>, j: int, limit: u64, points: Seq<RingPoint>) -> bool {
    &&& strictly_ordered(points)
    &&& forall|i: int|
        0 <= i < points.len() ==> {
            let o = (#[trigger] points[i]).owner as int;
            &&& 0 <= o <= j
            &&& o < nodes.len()
            &&& covers_upto(nodes[o].id, placed_limit(nodes, o, j, limit), points[i].position)
            &&& forall|k: int| 0 <= k < o ==> !node_covers(#[trigger] nodes[k], points[i].position)
        }
    &&& forall|k: int, replica: u64|
        0 <= k <= j && k < nodes.len() && replica < placed_limit(nodes, k, j, limit)
            ==> has_position(points, #[trigger] point_position(nodes[k].id, replica))
}

proof fn lemma_partial_next_node(nodes: Seq<NodeView>, j: int, points: Seq<RingPoint>)
    requires
        0 <= j < nodes.len(),
        ring_partial(nodes, j, nodes[j].weight, points),
    ensures
        ring_partial(nodes, j + 1, 0, points),
{
    assert forall|i: int| 0 <= i < points.len() implies {
        let o = (#[trigger] points[i]).owner as int;
        &&& 0 <= o <= j + 1
        &&& o < nodes.len()
        &&& covers_upto(nodes[o].id, placed_limit(nodes, o, j + 1, 0), points[i].position)
        &&& forall|k: int| 0 <= k < o ==> !node_covers(#[trigger] nodes[k], points[i].position)
    } by {
        let o = points[i].owner as int;
        assert(placed_limit(nodes, o, j, nodes[j].weight) == placed_limit(nodes, o, j + 1, 0));
    }
    assert forall|k: int, replica: u64|
        0 <= k <= j + 1 && k < nodes.len() && replica < placed_limit(
            nodes,
            k,
            j + 1,
            0,
        ) implies has_position(points, #[trigger] point_position(nodes[k].id, replica)) by {
        assert(replica < placed_limit(nodes, k, j, nodes[j].weight));
    }
}

proof fn lemma_partial_skip(nodes: Seq<NodeView>, j: int, limit: u64, points: Seq<RingPoint>)
    requires
        0 <= j < nodes.len(),
        limit < nodes[j].weight,
        ring_partial(nodes, j, limit, points),
        has_position(points, point_position(nodes[j].id, limit)),
    ensures
        ring_partial(nodes, j, (limit + 1) as u64, points),
{
    let next = (limit + 1) as u64;
    assert forall|i: int| 0 <= i < points.len() implies {
        let o = (#[trigger] points[i]).owner as int;
        &&& 0 <= o <= j
        &&& o < nodes.len()
        &&& covers_upto(nodes[o].id, placed_limit(nodes, o, j, next), points[i].position)
        &&& forall|k: int| 0 <= k < o ==> !node_covers(#[trigger] nodes[k], points[i].position)
    } by {
        let o = points[i].owner as int;
        let r = choose|r: u64|
            r < placed_limit(nodes, o, j, limit) && #[trigger] point_position(nodes[o].id, r)
                == points[i].position;
        assert(r < placed_limit(nodes, o, j, next));
    }
    assert forall|k: int, replica: u64|
        0 <= k <= j && k < nodes.len() && replica < placed_limit(
            nodes,
            k,
            j,
            next,
        ) implies has_position(points, #[trigger] point_position(nodes[k].id, replica)) by {
        if !(k == j && replica == limit) {
            assert(replica < placed_limit(nodes, k, j, limit));
        }
    }
}

proof fn lemma_partial_insert(
    nodes: Seq<NodeView>,
    j: int,
    limit: u64,
    points: Seq<RingPoint>,
    at: int,
    point: RingPoint,
)
    requires
        0 <= j < nodes.len(),
        limit < nodes[j].weight,
        ring_partial(nodes, j, limit, points),
        point.position == point_position(nodes[j].id, limit),
        point.owner == j,
        at == first_at_or_after(points, point.position),
        !has_position(points, point.position),
    ensures
        ring_partial(nodes, j, (limit + 1) as u64, points.insert(at, point)),
{
    let next = (limit + 1) as u64;
    let p = point.position;
    let after = points.insert(at, point);
    lemma_first_at_or_after(points, p);
    assert(after.len() == points.len() + 1);
    assert forall|i: int| 0 <= i < after.len() implies #[trigger] after[i] == (if i < at {
        points[i]
    } else if i == at {
        point
    } else {
        points[i - 1]
    }) by {}
    assert forall|i: int| at <= i < points.len() implies (#[trigger] points[i]).position > p by {
        assert(points[at].position >= p);
        if i > at {
            assert(points[at].position < points[i].position);
        }
    }
    assert(strictly_ordered(after)) by {
        assert forall|a: int, b: int| 0 <= a < b < after.len() implies (#[trigger] after[a]).position
            < (#[trigger] after[b]).position by {
            let a0 = if a < at { a } else { a - 1 };
            let b0 = if b < at { b } else { b - 1 };
            if a != at && b != at {
                assert(points[a0].position < points[b0].position);
            } else if a == at {
                assert(points[b0].position > p);
            } else {
                assert(points[a0].position < p);
            }
        }
    }
    assert forall|i: int| 0 <= i < after.len() implies {
        let o = (#[trigger] after[i]).owner as int;
        &&& 0 <= o <= j
        &&& o < nodes.len()
        &&& covers_upto(nodes[o].id, placed_limit(nodes, o, j, next), after[i].position)
        &&& forall|k: int| 0 <= k < o ==> !node_covers(#[trigger] nodes[k], after[i].position)
    } by {
        if i == at {
            assert(point_position(nodes[j].id, limit) == p);
            assert(covers_upto(nodes[j].id, next, p));
            assert forall|k: int| 0 <= k < j implies !node_covers(#[trigger] nodes[k], p) by {
                if node_covers(nodes[k], p) {
                    let r = choose|r: u64|
                        r < nodes[k].weight && #[trigger] point_position(nodes[k].id, r) == p;
                    assert(r < placed_limit(nodes, k, j, limit));
                    assert(has_position(points, point_position(nodes[k].id, r)));
                }
            }
        } else {
            let i0 = if i < at { i } else { i - 1 };
            assert(after[i] == points[i0]);
            let o = points[i0].owner as int;
            let r = choose|r: u64|
                r < placed_limit(nodes, o, j, limit) && #[trigger] point_position(nodes[o].id, r)
                    == points[i0].position;
            assert(r < placed_limit(nodes, o, j, next));
        }
    }
    assert forall|k: int, replica: u64|
        0 <= k <= j && k < nodes.len() && replica < placed_limit(
            nodes,
            k,
            j,
            next,
        ) implies has_position(after, #[trigger] point_position(nodes[k].id, replica)) by {
        let q = point_position(nodes[k].id, replica);
        if k == j && replica == limit {
            assert(after[at].position == q);
        } else {
            assert(replica < placed_limit(nodes, k, j, limit));
            assert(has_position(points, q));
            let i0 = choose|i0: int| 0 <= i0 < points.len() && #[trigger] points[i0].position == q;
            let i1 = if i0 < at { i0 } else { i0 + 1 };
            assert(after[i1].position == q);
        }
    }
}

proof fn lemma_partial_done(nodes: Seq<NodeView>, points: Seq<RingPoint>)
    requires
        ring_partial(nodes, nodes.len() as int, 0, points),
    ensures
        ring_of(nodes, points),
{
    let n = nodes.len() as int;
    assert forall|i: int| 0 <= i < points.len() implies claims(
        nodes,
        (#[trigger] points[i]).owner as int,
        points[i].position,
    ) by {
        let o = points[i].owner as int;
        assert(placed_limit(nodes, o, n, 0) == nodes[o].weight);
    }
    assert forall|j: int, replica: u64|
        0 <= j < nodes.len() && replica < nodes[j].weight implies has_position(
        points,
        #[trigger] point_position(nodes[j].id, replica),
    ) by {
        assert(replica < placed_limit(nodes, j, n, 0));
    }
}

/// Builds the ring of a node list from nothing.
fn build_points(nodes: &Vec<DistributionNode>) -> (points: Vec<RingPoint>)
    ensures
        ring_of(node_views(nodes@), points@),
{
    let ghost views = node_views(nodes@);
    let mut points: Vec<RingPoint> = Vec::new();
    let mut j: usize = 0;
    while j < nodes.len()
        invariant
            0 <= j <= nodes.len(),
            views == node_views(nodes@),
            ring_partial(views, j as int, 0, points@),
        decreases nodes.len() - j,
    {
        let weight: u64 = nodes[j].weight;
        let mut replica: u64 = 0;
        assert(views[j as int] == nodes@[j as int]@);
        while replica < weight
            invariant
                0 <= j < nodes.len(),
                views == node_views(nodes@),
                views[j as int] == nodes@[j as int]@,
                weight == nodes@[j as int].weight,
                replica <= weight,
                ring_partial(views, j as int, replica, points@),
            decreases weight - replica,
        {
            let position = position_of(nodes[j].id.as_str(), replica);
            let at = lower_bound(&points, position);
            proof {
                lemma_first_at_or_after(points@, position);
            }
            if at < points.len() && points[at].position == position {
                proof {
                    lemma_partial_skip(views, j as int, replica, points@);
                }
            } else {
                let point = RingPoint { position, owner: j };
                proof {
                    if has_position(points@, position) {
                        let i = choose|i: int|
                            0 <= i < points@.len() && #[trigger] points@[i].position == position;
                        if i < at {
                            assert(points@[i].position < position);
                        } else if i > at {
                            assert(points@[at as int].position < points@[i].position);
                        }
                    }
                    lemma_partial_insert(views, j as int, replica, points@, at as int, point);
                }
                points.insert(at, point);
            }
            replica = replica + 1;
        }
        proof {
            lemma_partial_next_node(views, j as int, points@);
        }
        j = j + 1;
    }
    proof {
        lemma_partial_done(views, points@);
    }
    points
}

/// The node list without the node called `id`, order kept.
pub open spec fn without_id(nodes: Seq<NodeView>, id: Seq<char>) -> Seq<NodeView>
    decreases nodes.len(),
{
    if nodes.len() == 0 {
        nodes
    } else {
        let rest = without_id(nodes.drop_last(), id);
        if nodes.last().id == id {
            rest
        } else {
            rest.push(nodes.last())
        }
    }
}

/// The shorter of a requested count and what is available.
pub open spec fn at_most(wanted: nat, available: nat) -> nat {
    if wanted < available {
        wanted
    } else {
        available
    }
}

/// A strategy that decides which nodes hold a key.
pub trait DistributionStrategy {
    /// The strategy's internal invariant.
    spec fn valid(&self) -> bool;

    /// The nodes that are present, in the order in which they were added.
    spec fn members(&self) -> Seq<NodeView>;

    /// The nodes that hold `key`, most preferred first, each listed once.
    spec fn placement(&self, key: Seq<u8>) -> Seq<NodeView>;

    /// Adds a node. A node that is already present under the same id is
    /// replaced, so ids stay unique.
    fn add_node(&mut self, node: DistributionNode)
        requires
            old(self).valid(),
        ensures
            final(self).valid(),
            final(self).members() == without_id(old(self).members(), node.id@).push(node@),
    ;

    /// Removes the node called `node_id`, if there is one.
    fn remove_node(&mut self, node_id: &str)
        requires
            old(self).valid(),
        ensures
            final(self).valid(),
            final(self).members() == without_id(old(self).members(), node_id@),
    ;

    /// The node that owns `key`; none where no node holds anything.
    fn get_primary(&self, key: &[u8]) -> (primary: Option<DistributionNode>)
        requires
            self.valid(),
        ensures
            match primary {
                Some(node) => self.placement(key@).len() > 0 && node@ == self.placement(key@)[0],
                None => self.placement(key@).len() == 0,
            },
    ;

    /// The first `replica_count` nodes that hold `key`, primary first; all
    /// of them where there are fewer.
    fn get_replicas(&self, key: &[u8], replica_count: usize) -> (replicas: Vec<DistributionNode>)
        requires
            self.valid(),
        ensures
            node_views(replicas@) == self.placement(key@).take(
                at_most(replica_count as nat, self.placement(key@).len()) as int,
            ),
            replicas@.len() == at_most(replica_count as nat, self.placement(key@).len()),
    ;

    /// Every node that is present.
    fn all_nodes(&self) -> (nodes: Vec<DistributionNode>)
        requires
            self.valid(),
        ensures
            node_views(nodes@) == self.members(),
    ;
}

/// Weighted consistent hashing over a sorted ring of virtual points.
pub struct ConsistentHashRing {
    nodes: Vec<DistributionNode>,
    points: Vec<RingPoint>,
}

/// The mathematical content of a [`ConsistentHashRing`].
pub ghost struct RingView {
    pub nodes: Seq<NodeView>,
    pub points: Seq<RingPoint>,
}

/// The nodes that the walk for `target` meets, in order.
pub open spec fn placement_of(ring: RingView, target: u64) -> Seq<NodeView> {
    preference(ring.points, target).map_values(|j: int| ring.nodes[j])
}

impl View for ConsistentHashRing {
    type V = RingView;

    closed spec fn view(&self) -> RingView {
        RingView { nodes: node_views(self.nodes@), points: self.points@ }
    }
}

impl ConsistentHashRing {
    /// Ids are unique and the points are the ring of the nodes.
    pub open spec fn wf(&self) -> bool {
        &&& distinct_ids(self@.nodes)
        &&& ring_of(self@.nodes, self@.points)
    }

    /// A ring without nodes.
    pub fn new() -> (ring: Self)
        ensures
            ring.wf(),
            ring@.nodes.len() == 0,
            ring@.points.len() == 0,
    {
        let ring = ConsistentHashRing { nodes: Vec::new(), points: Vec::new() };
        assert(ring@.nodes =~= Seq::<NodeView>::empty());
        ring
    }

    /// The points of the ring, in order of position.
    pub fn points(&self) -> (points: Vec<RingPoint>)
        ensures
            points@ == self@.points,
    {
        let mut points: Vec<RingPoint> = Vec::new();
        let mut i: usize = 0;
        while i < self.points.len()
            invariant
                0 <= i <= self.points.len(),
                points@ == self@.points.take(i as int),
            decreases self.points.len() - i,
        {
            points.push(self.points[i]);
            assert(self@.points.take(i as int + 1) =~= self@.points.take(i as int).push(
                self@.points[i as int],
            ));
            i = i + 1;
        }
        assert(self@.points.take(self.points.len() as int) =~= self@.points);
        points
    }

    /// How many nodes are present.
    pub fn node_count(&self) -> (count: usize)
        ensures
            count == self@.nodes.len(),
    {
        self.nodes.len()
    }

    /// Where the node called `id` stands in the node list, if it is present.
    pub fn index_of(&self, id: &str) -> (found: Option<usize>)
        ensures
            match found {
                Some(j) => j < self@.nodes.len() && self@.nodes[j as int].id == id@,
                None => forall|j: int| 0 <= j < self@.nodes.len() ==> (#[trigger] self@.nodes[j]).id
                    != id@,
            },
    {
        let wanted: String = id.to_owned();
        let mut j: usize = 0;
        while j < self.nodes.len()
            invariant
                0 <= j <= self.nodes.len(),
                wanted@ == id@,
                forall|k: int| 0 <= k < j ==> (#[trigger] self@.nodes[k]).id != id@,
            decreases self.nodes.len() - j,
        {
            assert(self@.nodes[j as int] == self.nodes@[j as int]@);
            if self.nodes[j].id == wanted {
                return Some(j);
            }
            j = j + 1;
        }
        None
    }

    /// The places in the node list of the first `replica_count` nodes that
    /// hold `key`, primary first; of all of them where there are fewer.
    pub fn replica_indices(&self, key: &[u8], replica_count: usize) -> (chosen: Vec<usize>)
        requires
            self.wf(),
        ensures
            owners_view(chosen@) == preference(self@.points, digest(key@)).take(
                at_most(
                    replica_count as nat,
                    preference(self@.points, digest(key@)).len(),
                ) as int,
            ),
            forall|a: int| 0 <= a < chosen@.len() ==> (#[trigger] chosen@[a]) < self@.nodes.len(),
    {
        let mut chosen: Vec<usize> = Vec::new();
        let total = self.points.len();
        let target = hash64(key);
        if total == 0 || replica_count == 0 {
            assert(owners_view(chosen@) =~= preference(self@.points, target).take(0));
            return chosen;
        }
        let mut start = lower_bound(&self.points, target);
        if start >= total {
            start = 0;
        }
        let gap = total - start;
        let mut step: usize = 0;
        let ghost points = self@.points;
        let ghost nodes = self@.nodes;
        assert(owners_view(chosen@) =~= walk_owners(points, start as int, 0));
        while step < total && chosen.len() < replica_count
            invariant
                self.wf(),
                points == self@.points,
                nodes == self@.nodes,
                total == points.len(),
                total > 0,
                0 <= start < total,
                gap == total - start,
                0 <= step <= total,
                chosen.len() <= replica_count,
                owners_view(chosen@) == walk_owners(points, start as int, step as nat),
                forall|a: int| 0 <= a < chosen@.len() ==> (#[trigger] chosen@[a]) < nodes.len(),
            decreases total - step,
        {
            let at = if step < gap {
                start + step
            } else {
                step - gap
            };
            proof {
                lemma_wrap(start as int, step as int, total as int);
            }
            let owner = self.points[at].owner;
            assert(claims(nodes, points[at as int].owner as int, points[at as int].position));
            let ghost before = owners_view(chosen@);
            if !already_chosen(&chosen, owner) {
                chosen.push(owner);
                assert(owners_view(chosen@) =~= before.push(owner as int));
            }
            step = step + 1;
        }
        proof {
            let all = preference(points, target);
            lemma_walk_extends(points, start as int, step as nat, total as nat);
            let n = at_most(replica_count as nat, all.len()) as int;
            assert(all.take(n) =~= owners_view(chosen@));
        }
        chosen
    }
}

/// Copies the nodes whose id differs from `id`.
fn nodes_without(nodes: &Vec<DistributionNode>, id: &str) -> (kept: Vec<DistributionNode>)
    requires
        distinct_ids(node_views(nodes@)),
    ensures
        node_views(kept@) == without_id(node_views(nodes@), id@),
        distinct_ids(node_views(kept@)),
        forall|a: int| 0 <= a < kept@.len() ==> (#[trigger] kept@[a]).id@ != id@,
{
    let ghost views = node_views(nodes@);
    let wanted: String = id.to_owned();
    let mut kept: Vec<DistributionNode> = Vec::new();
    let mut i: usize = 0;
    assert(views.take(0) =~= Seq::<NodeView>::empty());
    assert(node_views(kept@) =~= without_id(views.take(0), id@));
    while i < nodes.len()
        invariant
            0 <= i <= nodes.len(),
            views == node_views(nodes@),
            wanted@ == id@,
            distinct_ids(views),
            node_views(kept@) == without_id(views.take(i as int), id@),
            forall|a: int| 0 <= a < kept@.len() ==> (#[trigger] kept@[a]).id@ != id@,
            forall|a: int|
                0 <= a < kept@.len() ==> exists|b: int|
                    0 <= b < i && (#[trigger] kept@[a])@ == views[b],
            distinct_ids(node_views(kept@)),
        decreases nodes.len() - i,
    {
        let ghost before = node_views(kept@);
        assert(views.take(i as int + 1).drop_last() =~= views.take(i as int));
        assert(views.take(i as int + 1).last() == views[i as int]);
        assert(views[i as int] == nodes@[i as int]@);
        let goes = nodes[i].id == wanted;
        if !goes {
            let copy = nodes[i].clone();
            proof {
                assert forall|a: int| 0 <= a < kept@.len() implies (#[trigger] kept@[a])@.id
                    != copy@.id by {
                    let b = choose|b: int| 0 <= b < i && kept@[a]@ == views[b];
                    assert(views[b].id != views[i as int].id);
                }
            }
            kept.push(copy);
            assert(node_views(kept@) =~= before.push(copy@));
            assert forall|a: int| 0 <= a < kept@.len() implies exists|b: int|
                0 <= b < i + 1 && (#[trigger] kept@[a])@ == views[b] by {
                if a < kept@.len() - 1 {
                    let b = choose|b: int| 0 <= b < i && before[a] == views[b];
                    assert(kept@[a]@ == before[a]);
                    assert(0 <= b < i + 1 && kept@[a]@ == views[b]);
                } else {
                    assert(kept@[a]@ == views[i as int]);
                }
            }
            assert(distinct_ids(node_views(kept@))) by {
                let now = node_views(kept@);
                assert forall|a: int, b: int|
                    0 <= a < now.len() && 0 <= b < now.len() && a != b implies #[trigger] now[a].id
                    != #[trigger] now[b].id by {
                    let last = now.len() - 1;
                    if a < last && b < last {
                        assert(now[a] == before[a] && now[b] == before[b]);
                    } else if a == last {
                        assert(now[b] == kept@[b]@);
                    } else {
                        assert(now[a] == kept@[a]@);
                    }
                }
            }
        }
        i = i + 1;
    }
    assert(views.take(nodes.len() as int) =~= views);
    kept
}

/// Where a walk that started at `start` stands after `step` points.
proof fn lemma_wrap(start: int, step: int, total: int)
    requires
        0 <= start < total,
        0 <= step < total,
    ensures
        (start + step) % total == if start + step < total {
            start + step
        } else {
            start + step - total
        },
{
    if start + step < total {
        vstd::arithmetic::div_mod::lemma_small_mod((start + step) as nat, total as nat);
    } else {
        vstd::arithmetic::div_mod::lemma_small_mod((start + step - total) as nat, total as nat);
        vstd::arithmetic::div_mod::lemma_mod_add_multiples_vanish(start + step - total, total);
    }
}

/// A longer walk only appends to what a shorter one has listed.
pub proof fn lemma_walk_extends(points: Seq<RingPoint>, start: int, shorter: nat, longer: nat)
    requires
        shorter <= longer,
    ensures
        walk_owners(points, start, shorter).len() <= walk_owners(points, start, longer).len(),
        walk_owners(points, start, longer).take(walk_owners(points, start, shorter).len() as int)
            == walk_owners(points, start, shorter),
    decreases longer,
{
    let short = walk_owners(points, start, shorter);
    if shorter == longer {
        assert(short.take(short.len() as int) =~= short);
    } else if points.len() == 0 {
        assert(short.take(short.len() as int) =~= short);
    } else {
        let before = walk_owners(points, start, (longer - 1) as nat);
        lemma_walk_extends(points, start, shorter, (longer - 1) as nat);
        let long = walk_owners(points, start, longer);
        assert(long.take(short.len() as int) =~= before.take(short.len() as int));
    }
}

/// The walk lists exactly the owners of the points it passes, each once.
pub proof fn lemma_walk_content(points: Seq<RingPoint>, start: int, steps: nat)
    requires
        points.len() > 0,
    ensures
        walk_owners(points, start, steps).no_duplicates(),
        forall|o: int|
            walk_owners(points, start, steps).contains(o) <==> exists|t: int|
                0 <= t < steps && (#[trigger] points[(start + t) % (points.len() as int)]).owner
                    == o,
    decreases steps,
{
    let len = points.len() as int;
    let now = walk_owners(points, start, steps);
    if steps > 0 {
        let before = walk_owners(points, start, (steps - 1) as nat);
        lemma_walk_content(points, start, (steps - 1) as nat);
        let owner = points[(start + steps - 1) % len].owner as int;
        assert forall|o: int| now.contains(o) implies exists|t: int|
            0 <= t < steps && (#[trigger] points[(start + t) % len]).owner == o by {
            if before.contains(o) {
                let t = choose|t: int|
                    0 <= t < steps - 1 && (#[trigger] points[(start + t) % len]).owner == o;
                assert(0 <= t < steps && points[(start + t) % len].owner == o);
            } else {
                let i = choose|i: int| 0 <= i < now.len() && now[i] == o;
                assert(now == before.push(owner));
                if i < before.len() {
                    assert(before[i] == o);
                }
                assert(o == owner);
                assert(points[(start + (steps - 1)) % len].owner == o);
            }
        }
        assert forall|o: int|
            (exists|t: int|
                0 <= t < steps && (#[trigger] points[(start + t) % len]).owner
                    == o) implies now.contains(o) by {
            let t = choose|t: int|
                0 <= t < steps && (#[trigger] points[(start + t) % len]).owner == o;
            if t < steps - 1 {
                assert(before.contains(o));
                let i = choose|i: int| 0 <= i < before.len() && before[i] == o;
                if !before.contains(owner) {
                    assert(now[i] == o);
                }
            } else {
                assert(o == owner);
                if !before.contains(owner) {
                    assert(now[before.len() as int] == o);
                }
            }
        }
    }
}

/// A walk of at least one step lists the owner of its first point first.
pub proof fn lemma_walk_first(points: Seq<RingPoint>, start: int, steps: nat)
    requires
        points.len() > 0,
        steps > 0,
    ensures
        walk_owners(points, start, steps).len() > 0,
        walk_owners(points, start, steps)[0] == points[start % (points.len() as int)].owner,
    decreases steps,
{
    if steps == 1 {
        assert(walk_owners(points, start, 0).len() == 0);
        assert(start + 1 - 1 == start);
    } else {
        lemma_walk_first(points, start, (steps - 1) as nat);
    }
}

/// A walk once round the ring lists exactly the nodes that own a point.
pub proof fn lemma_preference_lists_placed(points: Seq<RingPoint>, target: u64)
    ensures
        preference(points, target).no_duplicates(),
        preference(points, target).to_set() == placed(points),
        preference(points, target).len() == placed(points).len(),
{
    let len = points.len() as int;
    let all = preference(points, target);
    if len == 0 {
        assert(all.to_set() =~= placed(points));
    } else {
        lemma_first_at_or_after(points, target);
        let start = successor_index(points, target);
        lemma_walk_content(points, start, points.len());
        assert forall|o: int| all.to_set().contains(o) <==> placed(points).contains(o) by {
            if all.contains(o) {
                let t = choose|t: int|
                    0 <= t < len && (#[trigger] points[(start + t) % len]).owner == o;
                lemma_wrap(start, t, len);
                let i = (start + t) % len;
                assert(0 <= i < len && points[i].owner == o);
            }
            if placed(points).contains(o) {
                let i = choose|i: int| 0 <= i < len && #[trigger] points[i].owner == o;
                let t = if i >= start {
                    i - start
                } else {
                    i - start + len
                };
                lemma_wrap(start, t, len);
                assert(points[(start + t) % len].owner == o);
            }
        }
        assert(all.to_set() =~= placed(points));
    }
    all.unique_seq_to_set();
}

/// Places in the node list as mathematical integers.
pub open spec fn owners_view(chosen: Seq<usize>) -> Seq<int> {
    chosen.map_values(|o: usize| o as int)
}

/// Whether `owner` is among `chosen`.
fn already_chosen(chosen: &Vec<usize>, owner: usize) -> (found: bool)
    ensures
        found == owners_view(chosen@).contains(owner as int),
{
    let ghost ints = owners_view(chosen@);
    let mut i: usize = 0;
    while i < chosen.len()
        invariant
            0 <= i <= chosen.len(),
            ints == owners_view(chosen@),
            forall|a: int| 0 <= a < i ==> #[trigger] ints[a] != owner as int,
        decreases chosen.len() - i,
    {
        if chosen[i] == owner {
            assert(ints[i as int] == owner as int);
            return true;
        }
        i = i + 1;
    }
    false
}

impl DistributionStrategy for ConsistentHashRing {
    open spec fn valid(&self) -> bool {
        self.wf()
    }

    open spec fn members(&self) -> Seq<NodeView> {
        self@.nodes
    }

    open spec fn placement(&self, key: Seq<u8>) -> Seq<NodeView> {
        placement_of(self@, digest(key))
    }

    fn add_node(&mut self, node: DistributionNode) {
        let mut nodes = nodes_without(&self.nodes, node.id.as_str());
        let ghost kept = node_views(nodes@);
        nodes.push(node);
        assert(node_views(nodes@) =~= kept.push(node@));
        assert(distinct_ids(node_views(nodes@))) by {
            let now = node_views(nodes@);
            assert forall|a: int, b: int|
                0 <= a < now.len() && 0 <= b < now.len() && a != b implies #[trigger] now[a].id
                != #[trigger] now[b].id by {
                let last = now.len() - 1;
                if a < last && b < last {
                    assert(now[a] == kept[a] && now[b] == kept[b]);
                } else if a == last {
                    assert(now[b] == nodes@[b]@);
                } else {
                    assert(now[a] == nodes@[a]@);
                }
            }
        }
        let points = build_points(&nodes);
        self.nodes = nodes;
        self.points = points;
    }

    fn remove_node(&mut self, node_id: &str) {
        let nodes = nodes_without(&self.nodes, node_id);
        let points = build_points(&nodes);
        self.nodes = nodes;
        self.points = points;
    }

    fn get_primary(&self, key: &[u8]) -> (primary: Option<DistributionNode>) {
        if self.points.len() == 0 {
            return None;
        }
        let target = hash64(key);
        let mut at = lower_bound(&self.points, target);
        if at >= self.points.len() {
            at = 0;
        }
        let owner = self.points[at].owner;
        proof {
            let points = self@.points;
            lemma_walk_first(points, at as int, points.len());
            lemma_wrap(at as int, 0, points.len() as int);
            assert(claims(self@.nodes, points[at as int].owner as int, points[at as int].position));
        }
        Some(self.nodes[owner].clone())
    }

    fn get_replicas(&self, key: &[u8], replica_count: usize) -> (replicas: Vec<DistributionNode>) {
        let chosen = self.replica_indices(key, replica_count);
        let ghost nodes = self@.nodes;
        let ghost order = owners_view(chosen@);
        let mut replicas: Vec<DistributionNode> = Vec::new();
        let mut i: usize = 0;
        assert(node_views(replicas@) =~= order.take(0).map_values(|j: int| nodes[j]));
        while i < chosen.len()
            invariant
                0 <= i <= chosen.len(),
                nodes == self@.nodes,
                order == owners_view(chosen@),
                forall|a: int| 0 <= a < chosen@.len() ==> (#[trigger] chosen@[a]) < nodes.len(),
                node_views(replicas@) == order.take(i as int).map_values(|j: int| nodes[j]),
            decreases chosen.len() - i,
        {
            let ghost before = node_views(replicas@);
            let copy = self.nodes[chosen[i]].clone();
            replicas.push(copy);
            assert(node_views(replicas@) =~= before.push(copy@));
            assert(order.take(i as int + 1).map_values(|j: int| nodes[j]) =~= order.take(
                i as int,
            ).map_values(|j: int| nodes[j]).push(nodes[order[i as int]]));
            i = i + 1;
        }
        proof {
            let target = digest(key@);
            let all = preference(self@.points, target);
            let n = at_most(replica_count as nat, all.len()) as int;
            assert(order.take(chosen.len() as int) =~= order);
            assert(order.map_values(|j: int| nodes[j]) =~= placement_of(self@, target).take(n));
        }
        replicas
    }

    fn all_nodes(&self) -> (nodes: Vec<DistributionNode>) {
        let mut nodes: Vec<DistributionNode> = Vec::new();
        let mut i: usize = 0;
        assert(node_views(nodes@) =~= self@.nodes.take(0));
        while i < self.nodes.len()
            invariant
                0 <= i <= self.nodes.len(),
                node_views(nodes@) == self@.nodes.take(i as int),
            decreases self.nodes.len() - i,
        {
            let ghost before = node_views(nodes@);
            let copy = self.nodes[i].clone();
            nodes.push(copy);
            assert(node_views(nodes@) =~= before.push(copy@));
            assert(self@.nodes.take(i as int + 1) =~= self@.nodes.take(i as int).push(
                self@.nodes[i as int],
            ));
            i = i + 1;
        }
        assert(self@.nodes.take(self.nodes.len() as int) =~= self@.nodes);
        nodes
    }
}

/// Two ordered rings agree on their first `upto` positions where each
/// position of one occurs in the other.
proof fn lemma_same_positions(a: Seq<RingPoint>, b: Seq<RingPoint>, upto: int)
    requires
        strictly_ordered(a),
        strictly_ordered(b),
        forall|i: int| 0 <= i < a.len() ==> has_position(b, (#[trigger] a[i]).position),
        forall|i: int| 0 <= i < b.len() ==> has_position(a, (#[trigger] b[i]).position),
        0 <= upto <= a.len(),
    ensures
        upto <= b.len(),
        forall|i: int| 0 <= i < upto ==> (#[trigger] a[i]).position == b[i].position,
    decreases upto,
{
    if upto > 0 {
        let i = upto - 1;
        lemma_same_positions(a, b, i);
        let q = a[i].position;
        assert(has_position(b, q));
        let m = choose|m: int| 0 <= m < b.len() && #[trigger] b[m].position == q;
        if m < i {
            assert(a[m].position == b[m].position);
            assert(a[m].position < a[i].position);
        }
        if m > i {
            let r = b[i].position;
            assert(b[i].position < b[m].position);
            assert(has_position(a, r));
            let k = choose|k: int| 0 <= k < a.len() && #[trigger] a[k].position == r;
            if k < i {
                assert(a[k].position == b[k].position);
                assert(b[k].position < b[i].position);
            } else if k > i {
                assert(a[i].position < a[k].position);
            }
        }
        assert(m == i);
    }
}

/// A node list has one ring.
pub proof fn lemma_ring_unique(nodes: Seq<NodeView>, a: Seq<RingPoint>, b: Seq<RingPoint>)
    requires
        ring_of(nodes, a),
        ring_of(nodes, b),
    ensures
        a == b,
{
    assert forall|i: int| 0 <= i < a.len() implies has_position(b, (#[trigger] a[i]).position) by {
        lemma_claimed_position_present(nodes, a[i].owner as int, a[i].position, nodes, b);
    }
    assert forall|i: int| 0 <= i < b.len() implies has_position(a, (#[trigger] b[i]).position) by {
        lemma_claimed_position_present(nodes, b[i].owner as int, b[i].position, nodes, a);
    }
    lemma_same_positions(a, b, a.len() as int);
    lemma_same_positions(b, a, b.len() as int);
    assert forall|i: int| 0 <= i < a.len() implies a[i] == b[i] by {
        assert(claims(nodes, a[i].owner as int, a[i].position));
        assert(claims(nodes, b[i].owner as int, b[i].position));
        let x = a[i].owner as int;
        let y = b[i].owner as int;
        if x < y {
            assert(!node_covers(nodes[x], b[i].position));
        } else if y < x {
            assert(!node_covers(nodes[y], a[i].position));
        }
    }
    assert(a =~= b);
}

/// A position that a node of `from` covers lies on every ring whose node
/// list holds that node.
proof fn lemma_claimed_position_present(
    from: Seq<NodeView>,
    j: int,
    position: u64,
    nodes: Seq<NodeView>,
    points: Seq<RingPoint>,
)
    requires
        0 <= j < from.len(),
        node_covers(from[j], position),
        ring_of(nodes, points),
        exists|k: int| 0 <= k < nodes.len() && #[trigger] nodes[k] == from[j],
    ensures
        has_position(points, position),
{
    let k = choose|k: int| 0 <= k < nodes.len() && #[trigger] nodes[k] == from[j];
    let r = choose|r: u64|
        r < from[j].weight && #[trigger] point_position(from[j].id, r) == position;
    assert(r < nodes[k].weight);
    assert(has_position(points, point_position(nodes[k].id, r)));
}

/// Every node that is left after a removal was there before it.
proof fn lemma_without_id_members(nodes: Seq<NodeView>, id: Seq<char>)
    ensures
        without_id(nodes, id).len() <= nodes.len(),
        forall|a: int|
            0 <= a < without_id(nodes, id).len() ==> (#[trigger] without_id(nodes, id)[a]).id != id
                && exists|b: int| 0 <= b < nodes.len() && #[trigger] nodes[b] == without_id(nodes, id)[a],
    decreases nodes.len(),
{
    if nodes.len() > 0 {
        let rest = nodes.drop_last();
        lemma_without_id_members(rest, id);
        let kept = without_id(nodes, id);
        let inner = without_id(rest, id);
        assert forall|a: int| 0 <= a < kept.len() implies (#[trigger] kept[a]).id != id && exists|
            b: int,
        | 0 <= b < nodes.len() && #[trigger] nodes[b] == kept[a] by {
            if a < inner.len() {
                assert(kept[a] == inner[a]);
                let b = choose|b: int| 0 <= b < rest.len() && #[trigger] rest[b] == inner[a];
                assert(nodes[b] == kept[a]);
            } else {
                assert(nodes[nodes.len() - 1] == kept[a]);
            }
        }
    }
}

/// A node that stays keeps its place after the nodes that stay before it.
proof fn lemma_without_id_order(nodes: Seq<NodeView>, id: Seq<char>, j: int)
    requires
        0 <= j < nodes.len(),
        nodes[j].id != id,
    ensures
        without_id(nodes.take(j), id).len() < without_id(nodes, id).len(),
        without_id(nodes, id)[without_id(nodes.take(j), id).len() as int] == nodes[j],
        without_id(nodes, id).take(without_id(nodes.take(j), id).len() as int) == without_id(
            nodes.take(j),
            id,
        ),
    decreases nodes.len(),
{
    let last = nodes.len() - 1;
    let rest = nodes.drop_last();
    let inner = without_id(rest, id);
    let kept = without_id(nodes, id);
    if j == last {
        assert(nodes.take(j) =~= rest);
        assert(kept.take(inner.len() as int) =~= inner);
    } else {
        lemma_without_id_order(rest, id, j);
        assert(rest.take(j) =~= nodes.take(j));
        let before = without_id(nodes.take(j), id);
        assert(kept.take(before.len() as int) =~= inner.take(before.len() as int));
    }
}

/// The node that the walk for `target` meets first.
pub open spec fn primary_of(ring: RingView, target: u64) -> Option<NodeView> {
    if ring.points.len() == 0 {
        None
    } else {
        Some(ring.nodes[ring.points[successor_index(ring.points, target)].owner as int])
    }
}

/// The primary is the head of the preference list.
pub proof fn lemma_primary_heads_placement(ring: RingView, target: u64)
    requires
        ring_of(ring.nodes, ring.points),
    ensures
        match primary_of(ring, target) {
            Some(node) => placement_of(ring, target).len() > 0 && placement_of(ring, target)[0]
                == node,
            None => placement_of(ring, target).len() == 0,
        },
{
    let points = ring.points;
    if points.len() > 0 {
        lemma_first_at_or_after(points, target);
        let start = successor_index(points, target);
        lemma_walk_first(points, start, points.len());
        lemma_wrap(start, 0, points.len() as int);
    }
}

/// Placement is a function of the node list: two rings over the same nodes
/// send every key to the same nodes, whatever their history.
pub proof fn lemma_placement_is_stable(
    a: &ConsistentHashRing,
    b: &ConsistentHashRing,
    key: Seq<u8>,
)
    requires
        a.wf(),
        b.wf(),
        a@.nodes == b@.nodes,
    ensures
        a.placement(key) == b.placement(key),
{
    lemma_ring_unique(a@.nodes, a@.points, b@.points);
}

/// Bounded remapping: where the node called `removed` leaves the list, every
/// target whose primary was another node keeps that primary. Read from the
/// longer list to the shorter it covers removal; read the other way, adding
/// a node takes targets only for that node.
pub proof fn lemma_remove_keeps_other_primaries(
    before: RingView,
    after: RingView,
    removed: Seq<char>,
    target: u64,
)
    requires
        ring_of(before.nodes, before.points),
        ring_of(after.nodes, after.points),
        after.nodes == without_id(before.nodes, removed),
        primary_of(before, target) matches Some(node) && node.id != removed,
    ensures
        primary_of(after, target) == primary_of(before, target),
{
    let old_nodes = before.nodes;
    let old_points = before.points;
    let new_nodes = after.nodes;
    let new_points = after.points;
    lemma_first_at_or_after(old_points, target);
    let s = successor_index(old_points, target);
    let o = old_points[s].owner as int;
    let p = old_points[s].position;
    assert(claims(old_nodes, o, p));
    lemma_without_id_order(old_nodes, removed, o);
    lemma_without_id_members(old_nodes, removed);
    let j = without_id(old_nodes.take(o), removed).len() as int;
    assert(new_nodes[j] == old_nodes[o]);
    // the node still claims the position
    assert(claims(new_nodes, j, p)) by {
        assert forall|k: int| 0 <= k < j implies !node_covers(#[trigger] new_nodes[k], p) by {
            lemma_without_id_members(old_nodes.take(o), removed);
            let inner = without_id(old_nodes.take(o), removed);
            assert(new_nodes.take(j) == inner);
            assert(new_nodes[k] == new_nodes.take(j)[k]);
            let front = old_nodes.take(o);
            let b = choose|b: int| 0 <= b < front.len() && #[trigger] front[b] == inner[k];
            assert(front[b] == old_nodes[b]);
            assert(!node_covers(old_nodes[b], p));
        }
    }
    // so the position is on the new ring, owned by the same node
    assert(has_position(new_points, p)) by {
        let r = choose|r: u64|
            r < new_nodes[j].weight && #[trigger] point_position(new_nodes[j].id, r) == p;
        assert(has_position(new_points, point_position(new_nodes[j].id, r)));
    }
    let t = choose|t: int| 0 <= t < new_points.len() && #[trigger] new_points[t].position == p;
    assert(claims(new_nodes, new_points[t].owner as int, new_points[t].position));
    assert(new_points[t].owner as int == j) by {
        let y = new_points[t].owner as int;
        if y < j {
            assert(!node_covers(new_nodes[y], p));
        } else if j < y {
            assert(!node_covers(new_nodes[j], p));
        }
    }
    // every position of the new ring was on the old one
    assert forall|i: int| 0 <= i < new_points.len() implies has_position(
        old_points,
        (#[trigger] new_points[i]).position,
    ) by {
        let y = new_points[i].owner as int;
        assert(claims(new_nodes, y, new_points[i].position));
        let b = choose|b: int| 0 <= b < old_nodes.len() && #[trigger] old_nodes[b] == new_nodes[y];
        lemma_claimed_position_present(new_nodes, y, new_points[i].position, old_nodes, old_points);
    }
    // hence the walk starts at the same position
    lemma_first_at_or_after(new_points, target);
    if first_at_or_after(old_points, target) < old_points.len() {
        assert forall|i: int| 0 <= i < t implies (#[trigger] new_points[i]).position < target by {
            let q = new_points[i].position;
            assert(new_points[i].position < new_points[t].position);
            assert(has_position(old_points, q));
            let m = choose|m: int|
                0 <= m < old_points.len() && #[trigger] old_points[m].position == q;
            if m >= s {
                if m > s {
                    assert(old_points[s].position < old_points[m].position);
                }
            } else {
                assert(old_points[m].position < target);
            }
        }
        lemma_first_at_or_after_unique(new_points, target, t);
    } else {
        assert forall|i: int| 0 <= i < new_points.len() implies (#[trigger] new_points[i]).position
            < target by {
            let q = new_points[i].position;
            assert(has_position(old_points, q));
            let m = choose|m: int|
                0 <= m < old_points.len() && #[trigger] old_points[m].position == q;
            assert(old_points[m].position < target);
        }
        lemma_first_at_or_after_unique(new_points, target, new_points.len() as int);
        if t > 0 {
            let q = new_points[0].position;
            assert(new_points[0].position < new_points[t].position);
            assert(has_position(old_points, q));
            let m = choose|m: int|
                0 <= m < old_points.len() && #[trigger] old_points[m].position == q;
            if m > 0 {
                assert(old_points[0].position < old_points[m].position);
            }
        }
        assert(t == 0);
    }
    assert(successor_index(new_points, target) == t);
}

/// The replicas of a key are distinct nodes of the ring: as many as were
/// asked for where that many nodes own a point of the ring, and else every
/// node that owns one.
pub proof fn lemma_replicas_are_distinct_and_counted(
    ring: &ConsistentHashRing,
    key: Seq<u8>,
    replica_count: nat,
)
    requires
        ring.wf(),
    ensures
        ({
            let all = ring.placement(key);
            let replicas = all.take(at_most(replica_count, all.len()) as int);
            &&& all.len() == placed(ring@.points).len()
            &&& forall|a: int| 0 <= a < all.len() ==> ring@.nodes.contains(#[trigger] all[a])
            &&& replicas.len() == at_most(replica_count, placed(ring@.points).len())
            &&& forall|a: int, b: int|
                0 <= a < replicas.len() && 0 <= b < replicas.len() && a != b
                    ==> #[trigger] replicas[a].id != #[trigger] replicas[b].id
            &&& replica_count >= placed(ring@.points).len() ==> forall|j: int|
                placed(ring@.points).contains(j) ==> replicas.contains(#[trigger] ring@.nodes[j])
        }),
{
    let target = digest(key);
    let points = ring@.points;
    let nodes = ring@.nodes;
    let order = preference(points, target);
    let all = ring.placement(key);
    let replicas = all.take(at_most(replica_count, all.len()) as int);
    lemma_preference_lists_placed(points, target);
    assert forall|a: int| 0 <= a < order.len() implies 0 <= #[trigger] order[a] < nodes.len() by {
        assert(order.to_set().contains(order[a]));
        assert(placed(points).contains(order[a]));
        let i = choose|i: int| 0 <= i < points.len() && #[trigger] points[i].owner == order[a];
        assert(claims(nodes, points[i].owner as int, points[i].position));
    }
    assert forall|a: int| 0 <= a < all.len() implies nodes.contains(#[trigger] all[a]) by {
        assert(all[a] == nodes[order[a]]);
    }
    assert forall|a: int, b: int|
        0 <= a < replicas.len() && 0 <= b < replicas.len() && a != b implies #[trigger] replicas[a].id
        != #[trigger] replicas[b].id by {
        assert(replicas[a] == nodes[order[a]]);
        assert(replicas[b] == nodes[order[b]]);
        assert(order[a] != order[b]);
    }
    if replica_count >= placed(points).len() {
        assert(replicas =~= all);
        assert forall|j: int| placed(points).contains(j) implies replicas.contains(
            #[trigger] nodes[j],
        ) by {
            assert(order.to_set().contains(j));
            let a = choose|a: int| 0 <= a < order.len() && order[a] == j;
            assert(all[a] == nodes[j]);
        }
    }
}

/// A node that owns a point is on the preference list of every key.
pub proof fn lemma_placed_node_is_preferred(points: Seq<RingPoint>, target: u64, j: int)
    requires
        placed(points).contains(j),
    ensures
        preference(points, target).contains(j),
{
    lemma_preference_lists_placed(points, target);
    assert(preference(points, target).to_set().contains(j));
}

/// A node owns a point as soon as one of its virtual points lies where no
/// earlier node has one.
pub proof fn lemma_uncontested_node_is_placed(
    nodes: Seq<NodeView>,
    points: Seq<RingPoint>,
    j: int,
    replica: u64,
)
    requires
        ring_of(nodes, points),
        0 <= j < nodes.len(),
        replica < nodes[j].weight,
        forall|k: int|
            0 <= k < j ==> !node_covers(#[trigger] nodes[k], point_position(nodes[j].id, replica)),
    ensures
        placed(points).contains(j),
{
    let p = point_position(nodes[j].id, replica);
    assert(has_position(points, p));
    let i = choose|i: int| 0 <= i < points.len() && #[trigger] points[i].position == p;
    assert(claims(nodes, points[i].owner as int, points[i].position));
    let o = points[i].owner as int;
    if o < j {
        assert(node_covers(nodes[o], p));
    } else if j < o {
        assert(node_covers(nodes[j], p));
    }
    assert(points[i].owner == j);
}

/// Removing an id that no node bears changes nothing.
pub proof fn lemma_without_id_absent(nodes: Seq<NodeView>, id: Seq<char>)
    requires
        forall|j: int| 0 <= j < nodes.len() ==> (#[trigger] nodes[j]).id != id,
    ensures
        without_id(nodes, id) == nodes,
    decreases nodes.len(),
{
    if nodes.len() > 0 {
        let rest = nodes.drop_last();
        assert forall|j: int| 0 <= j < rest.len() implies (#[trigger] rest[j]).id != id by {
            assert(rest[j] == nodes[j]);
        }
        lemma_without_id_absent(rest, id);
        assert(nodes[nodes.len() - 1].id != id);
        assert(rest.push(nodes.last()) =~= nodes);
    } else {
        assert(without_id(nodes, id) =~= nodes);
    }
}

/// Removing the id of the node at `at` takes out that node and no other.
pub proof fn lemma_without_id_removes(nodes: Seq<NodeView>, id: Seq<char>, at: int)
    requires
        distinct_ids(nodes),
        0 <= at < nodes.len(),
        nodes[at].id == id,
    ensures
        without_id(nodes, id) == nodes.remove(at),
    decreases nodes.len(),
{
    let last = nodes.len() - 1;
    let rest = nodes.drop_last();
    if at == last {
        assert forall|j: int| 0 <= j < rest.len() implies (#[trigger] rest[j]).id != id by {
            assert(rest[j] == nodes[j]);
            assert(nodes[j].id != nodes[at].id);
        }
        lemma_without_id_absent(rest, id);
        assert(nodes.remove(at) =~= rest);
    } else {
        assert(distinct_ids(rest)) by {
            assert forall|i: int, j: int|
                0 <= i < rest.len() && 0 <= j < rest.len() && i != j implies #[trigger] rest[i].id
                != #[trigger] rest[j].id by {
                assert(rest[i] == nodes[i] && rest[j] == nodes[j]);
            }
        }
        assert(rest[at] == nodes[at]);
        lemma_without_id_removes(rest, id, at);
        assert(nodes[last].id != nodes[at].id);
        assert(rest.remove(at).push(nodes.last()) =~= nodes.remove(at));
    }
}

/// Bounded remapping for rings: after the node called `removed` has left,
/// every key whose primary was another node has the primary it had.
pub proof fn lemma_removal_moves_only_the_leavers_keys(
    before: &ConsistentHashRing,
    after: &ConsistentHashRing,
    removed: Seq<char>,
    key: Seq<u8>,
)
    requires
        before.wf(),
        after.wf(),
        after.members() == without_id(before.members(), removed),
        before.placement(key).len() > 0,
        before.placement(key)[0].id != removed,
    ensures
        after.placement(key).len() > 0,
        after.placement(key)[0] == before.placement(key)[0],
{
    lemma_primary_heads_placement(before@, digest(key));
    lemma_remove_keeps_other_primaries(before@, after@, removed, digest(key));
    lemma_primary_heads_placement(after@, digest(key));
}

/// Bounded remapping for rings, read the other way: after a node with a
/// new id has joined, every key whose primary is not that node has the
/// primary it had.
pub proof fn lemma_arrival_takes_keys_only_for_the_newcomer(
    before: &ConsistentHashRing,
    after: &ConsistentHashRing,
    added: NodeView,
    key: Seq<u8>,
)
    requires
        before.wf(),
        after.wf(),
        forall|j: int| 0 <= j < before.members().len() ==> (#[trigger] before.members()[j]).id
            != added.id,
        after.members() == before.members().push(added),
        after.placement(key).len() > 0,
        after.placement(key)[0].id != added.id,
    ensures
        before.placement(key).len() > 0,
        before.placement(key)[0] == after.placement(key)[0],
{
    let longer = after.members();
    let last = longer.len() - 1;
    assert(longer[last] == added);
    assert(distinct_ids(longer));
    lemma_without_id_removes(longer, added.id, last);
    assert(longer.remove(last) =~= before.members());
    lemma_primary_heads_placement(after@, digest(key));
    lemma_remove_keeps_other_primaries(after@, before@, added.id, digest(key));
    lemma_primary_heads_placement(before@, digest(key));
}

} // verus!
