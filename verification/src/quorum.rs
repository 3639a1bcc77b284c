//! Why intersecting quorums make a read see the write before it.
//!
//! The replicas that stored a write and the replicas that answer a later
//! read are both taken from the replicas of the key. Where the write quorum
//! and the read quorum together exceed the replication factor the two
//! groups share a replica, and what that replica answers is the written
//! value. The read therefore returns the written value, or one that beats
//! it in the order of candidates.

use crate::config::ReplicationConfig;
use crate::consistency::{
    best, get_result, lemma_best_is_top, outranks, put_result, slot_of, value_fits, visible,
    ResultView, VersionedView,
};
use crate::coordinator::{
    agree, aligned, answers_of, coordinated_get_result, coordinated_put_result, present, responders,
    targets, write_all, ClusterView, ReplicaView,
};
use crate::distribution::{
    claims, digest, distinct_ids, lemma_preference_lists_placed, placed, preference, ring_of,
};
use crate::error::ErrorKind;
use crate::record::{context_fits, decode_entries, lemma_record_round_trip, RecordView};
use vstd::prelude::*;
use vstd::set_lib::{lemma_len_subset, lemma_set_disjoint_lens};

verus! {

/// Two groups drawn from a pool share a member where together they
/// outnumber the pool.
pub proof fn lemma_groups_share_a_member(pool: Seq<int>, a: Seq<int>, b: Seq<int>)
    requires
        a.no_duplicates(),
        b.no_duplicates(),
        forall|i: int| 0 <= i < a.len() ==> pool.contains(#[trigger] a[i]),
        forall|i: int| 0 <= i < b.len() ==> pool.contains(#[trigger] b[i]),
        a.len() + b.len() > pool.len(),
    ensures
        exists|x: int| a.contains(x) && b.contains(x),
{
    let sa = a.to_set();
    let sb = b.to_set();
    let sp = pool.to_set();
    a.unique_seq_to_set();
    b.unique_seq_to_set();
    pool.lemma_cardinality_of_set();
    vstd::seq_lib::seq_to_set_is_finite(a);
    vstd::seq_lib::seq_to_set_is_finite(b);
    vstd::seq_lib::seq_to_set_is_finite(pool);
    if sa.disjoint(sb) {
        lemma_set_disjoint_lens(sa, sb);
        assert((sa + sb).subset_of(sp)) by {
            assert forall|x: int| (sa + sb).contains(x) implies sp.contains(x) by {
                if sa.contains(x) {
                    let i = choose|i: int| 0 <= i < a.len() && a[i] == x;
                    assert(pool.contains(a[i]));
                } else {
                    let i = choose|i: int| 0 <= i < b.len() && b[i] == x;
                    assert(pool.contains(b[i]));
                }
            }
        }
        lemma_len_subset(sa + sb, sp);
        assert(false);
    }
    let x = choose|x: int| sa.contains(x) && sb.contains(x);
    assert(a.contains(x) && b.contains(x));
}

/// Every read quorum meets every write quorum: two groups of the replicas
/// of a key, as large as the quorums ask, share a replica.
pub proof fn lemma_quorums_share_a_replica(
    config: ReplicationConfig,
    replicas: Seq<int>,
    writers: Seq<int>,
    readers: Seq<int>,
)
    requires
        config.quorums_intersect(),
        replicas.len() <= config.factor,
        writers.no_duplicates(),
        readers.no_duplicates(),
        forall|i: int| 0 <= i < writers.len() ==> replicas.contains(#[trigger] writers[i]),
        forall|i: int| 0 <= i < readers.len() ==> replicas.contains(#[trigger] readers[i]),
        writers.len() >= config.write_quorum,
        readers.len() >= config.read_quorum,
    ensures
        exists|x: int| writers.contains(x) && readers.contains(x),
{
    lemma_groups_share_a_member(replicas, writers, readers);
}

/// Whether a replica takes the write: it can be reached and stores it.
pub open spec fn acknowledges(replica: ReplicaView, key: Seq<u8>, value: Seq<u8>, version: u64)
    -> bool {
    replica.reachable && put_result(replica.store, key, value, Some(version), None).1 matches Ok(
        ResultView::Stored(_),
    )
}

/// Those of `targets` that take the write, in order.
pub open spec fn ackers(
    replicas: Seq<ReplicaView>,
    targets: Seq<int>,
    key: Seq<u8>,
    value: Seq<u8>,
    version: u64,
) -> Seq<int>
    decreases targets.len(),
{
    if targets.len() == 0 {
        Seq::empty()
    } else {
        let before = ackers(replicas, targets.drop_last(), key, value, version);
        if acknowledges(replicas[targets.last()], key, value, version) {
            before.push(targets.last())
        } else {
            before
        }
    }
}

/// Those that take the write are among the targets, each once.
proof fn lemma_ackers(
    replicas: Seq<ReplicaView>,
    targets: Seq<int>,
    key: Seq<u8>,
    value: Seq<u8>,
    version: u64,
)
    requires
        targets.no_duplicates(),
    ensures
        ackers(replicas, targets, key, value, version).no_duplicates(),
        forall|i: int|
            0 <= i < ackers(replicas, targets, key, value, version).len() ==> targets.contains(
                #[trigger] ackers(replicas, targets, key, value, version)[i],
            ) && acknowledges(
                replicas[ackers(replicas, targets, key, value, version)[i]],
                key,
                value,
                version,
            ),
    decreases targets.len(),
{
    if targets.len() > 0 {
        let front = targets.drop_last();
        let t = targets.last();
        lemma_ackers(replicas, front, key, value, version);
        let before = ackers(replicas, front, key, value, version);
        let now = ackers(replicas, targets, key, value, version);
        assert forall|i: int| 0 <= i < now.len() implies targets.contains(#[trigger] now[i])
            && acknowledges(replicas[now[i]], key, value, version) by {
            if i < before.len() {
                assert(now[i] == before[i]);
                let j = choose|j: int| 0 <= j < front.len() && front[j] == before[i];
                assert(targets[j] == now[i]);
            } else {
                assert(targets[targets.len() - 1] == now[i]);
            }
        }
        assert forall|i: int, j: int| 0 <= i < now.len() && 0 <= j < now.len() && i != j implies now[i]
            != now[j] by {
            if i < before.len() && j < before.len() {
                assert(now[i] == before[i] && now[j] == before[j]);
            } else {
                let other = if i < before.len() { i } else { j };
                assert(now[other] == before[other]);
                assert(front.contains(before[other]));
                let k = choose|k: int| 0 <= k < front.len() && front[k] == before[other];
                assert(targets[k] == front[k]);
                assert(targets[k] != targets[targets.len() - 1]);
            }
        }
    }
}

/// What the write leaves of each replica, and how many took it.
proof fn lemma_write_all(
    replicas: Seq<ReplicaView>,
    targets: Seq<int>,
    key: Seq<u8>,
    value: Seq<u8>,
    version: u64,
)
    requires
        targets.no_duplicates(),
        forall|i: int| 0 <= i < targets.len() ==> 0 <= #[trigger] targets[i] < replicas.len(),
    ensures
        write_all(replicas, targets, key, value, version).0.len() == replicas.len(),
        write_all(replicas, targets, key, value, version).1 == ackers(
            replicas,
            targets,
            key,
            value,
            version,
        ).len(),
        forall|j: int|
            0 <= j < replicas.len() ==> #[trigger] write_all(
                replicas,
                targets,
                key,
                value,
                version,
            ).0[j] == if targets.contains(j) && replicas[j].reachable {
                ReplicaView {
                    store: put_result(replicas[j].store, key, value, Some(version), None).0,
                    ..replicas[j]
                }
            } else {
                replicas[j]
            },
    decreases targets.len(),
{
    if targets.len() > 0 {
        let front = targets.drop_last();
        let t = targets.last();
        assert(front.no_duplicates());
        assert forall|i: int| 0 <= i < front.len() implies 0 <= #[trigger] front[i]
            < replicas.len() by {
            assert(front[i] == targets[i]);
        }
        lemma_write_all(replicas, front, key, value, version);
        let (done, acks) = write_all(replicas, front, key, value, version);
        let (now, _) = write_all(replicas, targets, key, value, version);
        assert(targets[targets.len() - 1] == t);
        assert(!front.contains(t)) by {
            if front.contains(t) {
                let k = choose|k: int| 0 <= k < front.len() && front[k] == t;
                assert(targets[k] == targets[targets.len() - 1]);
            }
        }
        assert(done[t] == replicas[t]);
        assert forall|j: int| 0 <= j < replicas.len() implies #[trigger] now[j] == if targets.contains(
            j,
        ) && replicas[j].reachable {
            ReplicaView {
                store: put_result(replicas[j].store, key, value, Some(version), None).0,
                ..replicas[j]
            }
        } else {
            replicas[j]
        } by {
            if j == t {
                assert(targets.contains(t));
            } else {
                assert(now[j] == done[j]);
                if front.contains(j) {
                    let k = choose|k: int| 0 <= k < front.len() && front[k] == j;
                    assert(targets[k] == j);
                }
                if targets.contains(j) {
                    let k = choose|k: int| 0 <= k < targets.len() && targets[k] == j;
                    assert(front[k] == j);
                }
            }
        }
    }
}

/// Those that answer a read are among the targets, each once, no more of
/// them than the quorum asks, and each reads its record.
proof fn lemma_responders(
    replicas: Seq<ReplicaView>,
    targets: Seq<int>,
    key: Seq<u8>,
    quorum: nat,
)
    requires
        targets.no_duplicates(),
    ensures
        responders(replicas, targets, key, quorum).no_duplicates(),
        responders(replicas, targets, key, quorum).len() <= quorum,
        forall|i: int|
            0 <= i < responders(replicas, targets, key, quorum).len() ==> targets.contains(
                #[trigger] responders(replicas, targets, key, quorum)[i],
            ) && get_result(replicas[responders(replicas, targets, key, quorum)[i]].store, key)
                is Ok,
    decreases targets.len(),
{
    if targets.len() > 0 {
        let front = targets.drop_last();
        lemma_responders(replicas, front, key, quorum);
        let before = responders(replicas, front, key, quorum);
        let now = responders(replicas, targets, key, quorum);
        assert forall|i: int| 0 <= i < now.len() implies targets.contains(#[trigger] now[i])
            && get_result(replicas[now[i]].store, key) is Ok by {
            if i < before.len() {
                assert(now[i] == before[i]);
                let j = choose|j: int| 0 <= j < front.len() && front[j] == before[i];
                assert(targets[j] == now[i]);
            } else {
                assert(targets[targets.len() - 1] == now[i]);
            }
        }
        assert forall|i: int, j: int| 0 <= i < now.len() && 0 <= j < now.len() && i != j implies now[i]
            != now[j] by {
            if i < before.len() && j < before.len() {
                assert(now[i] == before[i] && now[j] == before[j]);
            } else {
                let other = if i < before.len() { i } else { j };
                assert(now[other] == before[other]);
                assert(front.contains(before[other]));
                let k = choose|k: int| 0 <= k < front.len() && front[k] == before[other];
                assert(targets[k] == front[k]);
                assert(targets[k] != targets[targets.len() - 1]);
            }
        }
    }
}

/// The candidates are exactly the values among the answers.
proof fn lemma_present(answers: Seq<Option<VersionedView>>)
    ensures
        forall|i: int|
            0 <= i < answers.len() && (#[trigger] answers[i]) is Some ==> present(answers).contains(
                answers[i]->Some_0,
            ),
        forall|c: int|
            0 <= c < present(answers).len() ==> answers.contains(
                Some(#[trigger] present(answers)[c]),
            ),
    decreases answers.len(),
{
    if answers.len() > 0 {
        let front = answers.drop_last();
        lemma_present(front);
        let before = present(front);
        let now = present(answers);
        assert forall|i: int| 0 <= i < answers.len() && (#[trigger] answers[i]) is Some implies now.contains(
            answers[i]->Some_0,
        ) by {
            if i < front.len() {
                assert(front[i] == answers[i]);
                let c = choose|c: int| 0 <= c < before.len() && before[c] == front[i]->Some_0;
                assert(now[c] == before[c]);
            } else {
                assert(now[now.len() - 1] == answers[i]->Some_0);
            }
        }
        assert forall|c: int| 0 <= c < now.len() implies answers.contains(
            Some(#[trigger] now[c]),
        ) by {
            if c < before.len() {
                assert(now[c] == before[c]);
                let i = choose|i: int| 0 <= i < front.len() && front[i] == Some(before[c]);
                assert(answers[i] == Some(now[c]));
            } else {
                assert(answers[answers.len() - 1] == Some(now[c]));
            }
        }
    }
}

/// Entries that were read from bytes can be written down again.
proof fn lemma_decoded_entries_fit(bytes: Seq<u8>, count: nat)
    requires
        count <= u64::MAX,
    ensures
        decode_entries(bytes, count) matches Some((entries, _)) ==> entries.len() == count
            && context_fits(entries),
    decreases count,
{
    if count > 0 && bytes.len() >= 8 {
        let width = vstd::bytes::spec_u64_from_le_bytes(bytes.subrange(0, 8)) as int;
        if bytes.len() >= 16 + width {
            lemma_decoded_entries_fit(bytes.skip(16 + width), (count - 1) as nat);
            match decode_entries(bytes.skip(16 + width), (count - 1) as nat) {
                Some((rest, tail)) => {
                    let peer = bytes.subrange(8, 8 + width);
                    let counter = vstd::bytes::spec_u64_from_le_bytes(
                        bytes.subrange(8 + width, 16 + width),
                    );
                    let entries = seq![(peer, counter)] + rest;
                    assert forall|i: int| 0 <= i < entries.len() implies (#[trigger] entries[i]).0.len()
                        <= u64::MAX by {
                        if i > 0 {
                            assert(entries[i] == rest[i - 1]);
                        }
                    }
                },
                None => {},
            }
        }
    }
}

/// What a store shows for a key can be a candidate.
proof fn lemma_visible_fits(contents: Map<Seq<u8>, Seq<u8>>, key: Seq<u8>)
    ensures
        visible(slot_of(contents, key), key) matches Some(value) ==> value_fits(value),
{
    if contents.contains_key(key) {
        let bytes = contents[key];
        if bytes.len() >= 17 {
            let body = bytes.skip(9);
            let count = vstd::bytes::spec_u64_from_le_bytes(body.subrange(0, 8)) as nat;
            lemma_decoded_entries_fit(body.skip(8), count);
        }
    }
}

/// A read that follows a write sees the write: where a coordinated write
/// has succeeded, a coordinated read of the same key on the cluster that
/// the write left, whichever replicas can be reached by then, either
/// misses its quorum or returns a value that the written one does not
/// beat. Where the replicas that answer agree, it is the written value.
pub proof fn lemma_read_after_write(
    pre: ClusterView,
    key: Seq<u8>,
    value: Seq<u8>,
    later: ClusterView,
)
    requires
        distinct_ids(pre.ring.nodes),
        ring_of(pre.ring.nodes, pre.ring.points),
        aligned(pre.ring.nodes, pre.replicas),
        pre.config.quorums_intersect(),
        coordinated_put_result(pre, key, value).1 is Ok,
        later.ring == pre.ring,
        later.config == pre.config,
        later.replicas.len() == pre.replicas.len(),
        forall|j: int|
            0 <= j < pre.replicas.len() ==> (#[trigger] later.replicas[j]).store
                == coordinated_put_result(pre, key, value).0.replicas[j].store,
    ensures
        match coordinated_get_result(later, key).1 {
            Ok(Some(found)) => !outranks(coordinated_put_result(pre, key, value).1->Ok_0, found),
            Ok(None) => false,
            Err(kind) => kind == ErrorKind::Consistency,
        },
        coordinated_get_result(later, key).1 is Ok && agree(
            answers_of(
                later.replicas,
                responders(
                    later.replicas,
                    targets(later, key),
                    key,
                    later.config.read_quorum as nat,
                ),
                key,
            ),
        ) ==> coordinated_get_result(later, key).1 == Ok::<Option<VersionedView>, ErrorKind>(
            Some(coordinated_put_result(pre, key, value).1->Ok_0),
        ),
{
    let to = targets(pre, key);
    let all = preference(pre.ring.points, digest(key));
    let written = coordinated_put_result(pre, key, value).1->Ok_0;
    let version = written.version;
    let mid = coordinated_put_result(pre, key, value).0;
    // the replicas of the key are distinct places in the list of replicas
    lemma_preference_lists_placed(pre.ring.points, digest(key));
    assert(to.no_duplicates());
    assert forall|i: int| 0 <= i < to.len() implies 0 <= #[trigger] to[i] < pre.replicas.len() by {
        assert(to[i] == all[i]);
        assert(all.to_set().contains(all[i]));
        assert(placed(pre.ring.points).contains(all[i]));
        let p = choose|p: int|
            0 <= p < pre.ring.points.len() && #[trigger] pre.ring.points[p].owner == all[i];
        let point = pre.ring.points[p];
        assert(claims(pre.ring.nodes, point.owner as int, point.position));
    }
    // who stored the write, and who answers the read
    lemma_write_all(pre.replicas, to, key, value, version);
    lemma_ackers(pre.replicas, to, key, value, version);
    let writers = ackers(pre.replicas, to, key, value, version);
    let quorum = later.config.read_quorum as nat;
    lemma_responders(later.replicas, to, key, quorum);
    let who = responders(later.replicas, to, key, quorum);
    let answers = answers_of(later.replicas, who, key);
    if who.len() >= quorum {
        lemma_quorums_share_a_replica(pre.config, to, writers, who);
        let t = choose|t: int| writers.contains(t) && who.contains(t);
        let w = choose|w: int| 0 <= w < writers.len() && writers[w] == t;
        let r = choose|r: int| 0 <= r < who.len() && who[r] == t;
        assert(to.contains(writers[w]));
        assert(acknowledges(pre.replicas[writers[w]], key, value, version));
        // the shared replica answers with the written value
        let record = RecordView::Live { version, value, context: None };
        lemma_record_round_trip(record);
        assert(mid.replicas[t].store == put_result(
            pre.replicas[t].store,
            key,
            value,
            Some(version),
            None,
        ).0);
        assert(later.replicas[t].store == mid.replicas[t].store);
        assert(get_result(later.replicas[t].store, key) == Ok::<Option<VersionedView>, ErrorKind>(
            Some(written),
        ));
        assert(answers[r] == Some(written));
        if agree(answers) {
            assert(answers[0] == answers[r]);
            crate::bytestring::lemma_lex_irreflexive(written.value);
            crate::bytestring::lemma_lex_irreflexive(
                crate::record::context_bytes(written.context),
            );
        } else {
            let candidates = present(answers);
            lemma_present(answers);
            assert(candidates.contains(written));
            assert forall|c: int| 0 <= c < candidates.len() implies value_fits(
                #[trigger] candidates[c],
            ) by {
                assert(answers.contains(Some(candidates[c])));
                let i = choose|i: int| 0 <= i < answers.len() && answers[i] == Some(candidates[c]);
                lemma_visible_fits(later.replicas[who[i]].store.backend, key);
            }
            lemma_best_is_top(candidates);
            let at = choose|at: int| 0 <= at < candidates.len() && candidates[at] == written;
            assert(!outranks(candidates[at], best(candidates)));
        }
    }
}

} // verus!
