//! Versioned values and the manager that keeps them consistent.
//!
//! A store holds, for every key, one record: a value with its version and
//! causal context, or the mark that the key was deleted at some version.
//! Writes to a key carry strictly growing versions, and conflicting
//! candidates are settled by an order that does not depend on arrival: the
//! highest version wins, then the byte-wise greater value, then the
//! byte-wise greater written form of the context.

use crate::bytestring::{
    bytes_equal, bytes_less, copy_bytes, lemma_lex_total, lemma_lex_transitive, lex_less,
};
use crate::error::{Error, ErrorKind};
use crate::record::{
    context_bytes, context_fits, context_view, copy_context, decode, decode_record,
    encode_context_bytes, encode_live, encode_record, encode_tombstone,
    lemma_context_bytes_injective, lemma_context_fits, lemma_record_round_trip, ContextEntry,
    ContextView, RecordView, StoredRecord,
};
use crate::storage::StorageEngine;
use vstd::prelude::*;

verus! {

/// A value as one store holds it.
#[derive(Debug, PartialEq, Eq)]
pub struct VersionedValue {
    pub key: Vec<u8>,
    pub value: Vec<u8>,
    pub version: u64,
    pub context: Option<Vec<ContextEntry>>,
}

/// The mathematical content of a [`VersionedValue`].
pub ghost struct VersionedView {
    pub key: Seq<u8>,
    pub value: Seq<u8>,
    pub version: u64,
    pub context: Option<ContextView>,
}

impl View for VersionedValue {
    type V = VersionedView;

    open spec fn view(&self) -> VersionedView {
        VersionedView {
            key: self.key@,
            value: self.value@,
            version: self.version,
            context: context_view(self.context),
        }
    }
}

impl Clone for VersionedValue {
    fn clone(&self) -> (copy: Self)
        ensures
            copy@ == self@,
    {
        VersionedValue {
            key: copy_bytes(self.key.as_slice()),
            value: copy_bytes(self.value.as_slice()),
            version: self.version,
            context: copy_context(&self.context),
        }
    }
}

/// The views of a list of values, in order.
pub open spec fn values_view(values: Seq<VersionedValue>) -> Seq<VersionedView> {
    values.map_values(|v: VersionedValue| v@)
}

/// What a write came to.
#[derive(Debug, PartialEq, Eq)]
pub enum ConsistencyResult {
    /// The value was stored as given here.
    Stored(VersionedValue),
    /// The write was refused; these are the values that stand against each
    /// other.
    Conflict(Vec<VersionedValue>),
}

/// The mathematical content of a [`ConsistencyResult`].
pub ghost enum ResultView {
    Stored(VersionedView),
    Conflict(Seq<VersionedView>),
}

impl View for ConsistencyResult {
    type V = ResultView;

    open spec fn view(&self) -> ResultView {
        match self {
            ConsistencyResult::Stored(value) => ResultView::Stored(value@),
            ConsistencyResult::Conflict(candidates) => ResultView::Conflict(
                values_view(candidates@),
            ),
        }
    }
}

/// An entry of the audit trail.
#[derive(Debug, PartialEq, Eq)]
pub enum ConsistencyEvent {
    WriteCommitted { key: Vec<u8>, value: Vec<u8> },
    WriteConflict { key: Vec<u8>, candidates: Vec<VersionedValue> },
    ReadRepair { key: Vec<u8>, value: Vec<u8> },
}

/// The mathematical content of a [`ConsistencyEvent`].
pub ghost enum EventView {
    WriteCommitted { key: Seq<u8>, value: Seq<u8> },
    WriteConflict { key: Seq<u8>, candidates: Seq<VersionedView> },
    ReadRepair { key: Seq<u8>, value: Seq<u8> },
}

impl View for ConsistencyEvent {
    type V = EventView;

    open spec fn view(&self) -> EventView {
        match self {
            ConsistencyEvent::WriteCommitted { key, value } => EventView::WriteCommitted {
                key: key@,
                value: value@,
            },
            ConsistencyEvent::WriteConflict { key, candidates } => EventView::WriteConflict {
                key: key@,
                candidates: values_view(candidates@),
            },
            ConsistencyEvent::ReadRepair { key, value } => EventView::ReadRepair {
                key: key@,
                value: value@,
            },
        }
    }
}

/// The views of a list of events, in order.
pub open spec fn events_view(events: Seq<ConsistencyEvent>) -> Seq<EventView> {
    events.map_values(|e: ConsistencyEvent| e@)
}

/// Whether `a` beats `b`: by version, then by value, then by context.
pub open spec fn outranks(a: VersionedView, b: VersionedView) -> bool {
    ||| a.version > b.version
    ||| a.version == b.version && lex_less(b.value, a.value)
    ||| a.version == b.version && a.value == b.value && lex_less(
        context_bytes(b.context),
        context_bytes(a.context),
    )
}

/// Whether two values agree in everything but the key they name.
pub open spec fn same_content(a: VersionedView, b: VersionedView) -> bool {
    a.version == b.version && a.value == b.value && a.context == b.context
}

/// Whether the value's context can be written down.
pub open spec fn value_fits(v: VersionedView) -> bool {
    v.context matches Some(entries) ==> context_fits(entries)
}

/// Whether every candidate's context can be written down.
pub open spec fn all_fit(candidates: Seq<VersionedView>) -> bool {
    forall|i: int| 0 <= i < candidates.len() ==> value_fits(#[trigger] candidates[i])
}

/// The candidate that none of the others beats; among equals the first.
pub open spec fn best(candidates: Seq<VersionedView>) -> VersionedView
    recommends
        candidates.len() > 0,
    decreases candidates.len(),
{
    if candidates.len() <= 1 {
        candidates[0]
    } else {
        let so_far = best(candidates.drop_last());
        if outranks(candidates.last(), so_far) {
            candidates.last()
        } else {
            so_far
        }
    }
}

/// The winner among `candidates`, named by `key`.
pub open spec fn resolved(key: Seq<u8>, candidates: Seq<VersionedView>) -> VersionedView {
    let winner = best(candidates);
    VersionedView { key, ..winner }
}

/// No value beats one that it is beaten by.
pub proof fn lemma_outranks_asymmetric(a: VersionedView, b: VersionedView)
    requires
        outranks(a, b),
    ensures
        !outranks(b, a),
{
    lemma_lex_total(a.value, b.value);
    lemma_lex_total(context_bytes(a.context), context_bytes(b.context));
}

/// Beating carries over.
pub proof fn lemma_outranks_transitive(a: VersionedView, b: VersionedView, c: VersionedView)
    requires
        outranks(a, b),
        outranks(b, c),
    ensures
        outranks(a, c),
{
    lemma_lex_total(a.value, b.value);
    lemma_lex_total(b.value, c.value);
    lemma_lex_total(context_bytes(a.context), context_bytes(b.context));
    lemma_lex_total(context_bytes(b.context), context_bytes(c.context));
    if a.version == b.version && b.version == c.version {
        if lex_less(b.value, a.value) && lex_less(c.value, b.value) {
            lemma_lex_transitive(c.value, b.value, a.value);
        } else if a.value == b.value && b.value == c.value {
            lemma_lex_transitive(
                context_bytes(c.context),
                context_bytes(b.context),
                context_bytes(a.context),
            );
        }
    }
}

/// Of two values one beats the other, or they agree in content.
pub proof fn lemma_outranks_total(a: VersionedView, b: VersionedView)
    requires
        value_fits(a),
        value_fits(b),
    ensures
        outranks(a, b) || outranks(b, a) || same_content(a, b),
{
    lemma_lex_total(a.value, b.value);
    lemma_lex_total(context_bytes(a.context), context_bytes(b.context));
    if a.version == b.version && a.value == b.value && context_bytes(a.context) == context_bytes(
        b.context,
    ) {
        lemma_context_bytes_injective(a.context, b.context);
    }
}

/// The best candidate is one of the candidates, and none beats it.
pub proof fn lemma_best_is_top(candidates: Seq<VersionedView>)
    requires
        candidates.len() > 0,
        all_fit(candidates),
    ensures
        candidates.contains(best(candidates)),
        forall|i: int|
            0 <= i < candidates.len() ==> !outranks(#[trigger] candidates[i], best(candidates)),
    decreases candidates.len(),
{
    if candidates.len() == 1 {
        assert(candidates[0] == best(candidates));
        lemma_lex_total(candidates[0].value, candidates[0].value);
        lemma_lex_total(
            context_bytes(candidates[0].context),
            context_bytes(candidates[0].context),
        );
    } else {
        let front = candidates.drop_last();
        let last = candidates.last();
        assert forall|i: int| 0 <= i < front.len() implies value_fits(#[trigger] front[i]) by {
            assert(front[i] == candidates[i]);
        }
        lemma_best_is_top(front);
        let so_far = best(front);
        let now = best(candidates);
        let at = choose|at: int| 0 <= at < front.len() && front[at] == so_far;
        assert(candidates[at] == so_far);
        assert(candidates[candidates.len() - 1] == last);
        assert forall|i: int| 0 <= i < candidates.len() implies !outranks(
            #[trigger] candidates[i],
            now,
        ) by {
            let x = candidates[i];
            if outranks(last, so_far) {
                if i < front.len() {
                    assert(front[i] == x);
                    if outranks(x, last) {
                        lemma_outranks_transitive(x, last, so_far);
                    }
                } else {
                    if outranks(last, last) {
                        lemma_outranks_asymmetric(last, last);
                    }
                }
            } else {
                if i < front.len() {
                    assert(front[i] == x);
                }
            }
        }
    }
}

/// The winner's version is at least that of every candidate.
pub proof fn lemma_resolved_version_is_highest(key: Seq<u8>, candidates: Seq<VersionedView>)
    requires
        candidates.len() > 0,
        all_fit(candidates),
    ensures
        forall|i: int|
            0 <= i < candidates.len() ==> resolved(key, candidates).version
                >= (#[trigger] candidates[i]).version,
{
    lemma_best_is_top(candidates);
}

/// The winner does not depend on the order of the candidates, nor on how
/// often each is listed: two lists with the same members have one winner.
pub proof fn lemma_resolved_ignores_order(
    key: Seq<u8>,
    a: Seq<VersionedView>,
    b: Seq<VersionedView>,
)
    requires
        a.len() > 0,
        all_fit(a),
        forall|v: VersionedView| a.contains(v) <==> b.contains(v),
    ensures
        resolved(key, a) == resolved(key, b),
{
    assert(a.contains(a[0]));
    assert(b.len() > 0);
    assert forall|i: int| 0 <= i < b.len() implies value_fits(#[trigger] b[i]) by {
        assert(b.contains(b[i]));
        let j = choose|j: int| 0 <= j < a.len() && a[j] == b[i];
        assert(value_fits(a[j]));
    }
    lemma_best_is_top(a);
    lemma_best_is_top(b);
    let x = best(a);
    let y = best(b);
    let i = choose|i: int| 0 <= i < b.len() && b[i] == x;
    let j = choose|j: int| 0 <= j < a.len() && a[j] == y;
    assert(!outranks(b[i], y));
    assert(!outranks(a[j], x));
    assert(value_fits(a[j]));
    assert(value_fits(b[i]));
    lemma_outranks_total(x, y);
}

/// Two candidates give the same winner in either order.
pub proof fn lemma_resolved_commutes(key: Seq<u8>, a: VersionedView, b: VersionedView)
    requires
        value_fits(a),
        value_fits(b),
    ensures
        resolved(key, seq![a, b]) == resolved(key, seq![b, a]),
{
    let ab = seq![a, b];
    let ba = seq![b, a];
    assert forall|v: VersionedView| ab.contains(v) <==> ba.contains(v) by {
        if ab.contains(v) {
            let i = choose|i: int| 0 <= i < ab.len() && ab[i] == v;
            assert(ba[1 - i] == v);
        }
        if ba.contains(v) {
            let i = choose|i: int| 0 <= i < ba.len() && ba[i] == v;
            assert(ab[1 - i] == v);
        }
    }
    assert(all_fit(ab));
    lemma_resolved_ignores_order(key, ab, ba);
}

/// Resolving the winner alone gives the winner again.
pub proof fn lemma_resolved_idempotent(key: Seq<u8>, candidates: Seq<VersionedView>)
    ensures
        resolved(key, seq![resolved(key, candidates)]) == resolved(key, candidates),
{
    let once = resolved(key, candidates);
    assert(seq![once].len() == 1);
    assert(best(seq![once]) == once);
}

/// What a store holds for a key.
pub ghost enum Slot {
    /// Nothing was ever stored.
    Absent,
    /// A record.
    Holds(RecordView),
    /// Bytes that are no record.
    Corrupt,
}

/// What `contents` holds for `key`.
pub open spec fn slot_of(contents: Map<Seq<u8>, Seq<u8>>, key: Seq<u8>) -> Slot {
    if !contents.contains_key(key) {
        Slot::Absent
    } else {
        match decode_record(contents[key]) {
            Some(record) => Slot::Holds(record),
            None => Slot::Corrupt,
        }
    }
}

/// The value that a slot shows to readers.
pub open spec fn visible(slot: Slot, key: Seq<u8>) -> Option<VersionedView> {
    match slot {
        Slot::Holds(RecordView::Live { version, value, context }) => Some(
            VersionedView { key, value, version, context },
        ),
        _ => None,
    }
}

/// The state of a manager: what its backend holds, the events that wait to
/// be handed out, and whether the backend never fails.
pub ghost struct StoreView {
    pub backend: Map<Seq<u8>, Seq<u8>>,
    pub events: Seq<EventView>,
    pub reliable: bool,
}

/// The state after `record` was stored under `key` and `event` logged.
pub open spec fn after_store(pre: StoreView, key: Seq<u8>, record: RecordView) -> StoreView {
    StoreView { backend: pre.backend.insert(key, encode_record(record)), ..pre }
}

/// The state after `event` was logged.
pub open spec fn after_event(pre: StoreView, event: EventView) -> StoreView {
    StoreView { events: pre.events.push(event), ..pre }
}

/// The record of a live value.
pub open spec fn live_record(v: VersionedView) -> RecordView {
    RecordView::Live { version: v.version, value: v.value, context: v.context }
}

/// What a read of `key` returns where the backend answers.
pub open spec fn get_result(pre: StoreView, key: Seq<u8>) -> Result<
    Option<VersionedView>,
    ErrorKind,
> {
    match slot_of(pre.backend, key) {
        Slot::Corrupt => Err(ErrorKind::Storage),
        slot => Ok(visible(slot, key)),
    }
}

/// The version of the record that the store holds for `key`, where the
/// backend answers.
pub open spec fn last_version_result(pre: StoreView, key: Seq<u8>) -> Result<
    Option<u64>,
    ErrorKind,
> {
    match slot_of(pre.backend, key) {
        Slot::Corrupt => Err(ErrorKind::Storage),
        Slot::Holds(record) => Ok(Some(record.version())),
        Slot::Absent => Ok(None),
    }
}

/// What a write returns, and the state it leaves, where the backend
/// answers.
///
/// Without a version the value gets the version after the last one that
/// the key has seen here. With a version the value is stored under it
/// unless the key has seen that version or a later one here; then nothing
/// is stored and the write is reported as a conflict between what is held
/// and what was offered.
pub open spec fn put_result(
    pre: StoreView,
    key: Seq<u8>,
    value: Seq<u8>,
    version: Option<u64>,
    context: Option<ContextView>,
) -> (StoreView, Result<ResultView, ErrorKind>) {
    match slot_of(pre.backend, key) {
        Slot::Corrupt => (pre, Err(ErrorKind::Storage)),
        slot => {
            let last: u64 = match slot {
                Slot::Holds(record) => record.version(),
                _ => 0,
            };
            match version {
                None => if last == u64::MAX {
                    (pre, Err(ErrorKind::Consistency))
                } else {
                    let next = (last + 1) as u64;
                    stored_as(pre, VersionedView { key, value, version: next, context })
                },
                Some(wanted) => if slot is Holds && wanted <= last {
                    let offered = VersionedView { key, value, version: wanted, context };
                    let candidates = match visible(slot, key) {
                        Some(held) => seq![held, offered],
                        None => seq![offered],
                    };
                    (
                        after_event(pre, EventView::WriteConflict { key, candidates }),
                        Ok(ResultView::Conflict(candidates)),
                    )
                } else {
                    stored_as(pre, VersionedView { key, value, version: wanted, context })
                },
            }
        },
    }
}

/// The outcome of storing `v` and committing it.
pub open spec fn stored_as(pre: StoreView, v: VersionedView) -> (
    StoreView,
    Result<ResultView, ErrorKind>,
) {
    (
        after_event(
            after_store(pre, v.key, live_record(v)),
            EventView::WriteCommitted { key: v.key, value: v.value },
        ),
        Ok(ResultView::Stored(v)),
    )
}

/// What a delete returns, and the state it leaves, where the backend
/// answers: a live value gives way to a tombstone of the next version.
pub open spec fn delete_result(pre: StoreView, key: Seq<u8>) -> (StoreView, Result<(), ErrorKind>) {
    match slot_of(pre.backend, key) {
        Slot::Corrupt => (pre, Err(ErrorKind::Storage)),
        Slot::Holds(RecordView::Live { version, .. }) => if version == u64::MAX {
            (pre, Err(ErrorKind::Consistency))
        } else {
            (
                after_store(pre, key, RecordView::Tombstone { version: (version + 1) as u64 }),
                Ok(()),
            )
        },
        _ => (pre, Ok(())),
    }
}

/// What resolving a conflict returns, and the state it leaves, where the
/// backend answers.
pub open spec fn resolve_result(pre: StoreView, key: Seq<u8>, candidates: Seq<VersionedView>) -> (
    StoreView,
    Result<VersionedView, ErrorKind>,
) {
    if candidates.len() == 0 {
        (pre, Err(ErrorKind::Consistency))
    } else {
        let winner = resolved(key, candidates);
        (
            after_event(
                after_event(
                    after_store(pre, key, live_record(winner)),
                    EventView::WriteConflict { key, candidates },
                ),
                EventView::WriteCommitted { key, value: winner.value },
            ),
            Ok(winner),
        )
    }
}

/// Whether a repair with `authoritative` leaves the slot alone: it shows
/// the same content already, or it is a tombstone that is no older.
pub open spec fn repair_spares(slot: Slot, authoritative: VersionedView) -> bool {
    match slot {
        Slot::Holds(RecordView::Live { version, value, context }) => version
            == authoritative.version && value == authoritative.value && context
            == authoritative.context,
        Slot::Holds(RecordView::Tombstone { version }) => version >= authoritative.version,
        _ => false,
    }
}

/// The state that a read repair leaves where the backend answers.
pub open spec fn repair_result(pre: StoreView, key: Seq<u8>, authoritative: VersionedView)
    -> StoreView {
    if repair_spares(slot_of(pre.backend, key), authoritative) {
        pre
    } else {
        after_event(
            after_store(pre, key, live_record(authoritative)),
            EventView::ReadRepair { key, value: authoritative.value },
        )
    }
}

/// The kind of a failed result, the value of a successful one.
pub open spec fn get_view(result: Result<Option<VersionedValue>, Error>) -> Result<
    Option<VersionedView>,
    ErrorKind,
> {
    match result {
        Ok(Some(value)) => Ok(Some(value@)),
        Ok(None) => Ok(None),
        Err(e) => Err(e.kind()),
    }
}

/// The kind of a failed result, the view of a successful one.
pub open spec fn put_view(result: Result<ConsistencyResult, Error>) -> Result<
    ResultView,
    ErrorKind,
> {
    match result {
        Ok(outcome) => Ok(outcome@),
        Err(e) => Err(e.kind()),
    }
}

/// The kind of a failed result, the value of a successful one.
pub open spec fn version_view(result: Result<Option<u64>, Error>) -> Result<
    Option<u64>,
    ErrorKind,
> {
    match result {
        Ok(found) => Ok(found),
        Err(e) => Err(e.kind()),
    }
}

/// The kind of a failed result.
pub open spec fn unit_view(result: Result<(), Error>) -> Result<(), ErrorKind> {
    match result {
        Ok(()) => Ok(()),
        Err(e) => Err(e.kind()),
    }
}

/// The kind of a failed result, the view of a successful one.
pub open spec fn value_result_view(result: Result<VersionedValue, Error>) -> Result<
    VersionedView,
    ErrorKind,
> {
    match result {
        Ok(value) => Ok(value@),
        Err(e) => Err(e.kind()),
    }
}

/// Whether a call came to what was due: it left the state and returned the
/// result that were due, or the backend failed, nothing changed and a
/// storage failure came back. A backend that never fails leaves only the
/// first.
pub open spec fn follows<T>(
    pre: StoreView,
    post: StoreView,
    got: Result<T, ErrorKind>,
    due: (StoreView, Result<T, ErrorKind>),
) -> bool {
    &&& (post, got) == due || (post == pre && got == Err::<T, ErrorKind>(ErrorKind::Storage))
    &&& pre.reliable ==> (post, got) == due
}

/// A manager of versioned values: it keeps, for every key, what this store
/// holds, settles conflicts between candidates and logs what it does.
pub trait ConsistencyManager {
    /// What the manager holds and has logged.
    spec fn state(&self) -> StoreView;

    /// The value that this store holds for `key`; nothing where the key is
    /// absent or deleted. Other replicas are not asked.
    fn get(&self, key: &[u8]) -> (result: Result<Option<VersionedValue>, Error>)
        ensures
            follows(
                self.state(),
                self.state(),
                get_view(result),
                (self.state(), get_result(self.state(), key@)),
            ),
    ;

    /// Stores `value` under `key` and logs the commit. Without a version
    /// the next one of the key is assigned; a given version that the key
    /// has seen already makes the write a conflict.
    fn put(
        &mut self,
        key: &[u8],
        value: Vec<u8>,
        version: Option<u64>,
        context: Option<Vec<ContextEntry>>,
    ) -> (result: Result<ConsistencyResult, Error>)
        ensures
            follows(
                old(self).state(),
                final(self).state(),
                put_view(result),
                put_result(old(self).state(), key@, value@, version, context_view(context)),
            ),
    ;

    /// Deletes `key`: a live value gives way to a tombstone, which keeps
    /// older data from bringing the key back.
    fn delete(&mut self, key: &[u8]) -> (result: Result<(), Error>)
        ensures
            follows(
                old(self).state(),
                final(self).state(),
                unit_view(result),
                delete_result(old(self).state(), key@),
            ),
    ;

    /// Settles a conflict: picks the winner among `candidates`, stores it
    /// here, and logs the conflict and then the commit. An empty list of
    /// candidates is a usage error.
    fn resolve_conflict(&mut self, key: &[u8], candidates: Vec<VersionedValue>) -> (result:
        Result<VersionedValue, Error>)
        ensures
            follows(
                old(self).state(),
                final(self).state(),
                value_result_view(result),
                resolve_result(old(self).state(), key@, values_view(candidates@)),
            ),
    ;

    /// Brings this store in line with `authoritative`: where it shows
    /// something else the value is overwritten and the repair logged. A
    /// tombstone that is no older than `authoritative` stays.
    fn read_repair(&mut self, key: &[u8], authoritative: &VersionedValue) -> (result: Result<
        (),
        Error,
    >)
        ensures
            follows(
                old(self).state(),
                final(self).state(),
                unit_view(result),
                (repair_result(old(self).state(), key@, authoritative@), Ok(())),
            ),
    ;

    /// The version of the last record that this store has seen for `key`,
    /// be it a value or the mark of a deletion; nothing where it has seen
    /// none.
    fn last_version(&self, key: &[u8]) -> (result: Result<Option<u64>, Error>)
        ensures
            follows(
                self.state(),
                self.state(),
                version_view(result),
                (self.state(), last_version_result(self.state(), key@)),
            ),
    ;

    /// Hands out the events that were logged since the last call, oldest
    /// first, and forgets them.
    fn take_events(&mut self) -> (events: Vec<ConsistencyEvent>)
        ensures
            events_view(events@) == old(self).state().events,
            final(self).state() == (StoreView { events: Seq::empty(), ..old(self).state() }),
    ;
}

/// A consistency manager over a storage backend. It writes every record
/// through to the backend and keeps the events that its operations emit
/// until they are taken.
pub struct InMemoryConsistency<S: StorageEngine> {
    storage: S,
    events: Vec<ConsistencyEvent>,
}

impl<S: StorageEngine> View for InMemoryConsistency<S> {
    type V = StoreView;

    closed spec fn view(&self) -> StoreView {
        StoreView {
            backend: self.storage.contents(),
            events: events_view(self.events@),
            reliable: self.storage.reliable(),
        }
    }
}

/// Whether `a` beats `b`.
fn beats(a: &VersionedValue, b: &VersionedValue) -> (yes: bool)
    ensures
        yes == outranks(a@, b@),
{
    if a.version != b.version {
        return a.version > b.version;
    }
    if bytes_less(b.value.as_slice(), a.value.as_slice()) {
        return true;
    }
    if !bytes_equal(a.value.as_slice(), b.value.as_slice()) {
        return false;
    }
    let left = encode_context_bytes(&a.context);
    let right = encode_context_bytes(&b.context);
    bytes_less(right.as_slice(), left.as_slice())
}

/// Picks the winner among `candidates` and names it by `key`; there is
/// none where there are no candidates.
pub fn pick_winner(key: &[u8], candidates: &Vec<VersionedValue>) -> (winner: Option<
    VersionedValue,
>)
    ensures
        match winner {
            Some(value) => candidates@.len() > 0 && value@ == resolved(
                key@,
                values_view(candidates@),
            ),
            None => candidates@.len() == 0,
        },
{
    if candidates.len() == 0 {
        return None;
    }
    let ghost views = values_view(candidates@);
    let mut at: usize = 0;
    let mut i: usize = 1;
    assert(views.take(1).len() == 1);
    assert(best(views.take(1)) == views[0]);
    while i < candidates.len()
        invariant
            1 <= i <= candidates.len(),
            0 <= at < i,
            views == values_view(candidates@),
            views[at as int] == best(views.take(i as int)),
        decreases candidates.len() - i,
    {
        assert(views.take(i as int + 1).drop_last() =~= views.take(i as int));
        assert(views.take(i as int + 1).last() == views[i as int]);
        if beats(&candidates[i], &candidates[at]) {
            at = i;
        }
        i = i + 1;
    }
    assert(views.take(candidates.len() as int) =~= views);
    Some(
        VersionedValue {
            key: copy_bytes(key),
            value: copy_bytes(candidates[at].value.as_slice()),
            version: candidates[at].version,
            context: copy_context(&candidates[at].context),
        },
    )
}

/// Copies a list of values.
fn copy_values(values: &Vec<VersionedValue>) -> (copy: Vec<VersionedValue>)
    ensures
        values_view(copy@) == values_view(values@),
{
    let mut copy: Vec<VersionedValue> = Vec::new();
    let mut i: usize = 0;
    while i < values.len()
        invariant
            0 <= i <= values.len(),
            values_view(copy@) == values_view(values@).take(i as int),
        decreases values.len() - i,
    {
        let ghost before = values_view(copy@);
        let value = values[i].clone();
        copy.push(value);
        assert(values_view(copy@) =~= before.push(value@));
        assert(values_view(values@).take(i as int + 1) =~= values_view(values@).take(
            i as int,
        ).push(values@[i as int]@));
        i = i + 1;
    }
    assert(values_view(values@).take(values.len() as int) =~= values_view(values@));
    copy
}

impl<S: StorageEngine> InMemoryConsistency<S> {
    /// A manager over `storage` with no events waiting.
    pub fn new(storage: S) -> (manager: Self)
        ensures
            manager@.backend == storage.contents(),
            manager@.events.len() == 0,
            manager@.reliable == storage.reliable(),
    {
        let manager = InMemoryConsistency { storage, events: Vec::new() };
        assert(manager@.events =~= Seq::<EventView>::empty());
        manager
    }

    /// Reads what the backend holds for `key`.
    fn read_slot(&self, key: &[u8]) -> (result: Result<Option<StoredRecord>, Error>)
        ensures
            match result {
                Ok(Some(record)) => slot_of(self@.backend, key@) == Slot::Holds(record@),
                Ok(None) => slot_of(self@.backend, key@) is Absent,
                Err(e) => e.kind() == ErrorKind::Storage && (self@.reliable ==> slot_of(
                    self@.backend,
                    key@,
                ) is Corrupt),
            },
    {
        match self.storage.get(key) {
            Err(e) => Err(e),
            Ok(None) => Ok(None),
            Ok(Some(bytes)) => match decode(bytes.as_slice()) {
                Some(record) => Ok(Some(record)),
                None => Err(Error::Storage("stored bytes are not a record".to_owned())),
            },
        }
    }

    /// Logs an event.
    fn emit(&mut self, event: ConsistencyEvent)
        ensures
            final(self)@ == after_event(old(self)@, event@),
    {
        let ghost before = events_view(self.events@);
        self.events.push(event);
        assert(events_view(self.events@) =~= before.push(event@));
    }

    /// Writes a live value through to the backend.
    fn store(&mut self, key: &[u8], value: &VersionedValue) -> (result: Result<(), Error>)
        ensures
            match result {
                Ok(()) => final(self)@ == after_store(old(self)@, key@, live_record(value@)),
                Err(e) => e.kind() == ErrorKind::Storage && final(self)@ == old(self)@
                    && !old(self)@.reliable,
            },
    {
        let bytes = encode_live(value.version, value.value.as_slice(), &value.context);
        self.storage.put(key, bytes.as_slice())
    }
}

impl<S: StorageEngine> ConsistencyManager for InMemoryConsistency<S> {
    open spec fn state(&self) -> StoreView {
        self@
    }

    fn get(&self, key: &[u8]) -> (result: Result<Option<VersionedValue>, Error>) {
        match self.read_slot(key) {
            Err(e) => Err(e),
            Ok(None) => Ok(None),
            Ok(Some(StoredRecord::Tombstone { .. })) => Ok(None),
            Ok(Some(StoredRecord::Live { version, value, context })) => Ok(
                Some(VersionedValue { key: copy_bytes(key), value, version, context }),
            ),
        }
    }

    fn put(
        &mut self,
        key: &[u8],
        value: Vec<u8>,
        version: Option<u64>,
        context: Option<Vec<ContextEntry>>,
    ) -> (result: Result<ConsistencyResult, Error>) {
        let held = match self.read_slot(key) {
            Err(e) => {
                return Err(e);
            },
            Ok(held) => held,
        };
        let last: u64 = match &held {
            Some(StoredRecord::Live { version, .. }) => *version,
            Some(StoredRecord::Tombstone { version }) => *version,
            None => 0,
        };
        let assigned: u64 = match version {
            None => {
                if last == u64::MAX {
                    return Err(Error::Consistency("the key has no version left".to_owned()));
                }
                last + 1
            },
            Some(wanted) => {
                if held.is_some() && wanted <= last {
                    let offered = VersionedValue {
                        key: copy_bytes(key),
                        value,
                        version: wanted,
                        context,
                    };
                    let mut candidates: Vec<VersionedValue> = Vec::new();
                    match held {
                        Some(StoredRecord::Live { version, value, context }) => {
                            candidates.push(
                                VersionedValue { key: copy_bytes(key), value, version, context },
                            );
                        },
                        _ => {},
                    }
                    candidates.push(offered);
                    let listed = copy_values(&candidates);
                    proof {
                        let slot = slot_of(old(self)@.backend, key@);
                        match visible(slot, key@) {
                            Some(held_view) => {
                                assert(values_view(candidates@) =~= seq![held_view, offered@]);
                            },
                            None => {
                                assert(values_view(candidates@) =~= seq![offered@]);
                            },
                        }
                    }
                    let conflict = ConsistencyEvent::WriteConflict {
                        key: copy_bytes(key),
                        candidates: listed,
                    };
                    self.emit(conflict);
                    return Ok(ConsistencyResult::Conflict(candidates));
                }
                wanted
            },
        };
        let stored = VersionedValue { key: copy_bytes(key), value, version: assigned, context };
        match self.store(key, &stored) {
            Err(e) => Err(e),
            Ok(()) => {
                self.emit(
                    ConsistencyEvent::WriteCommitted {
                        key: copy_bytes(key),
                        value: copy_bytes(stored.value.as_slice()),
                    },
                );
                Ok(ConsistencyResult::Stored(stored))
            },
        }
    }

    fn delete(&mut self, key: &[u8]) -> (result: Result<(), Error>) {
        match self.read_slot(key) {
            Err(e) => Err(e),
            Ok(Some(StoredRecord::Live { version, .. })) => {
                if version == u64::MAX {
                    return Err(Error::Consistency("the key has no version left".to_owned()));
                }
                let bytes = encode_tombstone(version + 1);
                self.storage.put(key, bytes.as_slice())
            },
            Ok(_) => Ok(()),
        }
    }

    fn resolve_conflict(&mut self, key: &[u8], candidates: Vec<VersionedValue>) -> (result:
        Result<VersionedValue, Error>) {
        let winner = match pick_winner(key, &candidates) {
            Some(winner) => winner,
            None => {
                return Err(Error::Consistency("no candidates to resolve".to_owned()));
            },
        };
        match self.store(key, &winner) {
            Err(e) => Err(e),
            Ok(()) => {
                self.emit(ConsistencyEvent::WriteConflict { key: copy_bytes(key), candidates });
                self.emit(
                    ConsistencyEvent::WriteCommitted {
                        key: copy_bytes(key),
                        value: copy_bytes(winner.value.as_slice()),
                    },
                );
                Ok(winner)
            },
        }
    }

    fn read_repair(&mut self, key: &[u8], authoritative: &VersionedValue) -> (result: Result<
        (),
        Error,
    >) {
        let held = match self.storage.get(key) {
            Err(e) => {
                return Err(e);
            },
            Ok(None) => None,
            Ok(Some(bytes)) => decode(bytes.as_slice()),
        };
        let spared = match &held {
            Some(StoredRecord::Live { version, value, context }) => {
                let mine = encode_context_bytes(context);
                let theirs = encode_context_bytes(&authoritative.context);
                proof {
                    lemma_context_fits(*context);
                    lemma_context_fits(authoritative.context);
                    if mine@ == theirs@ {
                        lemma_context_bytes_injective(
                            context_view(*context),
                            context_view(authoritative.context),
                        );
                    }
                }
                *version == authoritative.version && bytes_equal(
                    value.as_slice(),
                    authoritative.value.as_slice(),
                ) && bytes_equal(mine.as_slice(), theirs.as_slice())
            },
            Some(StoredRecord::Tombstone { version }) => *version >= authoritative.version,
            None => false,
        };
        if spared {
            return Ok(());
        }
        match self.store(key, authoritative) {
            Err(e) => Err(e),
            Ok(()) => {
                self.emit(
                    ConsistencyEvent::ReadRepair {
                        key: copy_bytes(key),
                        value: copy_bytes(authoritative.value.as_slice()),
                    },
                );
                Ok(())
            },
        }
    }

    fn last_version(&self, key: &[u8]) -> (result: Result<Option<u64>, Error>) {
        match self.read_slot(key) {
            Err(e) => Err(e),
            Ok(None) => Ok(None),
            Ok(Some(StoredRecord::Live { version, .. })) => Ok(Some(version)),
            Ok(Some(StoredRecord::Tombstone { version })) => Ok(Some(version)),
        }
    }

    fn take_events(&mut self) -> (events: Vec<ConsistencyEvent>) {
        let mut events: Vec<ConsistencyEvent> = Vec::new();
        std::mem::swap(&mut events, &mut self.events);
        assert(events_view(self.events@) =~= Seq::<EventView>::empty());
        events
    }
}

/// A write that is stored can be read back: a read that follows it shows
/// the value under the version it was stored with.
pub proof fn lemma_put_then_get(
    pre: StoreView,
    key: Seq<u8>,
    value: Seq<u8>,
    version: Option<u64>,
    context: Option<ContextView>,
)
    requires
        context matches Some(entries) ==> context_fits(entries),
    ensures
        put_result(pre, key, value, version, context).1 matches Ok(ResultView::Stored(stored))
            ==> stored.value == value && get_result(
            put_result(pre, key, value, version, context).0,
            key,
        ) == Ok::<Option<VersionedView>, ErrorKind>(Some(stored)),
{
    let (post, outcome) = put_result(pre, key, value, version, context);
    match outcome {
        Ok(ResultView::Stored(stored)) => {
            lemma_record_round_trip(live_record(stored));
        },
        _ => {},
    }
}

/// Versions grow strictly with every write that is stored: the version of
/// a stored value lies above the one that the store held for the key.
pub proof fn lemma_stored_version_grows(
    pre: StoreView,
    key: Seq<u8>,
    value: Seq<u8>,
    version: Option<u64>,
    context: Option<ContextView>,
)
    ensures
        put_result(pre, key, value, version, context).1 matches Ok(ResultView::Stored(stored))
            ==> (slot_of(pre.backend, key) matches Slot::Holds(held) ==> stored.version
            > held.version()),
        version is None ==> !(put_result(pre, key, value, version, context).1 matches Ok(
            ResultView::Conflict(_),
        )),
{
}

/// A tombstone keeps older data out: once a key is deleted, a write with a
/// version that the key has seen already is refused.
pub proof fn lemma_tombstone_refuses_stale_write(
    pre: StoreView,
    key: Seq<u8>,
    value: Seq<u8>,
    wanted: u64,
    context: Option<ContextView>,
)
    requires
        slot_of(pre.backend, key) matches Slot::Holds(RecordView::Tombstone { version }) && wanted
            <= version,
    ensures
        put_result(pre, key, value, Some(wanted), context).1 matches Ok(ResultView::Conflict(_)),
        put_result(pre, key, value, Some(wanted), context).0.backend == pre.backend,
{
}

/// Settling a conflict between two candidates gives the same winner, and
/// stores the same record, in either order.
pub proof fn lemma_resolve_conflict_commutes(
    pre: StoreView,
    key: Seq<u8>,
    a: VersionedView,
    b: VersionedView,
)
    requires
        value_fits(a),
        value_fits(b),
    ensures
        resolve_result(pre, key, seq![a, b]).1 == resolve_result(pre, key, seq![b, a]).1,
        resolve_result(pre, key, seq![a, b]).0.backend == resolve_result(
            pre,
            key,
            seq![b, a],
        ).0.backend,
{
    lemma_resolved_commutes(key, a, b);
}

/// Settling a conflict again, with the winner as the only candidate, gives
/// the winner again and leaves the stored record as it is.
pub proof fn lemma_resolve_conflict_idempotent(
    pre: StoreView,
    key: Seq<u8>,
    candidates: Seq<VersionedView>,
)
    requires
        candidates.len() > 0,
    ensures
        ({
            let (once, winner) = resolve_result(pre, key, candidates);
            let (twice, again) = resolve_result(once, key, seq![winner->Ok_0]);
            winner is Ok && again == winner && twice.backend == once.backend
        }),
{
    lemma_resolved_idempotent(key, candidates);
    let (once, winner) = resolve_result(pre, key, candidates);
    let (twice, again) = resolve_result(once, key, seq![winner->Ok_0]);
    assert(twice.backend =~= once.backend);
}

/// A manager that keeps nothing: every write is accepted and forgotten,
/// every read finds nothing. It stands in where a manager is needed and
/// none is wanted.
#[derive(Debug, Clone, Copy, PartialEq, Eq, Structural)]
pub struct DummyConsistencyManager;

impl DummyConsistencyManager {
    /// Accepts the write and forgets it.
    pub fn put(&self, key: &[u8], value: &[u8]) -> (result: Result<(), Error>)
        ensures
            result is Ok,
    {
        Ok(())
    }

    /// Finds nothing.
    pub fn get(&self, key: &[u8]) -> (result: Result<Option<Vec<u8>>, Error>)
        ensures
            result matches Ok(None),
    {
        Ok(None)
    }

    /// Has nothing to delete.
    pub fn delete(&self, key: &[u8]) -> (result: Result<(), Error>)
        ensures
            result is Ok,
    {
        Ok(())
    }

    /// Has nothing to repair.
    pub fn read_repair(&self, key: &[u8]) -> (result: Result<(), Error>)
        ensures
            result is Ok,
    {
        Ok(())
    }

    /// Has no events to hand out.
    pub fn watch_events(&self) -> (result: Result<Vec<ConsistencyEvent>, Error>)
        ensures
            result matches Ok(events) && events@.len() == 0,
    {
        Ok(Vec::new())
    }
}

} // verus!
