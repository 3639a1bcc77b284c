//! How a versioned value is written down for the storage backend.
//!
//! A record is one tag byte, the version as eight little-endian bytes, and
//! then, by tag: the value (tag 0); the causal context and the value
//! (tag 1); nothing, for a deleted key (tag 2). A context is the number of
//! its entries followed by the entries, each the length of the peer id, the
//! peer id and the counter. All numbers take eight little-endian bytes.

use crate::bytestring::copy_bytes;
use vstd::bytes::{
    lemma_auto_spec_u64_to_from_le_bytes, spec_u64_from_le_bytes, spec_u64_to_le_bytes,
    u64_from_le_bytes, u64_to_le_bytes,
};
use vstd::prelude::*;
use vstd::slice::slice_subrange;

verus! {

/// How far one peer's history had been seen when a value was written.
#[derive(Debug, PartialEq, Eq)]
pub struct ContextEntry {
    pub peer: Vec<u8>,
    pub counter: u64,
}

impl View for ContextEntry {
    type V = (Seq<u8>, u64);

    open spec fn view(&self) -> (Seq<u8>, u64) {
        (self.peer@, self.counter)
    }
}

impl Clone for ContextEntry {
    fn clone(&self) -> (copy: Self)
        ensures
            copy@ == self@,
    {
        ContextEntry { peer: copy_bytes(self.peer.as_slice()), counter: self.counter }
    }
}

/// A causal context as mathematics: peers and their counters, in order.
pub type ContextView = Seq<(Seq<u8>, u64)>;

/// The views of a list of entries, in order.
pub open spec fn entries_view(entries: Seq<ContextEntry>) -> ContextView {
    entries.map_values(|e: ContextEntry| e@)
}

/// The view of an optional context.
pub open spec fn context_view(context: Option<Vec<ContextEntry>>) -> Option<ContextView> {
    match context {
        Some(entries) => Some(entries_view(entries@)),
        None => None,
    }
}

/// Copies an optional context.
pub fn copy_context(context: &Option<Vec<ContextEntry>>) -> (copy: Option<Vec<ContextEntry>>)
    ensures
        context_view(copy) == context_view(*context),
{
    match context {
        None => None,
        Some(entries) => {
            let mut copy: Vec<ContextEntry> = Vec::new();
            let mut i: usize = 0;
            while i < entries.len()
                invariant
                    0 <= i <= entries.len(),
                    entries_view(copy@) == entries_view(entries@).take(i as int),
                decreases entries.len() - i,
            {
                let ghost before = entries_view(copy@);
                let entry = entries[i].clone();
                copy.push(entry);
                assert(entries_view(copy@) =~= before.push(entry@));
                assert(entries_view(entries@).take(i as int + 1) =~= entries_view(entries@).take(
                    i as int,
                ).push(entries@[i as int]@));
                i = i + 1;
            }
            assert(entries_view(entries@).take(entries.len() as int) =~= entries_view(entries@));
            Some(copy)
        },
    }
}

/// What a store holds for a key.
#[derive(Debug, PartialEq, Eq)]
pub enum StoredRecord {
    /// A value, its version and the context it was written in.
    Live { version: u64, value: Vec<u8>, context: Option<Vec<ContextEntry>> },
    /// The mark that the key was deleted at this version.
    Tombstone { version: u64 },
}

/// The mathematical content of a [`StoredRecord`].
pub ghost enum RecordView {
    Live { version: u64, value: Seq<u8>, context: Option<ContextView> },
    Tombstone { version: u64 },
}

impl View for StoredRecord {
    type V = RecordView;

    open spec fn view(&self) -> RecordView {
        match self {
            StoredRecord::Live { version, value, context } => RecordView::Live {
                version: *version,
                value: value@,
                context: context_view(*context),
            },
            StoredRecord::Tombstone { version } => RecordView::Tombstone { version: *version },
        }
    }
}

impl RecordView {
    /// The version that the record carries.
    pub open spec fn version(self) -> u64 {
        match self {
            RecordView::Live { version, .. } => version,
            RecordView::Tombstone { version } => version,
        }
    }
}

/// The tag of a value without context.
pub const TAG_PLAIN: u8 = 0;

/// The tag of a value with context.
pub const TAG_CONTEXT: u8 = 1;

/// The tag of a deleted key.
pub const TAG_TOMBSTONE: u8 = 2;

/// The entries of a context, written one after the other.
pub open spec fn encode_entries(entries: ContextView) -> Seq<u8>
    decreases entries.len(),
{
    if entries.len() == 0 {
        Seq::empty()
    } else {
        spec_u64_to_le_bytes(entries[0].0.len() as u64) + entries[0].0 + spec_u64_to_le_bytes(
            entries[0].1,
        ) + encode_entries(entries.drop_first())
    }
}

/// A context: the number of entries, then the entries.
pub open spec fn encode_context(entries: ContextView) -> Seq<u8> {
    spec_u64_to_le_bytes(entries.len() as u64) + encode_entries(entries)
}

/// A record as bytes.
pub open spec fn encode_record(record: RecordView) -> Seq<u8> {
    match record {
        RecordView::Live { version, value, context: None } => seq![TAG_PLAIN]
            + spec_u64_to_le_bytes(version) + value,
        RecordView::Live { version, value, context: Some(entries) } => seq![TAG_CONTEXT]
            + spec_u64_to_le_bytes(version) + encode_context(entries) + value,
        RecordView::Tombstone { version } => seq![TAG_TOMBSTONE] + spec_u64_to_le_bytes(version),
    }
}

/// Reads `count` entries from the front of `bytes`; gives them and what
/// follows them, or nothing where the bytes run out.
pub open spec fn decode_entries(bytes: Seq<u8>, count: nat) -> Option<(ContextView, Seq<u8>)>
    decreases count,
{
    if count == 0 {
        Some((Seq::empty(), bytes))
    } else if bytes.len() < 8 {
        None
    } else {
        let width = spec_u64_from_le_bytes(bytes.subrange(0, 8)) as int;
        if bytes.len() < 16 + width {
            None
        } else {
            let peer = bytes.subrange(8, 8 + width);
            let counter = spec_u64_from_le_bytes(bytes.subrange(8 + width, 16 + width));
            match decode_entries(bytes.skip(16 + width), (count - 1) as nat) {
                Some((rest, tail)) => Some((seq![(peer, counter)] + rest, tail)),
                None => None,
            }
        }
    }
}

/// Reads a record; nothing where the bytes are not a record.
pub open spec fn decode_record(bytes: Seq<u8>) -> Option<RecordView> {
    if bytes.len() < 9 {
        None
    } else {
        let version = spec_u64_from_le_bytes(bytes.subrange(1, 9));
        let body = bytes.skip(9);
        if bytes[0] == TAG_PLAIN {
            Some(RecordView::Live { version, value: body, context: None })
        } else if bytes[0] == TAG_TOMBSTONE {
            if body.len() == 0 {
                Some(RecordView::Tombstone { version })
            } else {
                None
            }
        } else if bytes[0] == TAG_CONTEXT {
            if body.len() < 8 {
                None
            } else {
                let count = spec_u64_from_le_bytes(body.subrange(0, 8)) as nat;
                match decode_entries(body.skip(8), count) {
                    Some((entries, value)) => Some(
                        RecordView::Live { version, value, context: Some(entries) },
                    ),
                    None => None,
                }
            }
        } else {
            None
        }
    }
}

/// Whether every length in the context fits the eight bytes it is written in.
pub open spec fn context_fits(entries: ContextView) -> bool {
    &&& entries.len() <= u64::MAX
    &&& forall|i: int| 0 <= i < entries.len() ==> (#[trigger] entries[i]).0.len() <= u64::MAX
}

/// Whether a record can be written down.
pub open spec fn record_fits(record: RecordView) -> bool {
    match record {
        RecordView::Live { context: Some(entries), .. } => context_fits(entries),
        _ => true,
    }
}

/// Entries that were written down are read back unchanged, followed by
/// whatever came after them.
pub proof fn lemma_entries_round_trip(entries: ContextView, tail: Seq<u8>)
    requires
        context_fits(entries),
    ensures
        decode_entries(encode_entries(entries) + tail, entries.len()) == Some((entries, tail)),
    decreases entries.len(),
{
    lemma_auto_spec_u64_to_from_le_bytes();
    if entries.len() == 0 {
        assert(encode_entries(entries) + tail =~= tail);
        assert(entries =~= Seq::empty());
    } else {
        let peer = entries[0].0;
        let counter = entries[0].1;
        let rest = entries.drop_first();
        let bytes = encode_entries(entries) + tail;
        let width = peer.len() as int;
        assert(bytes.subrange(0, 8) =~= spec_u64_to_le_bytes(peer.len() as u64));
        assert(bytes.subrange(8, 8 + width) =~= peer);
        assert(bytes.subrange(8 + width, 16 + width) =~= spec_u64_to_le_bytes(counter));
        assert(bytes.skip(16 + width) =~= encode_entries(rest) + tail);
        assert(context_fits(rest)) by {
            assert forall|i: int| 0 <= i < rest.len() implies (#[trigger] rest[i]).0.len()
                <= u64::MAX by {
                assert(rest[i] == entries[i + 1]);
            }
        }
        lemma_entries_round_trip(rest, tail);
        assert(seq![(peer, counter)] + rest =~= entries);
    }
}

/// A record that was written down is read back unchanged.
pub proof fn lemma_record_round_trip(record: RecordView)
    requires
        record_fits(record),
    ensures
        decode_record(encode_record(record)) == Some(record),
{
    lemma_auto_spec_u64_to_from_le_bytes();
    let bytes = encode_record(record);
    match record {
        RecordView::Live { version, value, context: None } => {
            assert(bytes.subrange(1, 9) =~= spec_u64_to_le_bytes(version));
            assert(bytes.skip(9) =~= value);
        },
        RecordView::Live { version, value, context: Some(entries) } => {
            assert(bytes.subrange(1, 9) =~= spec_u64_to_le_bytes(version));
            let body = bytes.skip(9);
            assert(body =~= encode_context(entries) + value);
            assert(body.subrange(0, 8) =~= spec_u64_to_le_bytes(entries.len() as u64));
            assert(body.skip(8) =~= encode_entries(entries) + value);
            lemma_entries_round_trip(entries, value);
        },
        RecordView::Tombstone { version } => {
            assert(bytes.subrange(1, 9) =~= spec_u64_to_le_bytes(version));
            assert(bytes.skip(9) =~= Seq::<u8>::empty());
        },
    }
}

/// Appends `extra` to `bytes`.
fn append(bytes: &mut Vec<u8>, extra: &[u8])
    ensures
        final(bytes)@ == old(bytes)@ + extra@,
{
    let ghost start = bytes@;
    let mut i: usize = 0;
    while i < extra.len()
        invariant
            0 <= i <= extra.len(),
            bytes@ == start + extra@.take(i as int),
        decreases extra.len() - i,
    {
        bytes.push(extra[i]);
        assert(extra@.take(i as int + 1) =~= extra@.take(i as int).push(extra@[i as int]));
        assert(bytes@ =~= start + extra@.take(i as int + 1));
        i = i + 1;
    }
    assert(extra@.take(extra.len() as int) =~= extra@);
}

/// One entry more adds its written form at the end.
proof fn lemma_encode_entries_push(entries: ContextView, entry: (Seq<u8>, u64))
    ensures
        encode_entries(entries.push(entry)) == encode_entries(entries) + spec_u64_to_le_bytes(
            entry.0.len() as u64,
        ) + entry.0 + spec_u64_to_le_bytes(entry.1),
    decreases entries.len(),
{
    let more = entries.push(entry);
    let written = spec_u64_to_le_bytes(entry.0.len() as u64) + entry.0 + spec_u64_to_le_bytes(
        entry.1,
    );
    if entries.len() == 0 {
        assert(more[0] == entry);
        assert(more.drop_first().len() == 0);
        assert(encode_entries(more.drop_first()) =~= Seq::<u8>::empty());
        assert(encode_entries(entries) =~= Seq::<u8>::empty());
        assert(encode_entries(more) =~= encode_entries(entries) + written);
    } else {
        assert(more[0] == entries[0]);
        assert(more.drop_first() =~= entries.drop_first().push(entry));
        lemma_encode_entries_push(entries.drop_first(), entry);
        assert(encode_entries(more) =~= encode_entries(entries) + written);
    }
}

/// Appends the entries of a context.
fn append_entries(bytes: &mut Vec<u8>, entries: &Vec<ContextEntry>)
    ensures
        final(bytes)@ == old(bytes)@ + encode_entries(entries_view(entries@)),
{
    let ghost start = bytes@;
    let ghost all = entries_view(entries@);
    let mut i: usize = 0;
    assert(bytes@ =~= start + encode_entries(all.take(0)));
    while i < entries.len()
        invariant
            0 <= i <= entries.len(),
            all == entries_view(entries@),
            bytes@ == start + encode_entries(all.take(i as int)),
        decreases entries.len() - i,
    {
        let ghost before = bytes@;
        let width = u64_to_le_bytes(entries[i].peer.len() as u64);
        append(bytes, width.as_slice());
        append(bytes, entries[i].peer.as_slice());
        let counter = u64_to_le_bytes(entries[i].counter);
        append(bytes, counter.as_slice());
        proof {
            assert(all.take(i as int + 1) =~= all.take(i as int).push(entries@[i as int]@));
            lemma_encode_entries_push(all.take(i as int), entries@[i as int]@);
            assert(bytes@ =~= start + encode_entries(all.take(i as int + 1)));
        }
        i = i + 1;
    }
    assert(all.take(entries.len() as int) =~= all);
}

/// What stands for a context in the order of candidates: nothing for an
/// absent one, its written form for a present one.
pub open spec fn context_bytes(context: Option<ContextView>) -> Seq<u8> {
    match context {
        Some(entries) => encode_context(entries),
        None => Seq::empty(),
    }
}

/// Contexts that are written the same way are the same.
pub proof fn lemma_context_bytes_injective(a: Option<ContextView>, b: Option<ContextView>)
    requires
        a matches Some(entries) ==> context_fits(entries),
        b matches Some(entries) ==> context_fits(entries),
        context_bytes(a) == context_bytes(b),
    ensures
        a == b,
{
    lemma_auto_spec_u64_to_from_le_bytes();
    match (a, b) {
        (Some(x), Some(y)) => {
            let bytes = encode_context(x);
            assert(bytes.subrange(0, 8) =~= spec_u64_to_le_bytes(x.len() as u64));
            assert(bytes.subrange(0, 8) =~= spec_u64_to_le_bytes(y.len() as u64));
            assert(x.len() == y.len());
            assert(bytes.skip(8) =~= encode_entries(x) + Seq::<u8>::empty());
            assert(bytes.skip(8) =~= encode_entries(y) + Seq::<u8>::empty());
            lemma_entries_round_trip(x, Seq::empty());
            lemma_entries_round_trip(y, Seq::empty());
        },
        (Some(x), None) => {
            assert(encode_context(x).len() >= 8);
        },
        (None, Some(y)) => {
            assert(encode_context(y).len() >= 8);
        },
        (None, None) => {},
    }
}

/// What exec contexts hold can always be written down.
pub proof fn lemma_context_fits(context: Option<Vec<ContextEntry>>)
    ensures
        context_view(context) matches Some(entries) ==> context_fits(entries),
{
    match context {
        Some(entries) => {
            assert(entries@.len() == entries.len());
            assert forall|i: int| 0 <= i < entries@.len() implies (#[trigger] entries_view(
                entries@,
            )[i]).0.len() <= u64::MAX by {
                assert(entries_view(entries@)[i] == entries@[i]@);
                assert(entries@[i].peer@.len() == entries@[i].peer.len());
            }
        },
        None => {},
    }
}

/// Writes down what stands for a context in the order of candidates.
pub fn encode_context_bytes(context: &Option<Vec<ContextEntry>>) -> (bytes: Vec<u8>)
    ensures
        bytes@ == context_bytes(context_view(*context)),
{
    match context {
        Some(entries) => {
            let mut bytes = u64_to_le_bytes(entries.len() as u64);
            append_entries(&mut bytes, entries);
            bytes
        },
        None => Vec::new(),
    }
}

/// Writes down a live value.
pub fn encode_live(version: u64, value: &[u8], context: &Option<Vec<ContextEntry>>) -> (bytes: Vec<
    u8,
>)
    ensures
        bytes@ == encode_record(
            RecordView::Live { version, value: value@, context: context_view(*context) },
        ),
        decode_record(bytes@) == Some(
            RecordView::Live { version, value: value@, context: context_view(*context) },
        ),
{
    let ghost record = RecordView::Live { version, value: value@, context: context_view(*context) };
    proof {
        lemma_context_fits(*context);
        lemma_record_round_trip(record);
    }
    let mut bytes: Vec<u8> = Vec::new();
    let v = u64_to_le_bytes(version);
    match context {
        None => {
            bytes.push(TAG_PLAIN);
            append(&mut bytes, v.as_slice());
        },
        Some(entries) => {
            bytes.push(TAG_CONTEXT);
            append(&mut bytes, v.as_slice());
            let count = u64_to_le_bytes(entries.len() as u64);
            append(&mut bytes, count.as_slice());
            append_entries(&mut bytes, entries);
        },
    }
    append(&mut bytes, value);
    assert(bytes@ =~= encode_record(record));
    bytes
}

/// Writes down the mark of a deleted key.
pub fn encode_tombstone(version: u64) -> (bytes: Vec<u8>)
    ensures
        bytes@ == encode_record(RecordView::Tombstone { version }),
        decode_record(bytes@) == Some(RecordView::Tombstone { version }),
{
    proof {
        lemma_record_round_trip(RecordView::Tombstone { version });
    }
    let mut bytes: Vec<u8> = Vec::new();
    bytes.push(TAG_TOMBSTONE);
    let v = u64_to_le_bytes(version);
    append(&mut bytes, v.as_slice());
    assert(bytes@ =~= encode_record(RecordView::Tombstone { version }));
    bytes
}

/// Writes a record down.
pub fn encode(record: &StoredRecord) -> (bytes: Vec<u8>)
    ensures
        bytes@ == encode_record(record@),
        decode_record(bytes@) == Some(record@),
{
    match record {
        StoredRecord::Live { version, value, context } => encode_live(
            *version,
            value.as_slice(),
            context,
        ),
        StoredRecord::Tombstone { version } => encode_tombstone(*version),
    }
}

/// Reads `count` entries that start at `from`; gives them and the place
/// where the value starts.
fn decode_context(bytes: &[u8], from: usize, count: u64) -> (found: Option<
    (Vec<ContextEntry>, usize),
>)
    requires
        from <= bytes@.len(),
    ensures
        match found {
            Some((entries, next)) => next <= bytes@.len() && decode_entries(
                bytes@.skip(from as int),
                count as nat,
            ) == Some((entries_view(entries@), bytes@.skip(next as int))),
            None => decode_entries(bytes@.skip(from as int), count as nat).is_none(),
        },
{
    let mut entries: Vec<ContextEntry> = Vec::new();
    let mut at: usize = from;
    let mut done: u64 = 0;
    let ghost goal = decode_entries(bytes@.skip(from as int), count as nat);
    assert(entries_view(entries@) =~= Seq::empty());
    while done < count
        invariant
            from <= at <= bytes@.len(),
            done <= count,
            goal == decode_entries(bytes@.skip(from as int), count as nat),
            goal == match decode_entries(bytes@.skip(at as int), (count - done) as nat) {
                Some((rest, tail)) => Some((entries_view(entries@) + rest, tail)),
                None => None,
            },
        decreases count - done,
    {
        let ghost here = bytes@.skip(at as int);
        let left = bytes.len() - at;
        if left < 16 {
            proof {
                if here.len() >= 8 {
                    let width = spec_u64_from_le_bytes(here.subrange(0, 8)) as int;
                    assert(here.len() < 16 + width);
                }
            }
            return None;
        }
        let width = u64_from_le_bytes(slice_subrange(bytes, at, at + 8));
        assert(bytes@.subrange(at as int, at + 8) =~= here.subrange(0, 8));
        if width > (left - 16) as u64 {
            return None;
        }
        let w = width as usize;
        let peer = copy_bytes(slice_subrange(bytes, at + 8, at + 8 + w));
        let counter = u64_from_le_bytes(slice_subrange(bytes, at + 8 + w, at + 16 + w));
        proof {
            assert(bytes@.subrange(at + 8, at + 8 + w) =~= here.subrange(8, 8 + w));
            assert(bytes@.subrange(at + 8 + w, at + 16 + w) =~= here.subrange(8 + w, 16 + w));
            assert(here.skip(16 + w) =~= bytes@.skip(at + 16 + w));
            let before = entries_view(entries@);
            match decode_entries(bytes@.skip(at + 16 + w), (count - done - 1) as nat) {
                Some((rest, tail)) => {
                    assert(before + (seq![(peer@, counter)] + rest) =~= before.push(
                        (peer@, counter),
                    ) + rest);
                },
                None => {},
            }
        }
        let ghost before = entries_view(entries@);
        entries.push(ContextEntry { peer, counter });
        assert(entries_view(entries@) =~= before.push((peer@, counter)));
        at = at + 16 + w;
        done = done + 1;
    }
    assert(entries_view(entries@) + Seq::empty() =~= entries_view(entries@));
    Some((entries, at))
}

/// Reads a record; nothing where the bytes are not a record.
pub fn decode(bytes: &[u8]) -> (found: Option<StoredRecord>)
    ensures
        match found {
            Some(record) => decode_record(bytes@) == Some(record@),
            None => decode_record(bytes@).is_none(),
        },
{
    if bytes.len() < 9 {
        return None;
    }
    let tag = bytes[0];
    let version = u64_from_le_bytes(slice_subrange(bytes, 1, 9));
    if tag == TAG_PLAIN {
        let value = copy_bytes(slice_subrange(bytes, 9, bytes.len()));
        assert(bytes@.subrange(9, bytes@.len() as int) =~= bytes@.skip(9));
        Some(StoredRecord::Live { version, value, context: None })
    } else if tag == TAG_TOMBSTONE {
        if bytes.len() == 9 {
            Some(StoredRecord::Tombstone { version })
        } else {
            None
        }
    } else if tag == TAG_CONTEXT {
        if bytes.len() < 17 {
            return None;
        }
        let count = u64_from_le_bytes(slice_subrange(bytes, 9, 17));
        assert(bytes@.subrange(9, 17) =~= bytes@.skip(9).subrange(0, 8));
        assert(bytes@.skip(9).skip(8) =~= bytes@.skip(17));
        match decode_context(bytes, 17, count) {
            Some((entries, next)) => {
                let value = copy_bytes(slice_subrange(bytes, next, bytes.len()));
                assert(bytes@.subrange(next as int, bytes@.len() as int) =~= bytes@.skip(
                    next as int,
                ));
                Some(StoredRecord::Live { version, value, context: Some(entries) })
            },
            None => None,
        }
    } else {
        None
    }
}

} // verus!
