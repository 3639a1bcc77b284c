//! The storage backend: raw keys and values, and an engine that keeps them
//! in memory.

use crate::bytestring::{bytes_less, copy_bytes, lex_at_most, lex_less};
use crate::bytestring::{lemma_lex_total, lemma_lex_transitive};
use crate::error::{Error, ErrorKind};
use dashmap::DashMap;
use vstd::prelude::*;

verus! {

/// One stored pair.
#[derive(Debug, PartialEq, Eq)]
pub struct KeyValue {
    pub key: Vec<u8>,
    pub value: Vec<u8>,
}

/// One step of a batch.
#[derive(Debug, PartialEq, Eq)]
pub enum WriteOperation {
    Put { key: Vec<u8>, value: Vec<u8> },
    Delete { key: Vec<u8> },
}

/// `dashmap::DashMap`, the concurrent hash table that the in-memory engine
/// keeps its pairs in. Nothing is known of what is inside one but what the
/// functions below say.
#[verifier::external_type_specification]
#[verifier::external_body]
#[verifier::reject_recursive_types(K)]
#[verifier::reject_recursive_types(V)]
#[verifier::reject_recursive_types(S)]
pub struct ExDashMap<K, V, S>(DashMap<K, V, S>);

/// The pairs that a table of byte strings holds.
pub uninterp spec fn table_entries(table: DashMap<Vec<u8>, Vec<u8>>) -> Map<Seq<u8>, Seq<u8>>;

/// The contents of a store that holds nothing.
pub open spec fn no_entries() -> Map<Seq<u8>, Seq<u8>> {
    Map::empty()
}

/// `DashMap::new`: the new table holds nothing.
#[verifier::external_body]
fn table_new() -> (created: DashMap<Vec<u8>, Vec<u8>>)
    ensures
        table_entries(created) == no_entries(),
{
    DashMap::new()
}

/// `DashMap::get`: a copy of the value that the table holds under `key`,
/// and nothing where it holds none.
#[verifier::external_body]
fn table_get(table: &DashMap<Vec<u8>, Vec<u8>>, key: &[u8]) -> (found: Option<Vec<u8>>)
    ensures
        match found {
            Some(value) => table_entries(*table).contains_key(key@) && value@ == table_entries(
                *table,
            )[key@],
            None => !table_entries(*table).contains_key(key@),
        },
{
    table.get(key).map(|entry| entry.value().clone())
}

/// `DashMap::insert`: afterwards the table holds `value` under `key`, and
/// under every other key what it held before.
#[verifier::external_body]
fn table_insert(table: &mut DashMap<Vec<u8>, Vec<u8>>, key: Vec<u8>, value: Vec<u8>)
    ensures
        table_entries(*final(table)) == table_entries(*old(table)).insert(key@, value@),
{
    table.insert(key, value);
}

/// `DashMap::remove`: afterwards the table holds nothing under `key`, and
/// under every other key what it held before.
#[verifier::external_body]
fn table_remove(table: &mut DashMap<Vec<u8>, Vec<u8>>, key: &[u8])
    ensures
        table_entries(*final(table)) == table_entries(*old(table)).remove(key@),
{
    table.remove(key);
}

/// `DashMap::iter`: copies of all pairs that the table holds, each key
/// once. The order is the table's own and nothing is said of it.
#[verifier::external_body]
fn table_pairs(table: &DashMap<Vec<u8>, Vec<u8>>) -> (pairs: Vec<KeyValue>)
    ensures
        forall|i: int|
            0 <= i < pairs@.len() ==> table_entries(*table).contains_pair(
                (#[trigger] pairs@[i]).key@,
                pairs@[i].value@,
            ),
        forall|key: Seq<u8>| #[trigger]
            table_entries(*table).contains_key(key) ==> exists|i: int|
                0 <= i < pairs@.len() && (#[trigger] pairs@[i]).key@ == key,
        forall|i: int, j: int|
            0 <= i < j < pairs@.len() ==> (#[trigger] pairs@[i]).key@ != (#[trigger] pairs@[j]).key@,
{
    table.iter().map(|e| KeyValue { key: e.key().clone(), value: e.value().clone() }).collect()
}

/// Whether `key` lies in the half-open range from `start` to `end`.
pub open spec fn in_range(key: Seq<u8>, start: Seq<u8>, end: Option<Seq<u8>>) -> bool {
    &&& lex_at_most(start, key)
    &&& match end {
        Some(bound) => lex_less(key, bound),
        None => true,
    }
}

/// The bytes of an optional bound.
pub open spec fn bound_view(end: Option<&[u8]>) -> Option<Seq<u8>> {
    match end {
        Some(bound) => Some(bound@),
        None => None,
    }
}

/// Keys grow strictly along the list.
pub open spec fn ascending(items: Seq<KeyValue>) -> bool {
    forall|i: int, j: int|
        0 <= i < j < items.len() ==> lex_less((#[trigger] items[i]).key@, (#[trigger] items[j]).key@)
}

/// Whether some item has this key.
pub open spec fn lists_key(items: Seq<KeyValue>, key: Seq<u8>) -> bool {
    exists|i: int| 0 <= i < items.len() && (#[trigger] items[i]).key@ == key
}

/// Whether every item's key comes before `key`.
pub open spec fn all_before(items: Seq<KeyValue>, key: Seq<u8>) -> bool {
    forall|i: int| 0 <= i < items.len() ==> lex_less((#[trigger] items[i]).key@, key)
}

/// `items` is what a scan of `contents` returns: the stored pairs whose keys
/// lie in the range, in ascending order of key, cut off after `limit` pairs
/// where a limit is given.
pub open spec fn scan_matches(
    contents: Map<Seq<u8>, Seq<u8>>,
    start: Seq<u8>,
    end: Option<Seq<u8>>,
    limit: Option<usize>,
    items: Seq<KeyValue>,
) -> bool {
    &&& ascending(items)
    &&& forall|i: int|
        0 <= i < items.len() ==> in_range((#[trigger] items[i]).key@, start, end)
            && contents.contains_pair(items[i].key@, items[i].value@)
    &&& (limit matches Some(most) ==> items.len() <= most)
    &&& forall|key: Seq<u8>| #[trigger]
        contents.contains_key(key) && in_range(key, start, end) ==> lists_key(items, key) || (limit
            == Some(items.len() as usize) && all_before(items, key))
}

/// What one step of a batch makes of the contents.
pub open spec fn apply_op(contents: Map<Seq<u8>, Seq<u8>>, op: WriteOperation) -> Map<
    Seq<u8>,
    Seq<u8>,
> {
    match op {
        WriteOperation::Put { key, value } => contents.insert(key@, value@),
        WriteOperation::Delete { key } => contents.remove(key@),
    }
}

/// What a batch makes of the contents, its steps taken in order.
pub open spec fn apply_all(contents: Map<Seq<u8>, Seq<u8>>, ops: Seq<WriteOperation>) -> Map<
    Seq<u8>,
    Seq<u8>,
>
    decreases ops.len(),
{
    if ops.len() == 0 {
        contents
    } else {
        apply_op(apply_all(contents, ops.drop_last()), ops.last())
    }
}

/// What a successful lookup of `key` in `contents` returns.
pub open spec fn lookup(contents: Map<Seq<u8>, Seq<u8>>, key: Seq<u8>) -> Option<Seq<u8>> {
    if contents.contains_key(key) {
        Some(contents[key])
    } else {
        None
    }
}

/// The bytes of an optional value.
pub open spec fn value_view(found: Option<Vec<u8>>) -> Option<Seq<u8>> {
    match found {
        Some(value) => Some(value@),
        None => None,
    }
}

/// A backend that persists raw keys and values. An operation that fails
/// reports a storage failure; a single-key write that fails changes nothing.
pub trait StorageEngine {
    /// The pairs that the backend holds.
    spec fn contents(&self) -> Map<Seq<u8>, Seq<u8>>;

    /// Whether the backend never fails.
    spec fn reliable(&self) -> bool;

    /// The value stored under `key`, if there is one.
    fn get(&self, key: &[u8]) -> (result: Result<Option<Vec<u8>>, Error>)
        ensures
            result matches Ok(found) ==> value_view(found) == lookup(self.contents(), key@),
            result matches Err(e) ==> e.kind() == ErrorKind::Storage,
            self.reliable() ==> result is Ok,
    ;

    /// Stores `value` under `key`, replacing what was there.
    fn put(&mut self, key: &[u8], value: &[u8]) -> (result: Result<(), Error>)
        ensures
            result is Ok ==> final(self).contents() == old(self).contents().insert(key@, value@),
            result matches Err(e) ==> e.kind() == ErrorKind::Storage && final(self).contents()
                == old(self).contents(),
            old(self).reliable() ==> result is Ok,
            final(self).reliable() == old(self).reliable(),
    ;

    /// Removes `key`; nothing happens where it is absent.
    fn delete(&mut self, key: &[u8]) -> (result: Result<(), Error>)
        ensures
            result is Ok ==> final(self).contents() == old(self).contents().remove(key@),
            result matches Err(e) ==> e.kind() == ErrorKind::Storage && final(self).contents()
                == old(self).contents(),
            old(self).reliable() ==> result is Ok,
            final(self).reliable() == old(self).reliable(),
    ;

    /// The pairs whose keys lie in `[start, end)`, ascending by key, at most
    /// `limit` of them.
    fn scan(&self, start: &[u8], end: Option<&[u8]>, limit: Option<usize>) -> (result: Result<
        Vec<KeyValue>,
        Error,
    >)
        ensures
            result matches Ok(items) ==> scan_matches(
                self.contents(),
                start@,
                bound_view(end),
                limit,
                items@,
            ),
            result matches Err(e) ==> e.kind() == ErrorKind::Storage,
            self.reliable() ==> result is Ok,
    ;

    /// Applies the operations in order.
    fn batch_write(&mut self, operations: Vec<WriteOperation>) -> (result: Result<(), Error>)
        ensures
            result is Ok ==> final(self).contents() == apply_all(
                old(self).contents(),
                operations@,
            ),
            result matches Err(e) ==> e.kind() == ErrorKind::Storage,
            old(self).reliable() ==> result is Ok,
            final(self).reliable() == old(self).reliable(),
    ;

    /// The name that the backend was given.
    fn name(&self) -> (name: &str)
    ;
}

/// A storage engine that keeps everything in a concurrent hash table.
pub struct InMemoryEngine {
    data: DashMap<Vec<u8>, Vec<u8>>,
    name: String,
}

/// Whether `key` lies in the range.
fn key_in_range(key: &[u8], start: &[u8], end: Option<&[u8]>) -> (inside: bool)
    ensures
        inside == in_range(key@, start@, bound_view(end)),
{
    proof {
        lemma_lex_total(key@, start@);
    }
    if bytes_less(key, start) {
        return false;
    }
    match end {
        Some(bound) => bytes_less(key, bound),
        None => true,
    }
}

/// Puts `item` where it belongs in an ascending list that lacks its key.
fn insert_ascending(items: &mut Vec<KeyValue>, item: KeyValue)
    requires
        ascending(old(items)@),
        !lists_key(old(items)@, item.key@),
    ensures
        ascending(final(items)@),
        final(items)@.len() == old(items)@.len() + 1,
        exists|at: int| 0 <= at <= old(items)@.len() && final(items)@ == old(items)@.insert(at, item),
{
    let mut at: usize = 0;
    while at < items.len() && bytes_less(items[at].key.as_slice(), item.key.as_slice())
        invariant
            0 <= at <= items.len(),
            items@ == old(items)@,
            forall|i: int| 0 <= i < at ==> lex_less((#[trigger] items@[i]).key@, item.key@),
        decreases items.len() - at,
    {
        at = at + 1;
    }
    proof {
        let before = items@;
        let after = before.insert(at as int, item);
        assert forall|i: int| 0 <= i < after.len() implies #[trigger] after[i] == (if i < at {
            before[i]
        } else if i == at {
            item
        } else {
            before[i - 1]
        }) by {}
        assert forall|i: int| at <= i < before.len() implies lex_less(
            item.key@,
            (#[trigger] before[i]).key@,
        ) by {
            assert(!lex_less(before[at as int].key@, item.key@));
            assert(before[at as int].key@ != item.key@);
            lemma_lex_total(before[at as int].key@, item.key@);
            if i > at {
                assert(lex_less(before[at as int].key@, before[i].key@));
                lemma_lex_transitive(item.key@, before[at as int].key@, before[i].key@);
            }
        }
        assert forall|i: int, j: int| 0 <= i < j < after.len() implies lex_less(
            (#[trigger] after[i]).key@,
            (#[trigger] after[j]).key@,
        ) by {
            let i0 = if i < at { i } else { i - 1 };
            let j0 = if j < at { j } else { j - 1 };
            if i != at && j != at {
                assert(lex_less(before[i0].key@, before[j0].key@));
            } else if i == at {
                assert(lex_less(item.key@, before[j0].key@));
            } else {
                assert(lex_less(before[i0].key@, item.key@));
            }
        }
    }
    items.insert(at, item);
}

impl InMemoryEngine {
    /// The name that the engine was given.
    pub closed spec fn name_view(&self) -> Seq<char> {
        self.name@
    }

    /// An empty engine called `name`.
    pub fn new(name: &str) -> (engine: Self)
        ensures
            engine.contents() == no_entries(),
            engine.name_view() == name@,
    {
        InMemoryEngine { data: table_new(), name: name.to_owned() }
    }
}

impl StorageEngine for InMemoryEngine {
    closed spec fn contents(&self) -> Map<Seq<u8>, Seq<u8>> {
        table_entries(self.data)
    }

    open spec fn reliable(&self) -> bool {
        true
    }

    fn get(&self, key: &[u8]) -> (result: Result<Option<Vec<u8>>, Error>) {
        Ok(table_get(&self.data, key))
    }

    fn put(&mut self, key: &[u8], value: &[u8]) -> (result: Result<(), Error>) {
        table_insert(&mut self.data, copy_bytes(key), copy_bytes(value));
        Ok(())
    }

    fn delete(&mut self, key: &[u8]) -> (result: Result<(), Error>) {
        table_remove(&mut self.data, key);
        Ok(())
    }

    fn scan(&self, start: &[u8], end: Option<&[u8]>, limit: Option<usize>) -> (result: Result<
        Vec<KeyValue>,
        Error,
    >) {
        let mut pairs = table_pairs(&self.data);
        let ghost all = pairs@;
        let ghost contents = self.contents();
        let mut items: Vec<KeyValue> = Vec::new();
        while pairs.len() > 0
            invariant
                contents == table_entries(self.data),
                pairs@ == all.take(pairs@.len() as int),
                pairs@.len() <= all.len(),
                forall|i: int|
                    0 <= i < all.len() ==> contents.contains_pair(
                        (#[trigger] all[i]).key@,
                        all[i].value@,
                    ),
                forall|key: Seq<u8>| #[trigger] contents.contains_key(key) ==> lists_key(all, key),
                forall|i: int, j: int|
                    0 <= i < j < all.len() ==> (#[trigger] all[i]).key@ != (#[trigger] all[j]).key@,
                ascending(items@),
                forall|i: int|
                    0 <= i < items@.len() ==> in_range(
                        (#[trigger] items@[i]).key@,
                        start@,
                        bound_view(end),
                    ) && contents.contains_pair(items@[i].key@, items@[i].value@),
                forall|i: int|
                    0 <= i < items@.len() ==> exists|j: int|
                        pairs@.len() <= j < all.len() && all[j].key@ == (#[trigger] items@[i]).key@,
                forall|j: int|
                    pairs@.len() <= j < all.len() && in_range(
                        (#[trigger] all[j]).key@,
                        start@,
                        bound_view(end),
                    ) ==> lists_key(items@, all[j].key@),
            decreases pairs@.len(),
        {
            let ghost left = pairs@.len() - 1;
            let ghost before = items@;
            let popped = pairs.pop();
            assert(pairs@ =~= all.take(left));
            match popped {
                Some(pair) => {
                    assert(pair == all[left]);
                    if key_in_range(pair.key.as_slice(), start, end) {
                        proof {
                            if lists_key(items@, pair.key@) {
                                let i = choose|i: int|
                                    0 <= i < items@.len() && (#[trigger] items@[i]).key@ == pair.key@;
                                let j = choose|j: int|
                                    left < j < all.len() && all[j].key@ == items@[i].key@;
                                assert(all[left].key@ != all[j].key@);
                            }
                        }
                        insert_ascending(&mut items, pair);
                        proof {
                            let at = choose|at: int|
                                0 <= at <= before.len() && items@ == before.insert(at, pair);
                            assert forall|i: int| 0 <= i < items@.len() implies #[trigger] items@[i]
                                == (if i < at {
                                before[i]
                            } else if i == at {
                                pair
                            } else {
                                before[i - 1]
                            }) by {}
                            assert forall|i: int| 0 <= i < items@.len() implies exists|j: int|
                                left <= j < all.len() && all[j].key@ == (#[trigger] items@[i]).key@ by {
                                if i == at {
                                    assert(all[left].key@ == items@[i].key@);
                                } else {
                                    let i0 = if i < at { i } else { i - 1 };
                                    let j = choose|j: int|
                                        left < j < all.len() && all[j].key@ == before[i0].key@;
                                    assert(left <= j < all.len() && all[j].key@ == items@[i].key@);
                                }
                            }
                            assert forall|j: int|
                                left <= j < all.len() && in_range(
                                    (#[trigger] all[j]).key@,
                                    start@,
                                    bound_view(end),
                                ) implies lists_key(items@, all[j].key@) by {
                                if j == left {
                                    assert(items@[at].key@ == all[j].key@);
                                } else {
                                    assert(lists_key(before, all[j].key@));
                                    let i0 = choose|i0: int|
                                        0 <= i0 < before.len() && (#[trigger] before[i0]).key@
                                            == all[j].key@;
                                    let i1 = if i0 < at { i0 } else { i0 + 1 };
                                    assert(items@[i1].key@ == all[j].key@);
                                }
                            }
                        }
                    }
                },
                None => {},
            }
        }
        proof {
            assert forall|key: Seq<u8>| #[trigger]
                contents.contains_key(key) && in_range(
                    key,
                    start@,
                    bound_view(end),
                ) implies lists_key(items@, key) by {
                assert(lists_key(all, key));
                let j = choose|j: int| 0 <= j < all.len() && (#[trigger] all[j]).key@ == key;
                assert(lists_key(items@, all[j].key@));
            }
        }
        match limit {
            Some(most) => {
                if most < items.len() {
                    let ghost full = items@;
                    items.truncate(most);
                    proof {
                        assert forall|i: int| 0 <= i < items@.len() implies #[trigger] items@[i]
                            == full[i] by {}
                        assert forall|key: Seq<u8>| #[trigger]
                            contents.contains_key(key) && in_range(
                                key,
                                start@,
                                bound_view(end),
                            ) implies lists_key(items@, key) || (limit == Some(
                            items@.len() as usize,
                        ) && all_before(items@, key)) by {
                            let i = choose|i: int|
                                0 <= i < full.len() && (#[trigger] full[i]).key@ == key;
                            if i < most {
                                assert(items@[i].key@ == key);
                            } else {
                                assert forall|k: int| 0 <= k < items@.len() implies lex_less(
                                    (#[trigger] items@[k]).key@,
                                    key,
                                ) by {
                                    assert(lex_less(full[k].key@, full[i].key@));
                                }
                            }
                        }
                    }
                }
            },
            None => {},
        }
        Ok(items)
    }

    fn batch_write(&mut self, operations: Vec<WriteOperation>) -> (result: Result<(), Error>) {
        let ghost start = self.contents();
        let mut i: usize = 0;
        assert(operations@.take(0) =~= Seq::<WriteOperation>::empty());
        while i < operations.len()
            invariant
                0 <= i <= operations.len(),
                table_entries(self.data) == apply_all(start, operations@.take(i as int)),
            decreases operations.len() - i,
        {
            assert(operations@.take(i as int + 1).drop_last() =~= operations@.take(i as int));
            assert(operations@.take(i as int + 1).last() == operations@[i as int]);
            match &operations[i] {
                WriteOperation::Put { key, value } => {
                    table_insert(
                        &mut self.data,
                        copy_bytes(key.as_slice()),
                        copy_bytes(value.as_slice()),
                    );
                },
                WriteOperation::Delete { key } => {
                    table_remove(&mut self.data, key.as_slice());
                },
            }
            i = i + 1;
        }
        assert(operations@.take(operations.len() as int) =~= operations@);
        Ok(())
    }

    fn name(&self) -> (name: &str)
        ensures
            name@ == self.name_view(),
    {
        self.name.as_str()
    }
}

} // verus!
