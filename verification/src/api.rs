//! The client side: a client that talks to a storage engine directly, and
//! the frames that a remote client puts on the wire.
//!
//! A `PUT` request is the four bytes `PUT `, the length of the key and the
//! length of the value as four big-endian bytes each, the key and the
//! value; it is answered by the two bytes `OK`. A `GET` request is the four
//! bytes `GET `, the length of the key and the key; it is answered by the
//! length of the value as four big-endian bytes, zero for an absent key,
//! and the value.

use crate::error::{Error, ErrorKind};
use crate::storage::{apply_all, lookup, value_view, StorageEngine, WriteOperation};
use vstd::prelude::*;

verus! {

/// A client that calls a storage engine in the same process.
pub struct LocalClient<S: StorageEngine> {
    storage: S,
}

/// The operations that put each of `items` in turn.
pub open spec fn puts_of(items: Seq<(Vec<u8>, Vec<u8>)>) -> Seq<WriteOperation> {
    items.map_values(|item: (Vec<u8>, Vec<u8>)| WriteOperation::Put { key: item.0, value: item.1 })
}

impl<S: StorageEngine> LocalClient<S> {
    /// What the engine behind the client holds.
    pub closed spec fn contents(&self) -> Map<Seq<u8>, Seq<u8>> {
        self.storage.contents()
    }

    /// Whether the engine behind the client never fails.
    pub closed spec fn reliable(&self) -> bool {
        self.storage.reliable()
    }

    /// A client of `storage`.
    pub fn new(storage: S) -> (client: Self)
        ensures
            client.contents() == storage.contents(),
            client.reliable() == storage.reliable(),
    {
        LocalClient { storage }
    }

    /// The value stored under `key`, if there is one.
    pub fn get(&self, key: &[u8]) -> (result: Result<Option<Vec<u8>>, Error>)
        ensures
            result matches Ok(found) ==> value_view(found) == lookup(self.contents(), key@),
            result matches Err(e) ==> e.kind() == ErrorKind::Storage,
            self.reliable() ==> result is Ok,
    {
        self.storage.get(key)
    }

    /// Stores `value` under `key`.
    pub fn put(&mut self, key: &[u8], value: &[u8]) -> (result: Result<(), Error>)
        ensures
            result is Ok ==> final(self).contents() == old(self).contents().insert(key@, value@),
            result matches Err(e) ==> e.kind() == ErrorKind::Storage && final(self).contents()
                == old(self).contents(),
            old(self).reliable() ==> result is Ok,
            final(self).reliable() == old(self).reliable(),
    {
        self.storage.put(key, value)
    }

    /// Removes `key`.
    pub fn delete(&mut self, key: &[u8]) -> (result: Result<(), Error>)
        ensures
            result is Ok ==> final(self).contents() == old(self).contents().remove(key@),
            result matches Err(e) ==> e.kind() == ErrorKind::Storage && final(self).contents()
                == old(self).contents(),
            old(self).reliable() ==> result is Ok,
            final(self).reliable() == old(self).reliable(),
    {
        self.storage.delete(key)
    }

    /// Stores every pair of `items`, in order, as one batch.
    pub fn batch_put(&mut self, items: Vec<(Vec<u8>, Vec<u8>)>) -> (result: Result<(), Error>)
        ensures
            result is Ok ==> final(self).contents() == apply_all(
                old(self).contents(),
                puts_of(items@),
            ),
            result matches Err(e) ==> e.kind() == ErrorKind::Storage,
            old(self).reliable() ==> result is Ok,
            final(self).reliable() == old(self).reliable(),
    {
        let mut items = items;
        let ghost all = items@;
        let mut reversed: Vec<WriteOperation> = Vec::new();
        while items.len() > 0
            invariant
                items@.len() <= all.len(),
                items@ == all.take(items@.len() as int),
                reversed@.len() == all.len() - items@.len(),
                forall|i: int|
                    0 <= i < reversed@.len() ==> #[trigger] reversed@[i] == puts_of(all)[all.len()
                        - 1 - i],
            decreases items@.len(),
        {
            let ghost left = items@.len() - 1;
            let popped = items.pop();
            assert(items@ =~= all.take(left));
            match popped {
                Some((key, value)) => {
                    assert(all[left] == (key, value));
                    reversed.push(WriteOperation::Put { key, value });
                },
                None => {},
            }
        }
        let mut ops: Vec<WriteOperation> = Vec::new();
        while reversed.len() > 0
            invariant
                reversed@.len() + ops@.len() == all.len(),
                forall|i: int|
                    0 <= i < reversed@.len() ==> #[trigger] reversed@[i] == puts_of(all)[all.len()
                        - 1 - i],
                forall|i: int| 0 <= i < ops@.len() ==> #[trigger] ops@[i] == puts_of(all)[i],
            decreases reversed@.len(),
        {
            let ghost last = reversed@.len() - 1;
            let ghost before = reversed@;
            let popped = reversed.pop();
            match popped {
                Some(op) => {
                    assert(op == before[last]);
                    assert forall|i: int| 0 <= i < reversed@.len() implies #[trigger] reversed@[i]
                        == puts_of(all)[all.len() - 1 - i] by {
                        assert(reversed@[i] == before[i]);
                    }
                    ops.push(op);
                },
                None => {},
            }
        }
        assert(ops@ =~= puts_of(all));
        self.storage.batch_write(ops)
    }
}

/// The four bytes that open a `PUT` request.
pub open spec fn put_tag() -> Seq<u8> {
    seq![0x50u8, 0x55u8, 0x54u8, 0x20u8]
}

/// The four bytes that open a `GET` request.
pub open spec fn get_tag() -> Seq<u8> {
    seq![0x47u8, 0x45u8, 0x54u8, 0x20u8]
}

/// The two bytes that acknowledge a `PUT`.
pub open spec fn ok_reply() -> Seq<u8> {
    seq![0x4fu8, 0x4bu8]
}

/// A length as four big-endian bytes.
pub open spec fn be32(n: u32) -> Seq<u8> {
    seq![(n >> 24) as u8, ((n >> 16) & 0xff) as u8, ((n >> 8) & 0xff) as u8, (n & 0xff) as u8]
}

/// The length that four big-endian bytes stand for.
pub open spec fn from_be32(bytes: Seq<u8>) -> u32
    recommends
        bytes.len() == 4,
{
    ((bytes[0] as u32) << 24) | ((bytes[1] as u32) << 16) | ((bytes[2] as u32) << 8) | (
    bytes[3] as u32)
}

/// A length that was written down is read back unchanged.
pub proof fn lemma_be32_round_trip(n: u32)
    ensures
        be32(n).len() == 4,
        from_be32(be32(n)) == n,
{
    let b0 = (n >> 24) as u8;
    let b1 = ((n >> 16) & 0xff) as u8;
    let b2 = ((n >> 8) & 0xff) as u8;
    let b3 = (n & 0xff) as u8;
    assert(((b0 as u32) << 24) | ((b1 as u32) << 16) | ((b2 as u32) << 8) | (b3 as u32) == n)
        by (bit_vector)
        requires
            b0 == (n >> 24) as u8,
            b1 == ((n >> 16) & 0xff) as u8,
            b2 == ((n >> 8) & 0xff) as u8,
            b3 == (n & 0xff) as u8,
    ;
}

/// A `PUT` request as bytes.
pub open spec fn put_request(key: Seq<u8>, value: Seq<u8>) -> Seq<u8> {
    put_tag() + be32(key.len() as u32) + be32(value.len() as u32) + key + value
}

/// A `GET` request as bytes.
pub open spec fn get_request(key: Seq<u8>) -> Seq<u8> {
    get_tag() + be32(key.len() as u32) + key
}

/// Appends a length as four big-endian bytes.
fn push_be32(bytes: &mut Vec<u8>, n: u32)
    ensures
        final(bytes)@ == old(bytes)@ + be32(n),
{
    let ghost start = bytes@;
    bytes.push((n >> 24) as u8);
    bytes.push(((n >> 16) & 0xff) as u8);
    bytes.push(((n >> 8) & 0xff) as u8);
    bytes.push((n & 0xff) as u8);
    assert(bytes@ =~= start + be32(n));
}

/// Appends `extra` to `bytes`.
fn push_all(bytes: &mut Vec<u8>, extra: &[u8])
    ensures
        final(bytes)@ == old(bytes)@ + extra@,
{
    let ghost start = bytes@;
    let mut i: usize = 0;
    while i < extra.len()
        invariant
            0 <= i <= extra.len(),
            bytes@ == start + extra@.take(i as int),
        decreases extra.len() - i,
    {
        bytes.push(extra[i]);
        assert(extra@.take(i as int + 1) =~= extra@.take(i as int).push(extra@[i as int]));
        assert(bytes@ =~= start + extra@.take(i as int + 1));
        i = i + 1;
    }
    assert(extra@.take(extra.len() as int) =~= extra@);
}

/// Frames a `PUT` request. A key or a value whose length does not fit four
/// bytes cannot be framed.
pub fn encode_put_request(key: &[u8], value: &[u8]) -> (result: Result<Vec<u8>, Error>)
    ensures
        result is Ok <==> key@.len() <= u32::MAX && value@.len() <= u32::MAX,
        result matches Ok(frame) ==> frame@ == put_request(key@, value@),
        result matches Err(e) ==> e.kind() == ErrorKind::Storage,
{
    if key.len() > u32::MAX as usize || value.len() > u32::MAX as usize {
        return Err(Error::Storage("key or value too long for a frame".to_owned()));
    }
    let mut frame: Vec<u8> = Vec::new();
    frame.push(0x50u8);
    frame.push(0x55u8);
    frame.push(0x54u8);
    frame.push(0x20u8);
    assert(frame@ =~= put_tag());
    push_be32(&mut frame, key.len() as u32);
    push_be32(&mut frame, value.len() as u32);
    push_all(&mut frame, key);
    push_all(&mut frame, value);
    Ok(frame)
}

/// Frames a `GET` request. A key whose length does not fit four bytes
/// cannot be framed.
pub fn encode_get_request(key: &[u8]) -> (result: Result<Vec<u8>, Error>)
    ensures
        result is Ok <==> key@.len() <= u32::MAX,
        result matches Ok(frame) ==> frame@ == get_request(key@),
        result matches Err(e) ==> e.kind() == ErrorKind::Storage,
{
    if key.len() > u32::MAX as usize {
        return Err(Error::Storage("key too long for a frame".to_owned()));
    }
    let mut frame: Vec<u8> = Vec::new();
    frame.push(0x47u8);
    frame.push(0x45u8);
    frame.push(0x54u8);
    frame.push(0x20u8);
    assert(frame@ =~= get_tag());
    push_be32(&mut frame, key.len() as u32);
    push_all(&mut frame, key);
    Ok(frame)
}

/// Reads the answer to a `PUT`: success for the two bytes `OK`, a storage
/// failure for anything else.
pub fn check_put_reply(reply: &[u8]) -> (result: Result<(), Error>)
    ensures
        result is Ok <==> reply@ == ok_reply(),
        result matches Err(e) ==> e.kind() == ErrorKind::Storage,
{
    if reply.len() == 2 && reply[0] == 0x4fu8 && reply[1] == 0x4bu8 {
        assert(reply@ =~= ok_reply());
        Ok(())
    } else {
        Err(Error::Storage("PUT failed".to_owned()))
    }
}

/// Reads the head of the answer to a `GET`: how many bytes of value
/// follow, or nothing for an absent key.
pub fn decode_value_length(head: &[u8; 4]) -> (length: Option<u32>)
    ensures
        length == if from_be32(head@) == 0 {
            None
        } else {
            Some(from_be32(head@))
        },
{
    let n: u32 = ((head[0] as u32) << 24) | ((head[1] as u32) << 16) | ((head[2] as u32) << 8) | (
    head[3] as u32);
    if n == 0 {
        None
    } else {
        Some(n)
    }
}

} // verus!
