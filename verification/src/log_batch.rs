//! Batches of log entries on their way into and out of the log.

use vstd::prelude::*;

use crate::{SequenceNumber, TableId};

verus! {

/// What a caller of the log stores in it. The log never looks inside a
/// payload: it only asks for its bytes.
pub trait Payload {
    /// Why this payload could not be encoded.
    type Error;

    /// The bytes that this payload is stored as. A verified payload defines
    /// it; what is proved of a payload holds as far as its `encode_to` keeps
    /// to these bytes.
    open spec fn encoded(&self) -> Seq<u8> {
        Seq::empty()
    }

    /// Number of bytes that `encode_to` appends.
    fn encode_size(&self) -> (n: usize)
        requires
            self.encoded().len() <= usize::MAX,
        ensures
            n == self.encoded().len(),
    ;

    /// Appends the bytes of this payload to `buf`.
    fn encode_to(&self, buf: &mut Vec<u8>) -> (r: Result<(), Self::Error>)
        ensures
            r is Ok ==> final(buf)@ == old(buf)@ + self.encoded(),
    ;
}

/// Where a batch of log entries goes.
#[derive(Debug, Clone, Copy, PartialEq, Eq, Structural)]
pub struct Location {
    pub shard_id: u32,
    pub table_id: TableId,
}

impl Location {
    pub fn new(shard_id: u32, table_id: TableId) -> (l: Self)
        ensures
            l.shard_id == shard_id,
            l.table_id == table_id,
    {
        Self { shard_id, table_id }
    }
}

/// One entry read back from the log.
#[derive(Debug, Clone)]
pub struct LogEntry<P> {
    pub table_id: TableId,
    pub sequence: SequenceNumber,
    pub payload: P,
}

/// One entry to write: the encoded value, version byte included.
#[derive(Debug, Clone)]
pub struct LogWriteEntry {
    pub payload: Vec<u8>,
}

/// Entries that are written to one location in one call.
#[derive(Debug, Clone)]
pub struct LogWriteBatch {
    pub location: Location,
    pub entries: Vec<LogWriteEntry>,
}

impl LogWriteBatch {
    /// The values of the entries, in order.
    pub open spec fn values(&self) -> Seq<Seq<u8>> {
        Seq::new(self.entries@.len(), |i: int| self.entries@[i].payload@)
    }

    pub fn new(location: Location) -> (b: Self)
        ensures
            b.location == location,
            b.entries@.len() == 0,
    {
        Self { location, entries: Vec::new() }
    }

    pub fn with_capacity(location: Location, cap: usize) -> (b: Self)
        ensures
            b.location == location,
            b.entries@.len() == 0,
    {
        Self { location, entries: Vec::with_capacity(cap) }
    }

    pub fn push(&mut self, entry: LogWriteEntry)
        ensures
            final(self).location == old(self).location,
            final(self).entries@ == old(self).entries@.push(entry),
    {
        self.entries.push(entry);
    }

    pub fn len(&self) -> (n: usize)
        ensures
            n == self.entries@.len(),
    {
        self.entries.len()
    }

    pub fn is_empty(&self) -> (b: bool)
        ensures
            b == (self.entries@.len() == 0),
    {
        self.entries.len() == 0
    }
}

} // verus!
