//! A region: an append-only log whose records live in an ordered key-value
//! store, in one table for every bucket of time.
//!
//! Nothing in this module touches the store. Every operation is split at the
//! store: the functions here decide what is read and written, and what the
//! answers of the store mean; the caller scans and writes. A write first takes
//! its sequence numbers and then hands out the batch to insert. A read hands
//! out the ranges to scan, bucket by bucket, and decodes what the scans find.
//! Truncation moves the start of the log, and cleaning removes what lies
//! before it.

use std::time::Duration;

use vstd::prelude::*;
use vstd::slice::slice_to_vec;

use crate::byte_order::{lemma_lex_le_prefix_lower, lemma_lex_lt_prefix_upper, lex_le, lex_lt};
use crate::kv_encoder;
use crate::kv_encoder::{
    lemma_log_key_decoded_is_prefix, lemma_log_key_order, lemma_log_key_round_trip, log_key_lt,
    LogEncoding, LogKey, LogKeyEncoder,
};
use crate::log_batch::{LogEntry, LogWriteBatch};
use crate::manager;
use crate::{RegionId, SequenceNumber, MAX_SEQUENCE_NUMBER, MIN_SEQUENCE_NUMBER};

verus! {

/// What can go wrong in a region. The failures of the store are reported by
/// whoever talks to it, under the variants that name them.
#[derive(Debug, Clone, Copy, PartialEq, Eq, Structural)]
pub enum Error {
    /// The entry of the region could not be read.
    GetValue { region_id: RegionId },
    /// The entry of the region could not be decoded.
    Decode { region_id: RegionId },
    /// The entry of the region could not be encoded.
    Encode { region_id: RegionId },
    /// A log record could not be encoded or decoded.
    LogCodec { source: kv_encoder::Error },
    /// A scan of the store failed.
    Scan,
    /// The entry of the region could not be written.
    WriteValue { region_id: RegionId },
    /// The region has no sequence number left.
    SequenceOverflow { region_id: RegionId },
    /// The log records could not be written.
    WriteLog { region_id: RegionId },
    /// The entry of the region was there when it was inserted and gone when
    /// it was loaded.
    RegionNotExists { region_id: RegionId },
    /// The task that talks to the store did not run to its end.
    RuntimeExec,
    /// The log records could not be removed.
    Delete { region_id: RegionId },
}

/// Wraps a failure of the codec as a failure of the region.
pub fn log_codec_failure<T>(res: Result<T, kv_encoder::Error>) -> (r: Result<T, Error>)
    ensures
        r == match res {
            Ok(v) => Ok::<T, Error>(v),
            Err(e) => Err::<T, Error>(Error::LogCodec { source: e }),
        },
{
    match res {
        Ok(v) => Ok(v),
        Err(e) => Err(Error::LogCodec { source: e }),
    }
}

/// Number of records that one batch of a clean removes, unless told otherwise.
pub const DEFAULT_CLEAN_BATCH_SIZE: i32 = 100;

/// Seconds that a scan of a clean may take, unless told otherwise.
pub const DEFAULT_CLEAN_SCAN_TIMEOUT_SECS: u64 = 10;

/// The span of time of `secs` whole seconds.
pub uninterp spec fn duration_of_secs(secs: u64) -> Duration;

/// `Duration::from_secs` of std: the span of time of `secs` whole seconds.
pub assume_specification[ Duration::from_secs ](secs: u64) -> (d: Duration)
    ensures
        d == duration_of_secs(secs),
;

/// What the store keeps of a region.
#[derive(Debug, Clone, Copy, PartialEq, Eq, Structural)]
pub struct RegionEntry {
    pub region_id: RegionId,
    /// First sequence number that was not truncated.
    pub start_sequence: SequenceNumber,
}

impl RegionEntry {
    /// The entry of a region that nothing was truncated from.
    pub fn new(region_id: RegionId) -> (e: Self)
        ensures
            e.region_id == region_id,
            e.start_sequence == MIN_SEQUENCE_NUMBER,
    {
        Self { region_id, start_sequence: MIN_SEQUENCE_NUMBER }
    }
}

/// What a region knows of itself while it is open.
#[derive(Debug, Clone, Copy, PartialEq, Eq, Structural)]
pub struct RegionState {
    pub region_id: RegionId,
    /// First sequence number of the live log. Moves on when the log is
    /// truncated.
    pub start_sequence: SequenceNumber,
    /// Largest sequence number that was handed out.
    pub last_sequence: SequenceNumber,
}

impl RegionState {
    pub fn last_sequence(&self) -> (s: SequenceNumber)
        ensures
            s == self.last_sequence,
    {
        self.last_sequence
    }

    pub fn start_sequence(&self) -> (s: SequenceNumber)
        ensures
            s == self.start_sequence,
    {
        self.start_sequence
    }

    pub fn set_start_sequence(&mut self, sequence: SequenceNumber)
        ensures
            *final(self) == (RegionState { start_sequence: sequence, ..*old(self) }),
    {
        self.start_sequence = sequence;
    }

    /// What the store keeps of this region.
    pub fn region_entry(&self) -> (e: RegionEntry)
        ensures
            e == (RegionEntry { region_id: self.region_id, start_sequence: self.start_sequence }),
    {
        RegionEntry { region_id: self.region_id, start_sequence: self.start_sequence }
    }

    /// Whether `number` sequence numbers are left: the largest sequence
    /// number is kept as a sentinel and is never handed out.
    pub open spec fn has_room_for(self, number: u64) -> bool {
        self.last_sequence + number < MAX_SEQUENCE_NUMBER
    }

    /// What asking for `number` sequence numbers answers: the first of them,
    /// the one behind the last sequence number, if that many are left.
    pub open spec fn allocated(self, number: u64) -> Result<SequenceNumber, Error> {
        if self.has_room_for(number) {
            Ok((self.last_sequence + 1) as u64)
        } else {
            Err(Error::SequenceOverflow { region_id: self.region_id })
        }
    }

    /// The state after `number` sequence numbers were asked for: the last
    /// sequence number has moved on by `number` if that many were left, and
    /// nothing has changed if not.
    pub open spec fn after_allocation(self, number: u64) -> Self {
        if self.has_room_for(number) {
            RegionState { last_sequence: (self.last_sequence + number) as u64, ..self }
        } else {
            self
        }
    }

    /// The entry that truncating the log up to `sequence_num` asks to store:
    /// the log then starts behind `sequence_num`, or behind the last sequence
    /// number if that is smaller, and never earlier than it did.
    pub open spec fn truncated(self, sequence_num: SequenceNumber) -> Result<RegionEntry, Error> {
        if sequence_num >= MAX_SEQUENCE_NUMBER {
            Err(Error::SequenceOverflow { region_id: self.region_id })
        } else {
            let upto = if sequence_num > self.last_sequence {
                self.last_sequence
            } else {
                sequence_num
            };
            Ok(
                RegionEntry {
                    region_id: self.region_id,
                    start_sequence: if self.start_sequence <= upto {
                        (upto + 1) as u64
                    } else {
                        self.start_sequence
                    },
                },
            )
        }
    }

    /// The first and the last key that a read of the sequence numbers from
    /// `start` to `end` scans for: the request, cut down to the live log.
    /// `None` for a request that holds no sequence number at one of its ends.
    pub open spec fn read_range(self, start: Option<SequenceNumber>, end: Option<SequenceNumber>)
        -> Option<(LogKey, LogKey)> {
        match (start, end) {
            (Some(start), Some(end)) => Some(
                (
                    (
                        self.region_id,
                        if self.start_sequence > start {
                            self.start_sequence
                        } else {
                            start
                        },
                    ),
                    (
                        self.region_id,
                        if self.last_sequence < end {
                            self.last_sequence
                        } else {
                            end
                        },
                    ),
                ),
            ),
            _ => None,
        }
    }
}

/// How a clean goes about its work.
#[derive(Debug, Clone, Copy)]
pub struct CleanContext {
    pub scan_timeout: Duration,
    pub batch_size: usize,
}

impl Default for CleanContext {
    fn default() -> (ctx: Self)
        ensures
            ctx.scan_timeout == duration_of_secs(DEFAULT_CLEAN_SCAN_TIMEOUT_SECS),
            ctx.batch_size == DEFAULT_CLEAN_BATCH_SIZE,
    {
        Self {
            scan_timeout: Duration::from_secs(DEFAULT_CLEAN_SCAN_TIMEOUT_SECS),
            batch_size: 100,
        }
    }
}

impl CleanContext {
    /// Number of records that a scan of a clean fetches at a time: the batch
    /// size, or the default where the store cannot count that far.
    pub open spec fn scan_batch_size(self) -> i32 {
        if self.batch_size <= i32::MAX {
            self.batch_size as i32
        } else {
            DEFAULT_CLEAN_BATCH_SIZE
        }
    }

    /// How a scan of a clean is run.
    pub fn scan_context(&self) -> (ctx: ScanContext)
        ensures
            ctx.timeout == self.scan_timeout,
            ctx.batch_size == self.scan_batch_size(),
    {
        let batch_size: i32 = if self.batch_size <= 0x7fff_ffff {
            self.batch_size as i32
        } else {
            DEFAULT_CLEAN_BATCH_SIZE
        };
        ScanContext { timeout: self.scan_timeout, batch_size }
    }
}

/// How a scan is run.
#[derive(Debug, Clone, Copy)]
pub struct ScanContext {
    /// Time that the scan may take.
    pub timeout: Duration,
    /// Number of records fetched at a time.
    pub batch_size: i32,
}

/// One end of a range of keys.
#[derive(Debug, Clone, PartialEq, Eq)]
pub enum KeyBoundary {
    /// The range reaches the key and holds it.
    Included(Vec<u8>),
    /// The range reaches the key and does not hold it.
    Excluded(Vec<u8>),
}

/// One end of a range of keys, as the contracts speak of it.
pub enum Bound {
    Included(Seq<u8>),
    Excluded(Seq<u8>),
}

impl View for KeyBoundary {
    type V = Bound;

    open spec fn view(&self) -> Bound {
        match self {
            KeyBoundary::Included(key) => Bound::Included(key@),
            KeyBoundary::Excluded(key) => Bound::Excluded(key@),
        }
    }
}

impl KeyBoundary {
    pub fn included(key: &[u8]) -> (b: Self)
        ensures
            b@ == Bound::Included(key@),
    {
        KeyBoundary::Included(slice_to_vec(key))
    }

    pub fn excluded(key: &[u8]) -> (b: Self)
        ensures
            b@ == Bound::Excluded(key@),
    {
        KeyBoundary::Excluded(slice_to_vec(key))
    }
}

/// A range of keys, as the contracts speak of it.
pub struct KeyRange {
    pub start: Bound,
    pub end: Bound,
    pub reverse: bool,
}

impl KeyRange {
    /// Whether the store may answer a scan of this range with `key`.
    pub open spec fn contains(self, key: Seq<u8>) -> bool {
        &&& match self.start {
            Bound::Included(start) => lex_le(start, key),
            Bound::Excluded(start) => lex_lt(start, key),
        }
        &&& match self.end {
            Bound::Included(end) => lex_le(key, end),
            Bound::Excluded(end) => lex_lt(key, end),
        }
    }

    /// The range of the log keys from `min` to `max`, both included.
    pub open spec fn closed(enc: LogKeyEncoder, min: LogKey, max: LogKey, reverse: bool) -> Self {
        KeyRange {
            start: Bound::Included(enc.encoded(min)),
            end: Bound::Included(enc.encoded(max)),
            reverse,
        }
    }

    /// The range of the log keys from `min`, included, to `max`, not
    /// included.
    pub open spec fn half_open(enc: LogKeyEncoder, min: LogKey, max: LogKey) -> Self {
        KeyRange {
            start: Bound::Included(enc.encoded(min)),
            end: Bound::Excluded(enc.encoded(max)),
            reverse: false,
        }
    }
}

/// What the store is asked to scan: the keys of a range, from the smallest
/// up or, in reverse, from the largest down.
#[derive(Debug, Clone, PartialEq, Eq)]
pub struct ScanRequest {
    pub start: KeyBoundary,
    pub end: KeyBoundary,
    pub reverse: bool,
}

impl View for ScanRequest {
    type V = KeyRange;

    open spec fn view(&self) -> KeyRange {
        KeyRange { start: self.start@, end: self.end@, reverse: self.reverse }
    }
}

/// One change that a batch makes in a table of the store.
#[derive(Debug, Clone, PartialEq, Eq)]
pub enum WriteOp {
    /// Stores a record under a key that holds none.
    Insert { key: Vec<u8>, value: Vec<u8> },
    /// Stores a record under a key, in place of the record that was there.
    InsertOrUpdate { key: Vec<u8>, value: Vec<u8> },
    /// Removes the record under a key.
    Delete { key: Vec<u8> },
}

/// One change of a batch, as the contracts speak of it.
pub enum Mutation {
    Insert { key: Seq<u8>, value: Seq<u8> },
    InsertOrUpdate { key: Seq<u8>, value: Seq<u8> },
    Delete { key: Seq<u8> },
}

impl View for WriteOp {
    type V = Mutation;

    open spec fn view(&self) -> Mutation {
        match self {
            WriteOp::Insert { key, value } => Mutation::Insert { key: key@, value: value@ },
            WriteOp::InsertOrUpdate { key, value } => Mutation::InsertOrUpdate {
                key: key@,
                value: value@,
            },
            WriteOp::Delete { key } => Mutation::Delete { key: key@ },
        }
    }
}

/// Changes that the store makes in one table in one call.
#[derive(Debug, Clone, PartialEq, Eq)]
pub struct WriteBatch {
    pub ops: Vec<WriteOp>,
}

impl View for WriteBatch {
    type V = Seq<Mutation>;

    open spec fn view(&self) -> Seq<Mutation> {
        Seq::new(self.ops@.len(), |i: int| self.ops@[i]@)
    }
}

impl WriteBatch {
    /// A batch without a change, with room for `capacity` changes. The room
    /// only spares later allocations: what the batch holds does not depend on
    /// it.
    pub fn with_capacity(capacity: usize) -> (batch: Self)
        ensures
            batch@ == Seq::<Mutation>::empty(),
    {
        let batch = Self { ops: Vec::with_capacity(capacity) };
        proof {
            assert(batch@ =~= Seq::<Mutation>::empty());
        }
        batch
    }

    pub fn insert(&mut self, key: &[u8], value: &[u8])
        ensures
            final(self)@ == old(self)@.push(Mutation::Insert { key: key@, value: value@ }),
    {
        self.ops.push(WriteOp::Insert { key: slice_to_vec(key), value: slice_to_vec(value) });
        proof {
            assert(self@ =~= old(self)@.push(Mutation::Insert { key: key@, value: value@ }));
        }
    }

    pub fn insert_or_update(&mut self, key: &[u8], value: &[u8])
        ensures
            final(self)@ == old(self)@.push(
                Mutation::InsertOrUpdate { key: key@, value: value@ },
            ),
    {
        self.ops.push(
            WriteOp::InsertOrUpdate { key: slice_to_vec(key), value: slice_to_vec(value) },
        );
        proof {
            assert(self@ =~= old(self)@.push(
                Mutation::InsertOrUpdate { key: key@, value: value@ },
            ));
        }
    }

    pub fn delete(&mut self, key: &[u8])
        ensures
            final(self)@ == old(self)@.push(Mutation::Delete { key: key@ }),
    {
        self.ops.push(WriteOp::Delete { key: slice_to_vec(key) });
        proof {
            assert(self@ =~= old(self)@.push(Mutation::Delete { key: key@ }));
        }
    }

    pub fn len(&self) -> (n: usize)
        ensures
            n == self@.len(),
    {
        self.ops.len()
    }

    pub fn is_empty(&self) -> (b: bool)
        ensures
            b == (self@.len() == 0),
    {
        self.ops.len() == 0
    }
}

/// The batch that stores `values` under the keys of `region_id` whose
/// sequence numbers count up from `first`.
pub open spec fn log_inserts(
    enc: LogKeyEncoder,
    region_id: RegionId,
    first: SequenceNumber,
    values: Seq<Seq<u8>>,
) -> Seq<Mutation> {
    Seq::new(
        values.len(),
        |i: int|
            Mutation::Insert {
                key: enc.encoded((region_id, (first + i) as u64)),
                value: values[i],
            },
    )
}

/// What the store answered when the entry of a region was inserted.
#[derive(Debug, Clone, Copy, PartialEq, Eq, Structural)]
pub enum InsertOutcome {
    /// The entry is stored.
    Inserted,
    /// The store holds an entry of the region already.
    PrimaryKeyDuplicate,
    /// The store failed otherwise.
    Failed,
}

/// What follows from the insert of the entry of a region.
#[derive(Debug, Clone, Copy, PartialEq, Eq, Structural)]
pub enum InsertResolution {
    /// The region goes by this entry.
    Created(RegionEntry),
    /// Another writer was first: the entry that the store holds is loaded,
    /// and the region goes by that one.
    LoadExisting,
    /// The region cannot be opened.
    Failed(Error),
}

/// Whoever holds the writer of a region is the one that writes to it and
/// truncates it.
#[derive(Debug)]
pub struct RegionWriter;

impl RegionWriter {
    /// What follows from the store's answer to the insert of `region_entry`.
    /// That the store holds the entry already is no failure.
    pub fn insert_or_load_region_entry(
        &mut self,
        region_entry: RegionEntry,
        outcome: InsertOutcome,
    ) -> (r: InsertResolution)
        ensures
            r == match outcome {
                InsertOutcome::Inserted => InsertResolution::Created(region_entry),
                InsertOutcome::PrimaryKeyDuplicate => InsertResolution::LoadExisting,
                InsertOutcome::Failed => InsertResolution::Failed(
                    Error::WriteValue { region_id: region_entry.region_id },
                ),
            },
    {
        match outcome {
            InsertOutcome::Inserted => InsertResolution::Created(region_entry),
            InsertOutcome::PrimaryKeyDuplicate => InsertResolution::LoadExisting,
            InsertOutcome::Failed => InsertResolution::Failed(
                Error::WriteValue { region_id: region_entry.region_id },
            ),
        }
    }

    /// The entry that the region goes by after another writer was first:
    /// the one that was loaded, which must be there.
    pub fn existing_region_entry(&mut self, region_id: RegionId, loaded: Option<RegionEntry>) -> (r:
        Result<RegionEntry, Error>)
        ensures
            r == match loaded {
                Some(entry) => Ok::<RegionEntry, Error>(entry),
                None => Err::<RegionEntry, Error>(Error::RegionNotExists { region_id }),
            },
    {
        match loaded {
            Some(entry) => Ok(entry),
            None => Err(Error::RegionNotExists { region_id }),
        }
    }

    /// Takes `number` sequence numbers in a row and returns the first of
    /// them. Fails with `SequenceOverflow`, and takes nothing, where the
    /// numbers would reach the largest sequence number: that one is a
    /// sentinel and is never handed out.
    pub fn alloc_sequence_num(&mut self, region_state: &mut RegionState, number: u64) -> (r:
        Result<SequenceNumber, Error>)
        ensures
            r == old(region_state).allocated(number),
            *final(region_state) == old(region_state).after_allocation(number),
    {
        let last_sequence = region_state.last_sequence;
        if number >= MAX_SEQUENCE_NUMBER - last_sequence {
            return Err(Error::SequenceOverflow { region_id: region_state.region_id });
        }
        region_state.last_sequence = last_sequence + number;
        Ok(last_sequence + 1)
    }

    /// Takes a sequence number for every entry of `log_batch` and returns the
    /// batch that stores the entries under the keys of the region, in the
    /// order of the entries and without a gap, with the largest sequence
    /// number taken: the last sequence number of before, plus the number of
    /// entries. The numbers are taken for good: they are not handed out again
    /// if the store refuses the batch. Fails with `SequenceOverflow`, and
    /// takes nothing, where the region has not that many numbers left.
    pub fn write_log(&mut self, region_state: &mut RegionState, log_batch: &LogWriteBatch) -> (r:
        Result<(WriteBatch, SequenceNumber), Error>)
        ensures
            *final(region_state) == old(region_state).after_allocation(
                log_batch.entries@.len() as u64,
            ),
            match old(region_state).allocated(log_batch.entries@.len() as u64) {
                Ok(first) => r matches Ok((wb, max_sequence_num)) && wb@ == log_inserts(
                    log_key_encoder(),
                    old(region_state).region_id,
                    first,
                    log_batch.values(),
                ) && max_sequence_num == old(region_state).last_sequence
                    + log_batch.entries@.len(),
                Err(e) => r == Err::<(WriteBatch, SequenceNumber), Error>(e),
            },
    {
        let log_encoding = LogEncoding::newest();
        let entries_num = log_batch.len() as u64;
        let first = match self.alloc_sequence_num(region_state, entries_num) {
            Ok(first) => first,
            Err(e) => {
                return Err(e);
            },
        };
        let region_id = region_state.region_id;
        let mut wb = WriteBatch::with_capacity(log_batch.len());
        let mut next_sequence_num = first;
        let mut key_buf: Vec<u8> = Vec::new();
        let mut i: usize = 0;
        while i < log_batch.entries.len()
            invariant
                i <= log_batch.entries@.len(),
                log_encoding.is_newest(),
                first + log_batch.entries@.len() <= u64::MAX,
                next_sequence_num == first + i,
                wb@ == log_inserts(
                    log_encoding.key_enc,
                    region_id,
                    first,
                    log_batch.values().take(i as int),
                ),
            decreases log_batch.entries@.len() - i,
        {
            let res = log_codec_failure(
                log_encoding.encode_key(&mut key_buf, &(region_id, next_sequence_num)),
            );
            match res {
                Ok(()) => {},
                Err(e) => {
                    return Err(e);
                },
            }
            wb.insert(key_buf.as_slice(), log_batch.entries[i].payload.as_slice());
            proof {
                assert(log_batch.values().take(i + 1) =~= log_batch.values().take(i as int).push(
                    log_batch.entries@[i as int].payload@,
                ));
                assert(wb@ =~= log_inserts(
                    log_encoding.key_enc,
                    region_id,
                    first,
                    log_batch.values().take(i + 1),
                ));
            }
            next_sequence_num = next_sequence_num + 1;
            i += 1;
        }
        proof {
            assert(log_batch.values().take(log_batch.entries@.len() as int) =~= log_batch.values());
        }
        Ok((wb, next_sequence_num - 1))
    }

    /// The entry to store so that the log is truncated up to `sequence_num`,
    /// included. Once the store holds the entry, the start sequence of the
    /// region moves to that of the entry; what lies before it is removed by a
    /// later clean. The largest sequence number cannot be truncated up to.
    pub fn delete_entries_up_to(
        &mut self,
        region_state: &RegionState,
        sequence_num: SequenceNumber,
    ) -> (r: Result<RegionEntry, Error>)
        ensures
            r == region_state.truncated(sequence_num),
    {
        if sequence_num >= MAX_SEQUENCE_NUMBER {
            return Err(Error::SequenceOverflow { region_id: region_state.region_id });
        }
        let mut sequence_num = sequence_num;
        let last_sequence = region_state.last_sequence();
        if sequence_num > last_sequence {
            sequence_num = last_sequence;
        }
        let mut region_entry = region_state.region_entry();
        if region_entry.start_sequence <= sequence_num {
            region_entry.start_sequence = sequence_num + 1;
        }
        Ok(region_entry)
    }
}

/// The encoder that the keys of a region are written and read with.
pub open spec fn log_key_encoder() -> LogKeyEncoder {
    LogKeyEncoder {
        version: kv_encoder::NEWEST_LOG_KEY_ENCODING_VERSION,
        namespace: kv_encoder::Namespace::Log,
    }
}

/// The last sequence number of a region, from what was found in its
/// buckets: `found` holds, for every bucket from the oldest to the newest,
/// the largest sequence number in the bucket, if the bucket holds a record of
/// the region. The newest bucket that holds one decides; a region without a
/// record starts at the smallest sequence number.
pub open spec fn newest_found(found: Seq<Option<SequenceNumber>>) -> SequenceNumber
    decreases found.len(),
{
    if found.len() == 0 {
        MIN_SEQUENCE_NUMBER
    } else {
        match found.last() {
            Some(sequence) => sequence,
            None => newest_found(found.drop_last()),
        }
    }
}

/// What the first key of a reverse scan over a region tells of the largest
/// sequence number in the scanned table.
pub open spec fn last_sequence_of_scan(first_key: Option<Seq<u8>>) -> Result<
    Option<SequenceNumber>,
    Error,
> {
    match first_key {
        None => Ok(None),
        Some(key) => match log_key_encoder().validity(key) {
            Err(e) => Err(Error::LogCodec { source: e }),
            Ok(false) => Ok(None),
            Ok(true) => match log_key_encoder().decoded(key) {
                Ok(log_key) => Ok(Some(log_key.1)),
                Err(e) => Err(Error::LogCodec { source: e }),
            },
        },
    }
}

/// Whether the buckets start one after the other.
pub open spec fn strictly_increasing(starts: Seq<i64>) -> bool {
    forall|i: int, j: int| 0 <= i < j < starts.len() ==> starts[i] < starts[j]
}

/// Whether the buckets start one after the other, as a read asks of them.
pub fn buckets_in_order(gmt_start_ms: &[i64]) -> (b: bool)
    ensures
        b == strictly_increasing(gmt_start_ms@),
{
    let mut i: usize = 1;
    while i < gmt_start_ms.len()
        invariant
            1 <= i,
            forall|a: int, b: int| 0 <= a < b < i && b < gmt_start_ms@.len() ==> gmt_start_ms@[a]
                < gmt_start_ms@[b],
        decreases gmt_start_ms@.len() - i,
    {
        if gmt_start_ms[i - 1] >= gmt_start_ms[i] {
            return false;
        }
        proof {
            assert forall|a: int, b: int| 0 <= a < b < i + 1 && b < gmt_start_ms@.len() implies gmt_start_ms@[a]
                < gmt_start_ms@[b] by {
                if b == i && a < i - 1 {
                    assert(gmt_start_ms@[a] < gmt_start_ms@[i - 1]);
                }
            }
        }
        i += 1;
    }
    true
}

/// Where a read of a region stands, as the contracts speak of it.
pub struct LogCursor {
    /// Start of every bucket that the read goes through, in milliseconds.
    pub bucket_starts: Seq<i64>,
    /// Largest key that the read asks for.
    pub max_log_key: LogKey,
    /// Key that the next scan starts at: the smallest key that the read asks
    /// for, and later the key of the record that was read last.
    pub current_log_key: LogKey,
    /// The bucket that is scanned, or scanned next. The read is over when no
    /// bucket is left.
    pub current_bucket_index: int,
    /// Whether a scan of the current bucket is open and stands at a record.
    pub scanning: bool,
    /// Payload of the record that was read last.
    pub payload: Seq<u8>,
}

impl LogCursor {
    /// A read that finds nothing.
    pub open spec fn empty() -> Self {
        LogCursor {
            bucket_starts: Seq::empty(),
            max_log_key: (0, 0),
            current_log_key: (0, 0),
            current_bucket_index: 0,
            scanning: false,
            payload: Seq::empty(),
        }
    }

    /// A read of the keys from `min_log_key` to `max_log_key` that has not
    /// begun.
    pub open spec fn start(bucket_starts: Seq<i64>, min_log_key: LogKey, max_log_key: LogKey) -> Self {
        LogCursor {
            bucket_starts,
            max_log_key,
            current_log_key: min_log_key,
            current_bucket_index: 0,
            scanning: false,
            payload: Seq::empty(),
        }
    }

    pub open spec fn well_formed(self) -> bool {
        &&& strictly_increasing(self.bucket_starts)
        &&& 0 <= self.current_bucket_index <= self.bucket_starts.len()
        &&& self.scanning ==> self.current_bucket_index < self.bucket_starts.len()
    }

    /// Whether the read is over: no bucket is left, or the read has gone
    /// past its largest key.
    pub open spec fn no_more_data(self) -> bool {
        self.current_bucket_index >= self.bucket_starts.len() || log_key_lt(
            self.max_log_key,
            self.current_log_key,
        )
    }

    /// The range that a scan of the current bucket asks for.
    pub open spec fn scan_range(self) -> KeyRange {
        KeyRange::closed(log_key_encoder(), self.current_log_key, self.max_log_key, false)
    }

    /// What the read does next: nothing when it is over, a fetch while a
    /// scan is open, and else a scan of the current bucket.
    pub open spec fn next_step(self) -> Step {
        if self.no_more_data() {
            Step::Finished
        } else if self.scanning {
            Step::Fetch
        } else {
            Step::Scan { bucket: self.current_bucket_index, range: self.scan_range() }
        }
    }

    /// The read after the store answered whether the scan of the current
    /// bucket stands at a record: if it does not, the next bucket is next.
    /// While a scan is open or no bucket is left, no scan is waited for, and
    /// the answer changes nothing.
    pub open spec fn after_scan(self, valid: bool) -> Self {
        if self.scanning || self.current_bucket_index >= self.bucket_starts.len() {
            self
        } else if valid {
            LogCursor { scanning: true, ..self }
        } else {
            LogCursor { current_bucket_index: self.current_bucket_index + 1, ..self }
        }
    }

    /// The read after the scan was moved on: when the scan has no record
    /// left, the next bucket is next.
    pub open spec fn after_step(self, has_next: bool) -> Self {
        if self.scanning && !has_next {
            LogCursor {
                scanning: false,
                current_bucket_index: self.current_bucket_index + 1,
                ..self
            }
        } else {
            self
        }
    }

    /// What decoding the record under the scan gives.
    pub open spec fn fetched(key: Seq<u8>, value: Seq<u8>) -> Result<(LogKey, Seq<u8>), manager::Error> {
        match log_key_encoder().decoded(key) {
            Err(e) => Err(manager::Error::Decoding { source: e }),
            Ok(log_key) => match (kv_encoder::LogValueDecoder {
                version: kv_encoder::NEWEST_LOG_VALUE_ENCODING_VERSION,
            }).decoded(value) {
                Err(e) => Err(manager::Error::Encoding { source: e }),
                Ok(payload) => Ok((log_key, payload)),
            },
        }
    }

    /// The read after the record under the scan was decoded. A record whose
    /// key decodes and whose value does not has moved the current key.
    pub open spec fn after_fetch(self, key: Seq<u8>, value: Seq<u8>) -> Self {
        match log_key_encoder().decoded(key) {
            Err(_) => self,
            Ok(log_key) => match Self::fetched(key, value) {
                Err(_) => LogCursor { current_log_key: log_key, ..self },
                Ok((_, payload)) => LogCursor { current_log_key: log_key, payload, ..self },
            },
        }
    }
}

/// What a read does next.
#[derive(Debug, Clone, PartialEq, Eq)]
pub enum ReadStep {
    /// The read is over.
    Finished,
    /// The bucket at this place is scanned for the range, and
    /// [`TableLogIterator::scan_opened`] is told what the scan found.
    Scan { bucket: usize, request: ScanRequest },
    /// The record under the open scan is handed to
    /// [`TableLogIterator::next_log_entry`], the scan is moved on, and
    /// [`TableLogIterator::step_current_iter`] is told whether a record is
    /// left.
    Fetch,
}

/// What a read does next, as the contracts speak of it.
pub enum Step {
    Finished,
    Scan { bucket: int, range: KeyRange },
    Fetch,
}

impl View for ReadStep {
    type V = Step;

    open spec fn view(&self) -> Step {
        match self {
            ReadStep::Finished => Step::Finished,
            ReadStep::Scan { bucket, request } => Step::Scan {
                bucket: *bucket as int,
                range: request@,
            },
            ReadStep::Fetch => Step::Fetch,
        }
    }
}

/// A read of a region that goes through the buckets one after the other and
/// through every bucket in the order of its keys.
///
/// The caller does what `next_step` says until a record was fetched, which
/// it takes from `log_entry`, or the read is over. Step by step: it asks
/// `no_more_data` first. While no scan is open, it scans the bucket that
/// `scan_buckets` names for the range of `new_scan_request`, and tells
/// `scan_opened` whether the scan stands at a record. While a scan is open,
/// it hands the key and the value under the scan to `next_log_entry`, moves
/// the scan on, tells `step_current_iter` whether a record is left, and
/// takes the entry from `log_entry`.
#[derive(Debug)]
pub struct TableLogIterator {
    bucket_starts: Vec<i64>,
    max_log_key: LogKey,
    current_log_key: LogKey,
    current_bucket_index: usize,
    scanning: bool,
    log_encoding: LogEncoding,
    previous_value: Vec<u8>,
}

impl View for TableLogIterator {
    type V = LogCursor;

    closed spec fn view(&self) -> LogCursor {
        LogCursor {
            bucket_starts: self.bucket_starts@,
            max_log_key: self.max_log_key,
            current_log_key: self.current_log_key,
            current_bucket_index: self.current_bucket_index as int,
            scanning: self.scanning,
            payload: self.previous_value@,
        }
    }
}

impl TableLogIterator {
    /// Whether the iterator is one that the functions of this type made.
    pub closed spec fn well_formed(&self) -> bool {
        &&& self@.well_formed()
        &&& self.log_encoding.is_newest()
    }

    /// An iterator that yields nothing.
    pub fn new_empty() -> (it: Self)
        ensures
            it@ == LogCursor::empty(),
            it.well_formed(),
            it@.no_more_data(),
    {
        TableLogIterator {
            bucket_starts: Vec::new(),
            max_log_key: (0, 0),
            current_log_key: (0, 0),
            current_bucket_index: 0,
            scanning: false,
            log_encoding: LogEncoding::newest(),
            previous_value: Vec::new(),
        }
    }

    /// An iterator over the keys from `min_log_key` to `max_log_key`, both
    /// included, in the buckets that start at `bucket_starts`.
    pub fn new(bucket_starts: Vec<i64>, min_log_key: LogKey, max_log_key: LogKey) -> (it: Self)
        requires
            strictly_increasing(bucket_starts@),
        ensures
            it@ == LogCursor::start(bucket_starts@, min_log_key, max_log_key),
            it.well_formed(),
    {
        TableLogIterator {
            bucket_starts,
            max_log_key,
            current_log_key: min_log_key,
            current_bucket_index: 0,
            scanning: false,
            log_encoding: LogEncoding::newest(),
            previous_value: Vec::new(),
        }
    }

    /// Whether the iterator is exhausted.
    pub fn no_more_data(&self) -> (b: bool)
        ensures
            b == self@.no_more_data(),
    {
        self.current_bucket_index >= self.bucket_starts.len() || self.current_log_key.0
            > self.max_log_key.0 || (self.current_log_key.0 == self.max_log_key.0
            && self.current_log_key.1 > self.max_log_key.1)
    }

    /// Whether a scan is open.
    pub fn is_scanning(&self) -> (b: bool)
        ensures
            b == self@.scanning,
    {
        self.scanning
    }

    /// The range that the next scan asks for: from the current key to the
    /// largest key, both included, smallest key first.
    pub fn new_scan_request(&self) -> (r: Result<ScanRequest, Error>)
        requires
            self.well_formed(),
        ensures
            r matches Ok(req) && req@ == self@.scan_range(),
    {
        let mut seek_key_buf: Vec<u8> = Vec::new();
        match log_codec_failure(
            self.log_encoding.encode_key(&mut seek_key_buf, &self.current_log_key),
        ) {
            Ok(()) => {},
            Err(e) => {
                return Err(e);
            },
        }
        let start = KeyBoundary::included(seek_key_buf.as_slice());
        match log_codec_failure(self.log_encoding.encode_key(&mut seek_key_buf, &self.max_log_key)) {
            Ok(()) => {},
            Err(e) => {
                return Err(e);
            },
        }
        let end = KeyBoundary::included(seek_key_buf.as_slice());
        Ok(ScanRequest { start, end, reverse: false })
    }

    /// What the caller does next.
    pub fn next_step(&self) -> (r: Result<ReadStep, Error>)
        requires
            self.well_formed(),
        ensures
            r matches Ok(step) && step@ == self@.next_step(),
    {
        if self.no_more_data() {
            Ok(ReadStep::Finished)
        } else if self.scanning {
            Ok(ReadStep::Fetch)
        } else {
            match self.new_scan_request() {
                Ok(request) => Ok(ReadStep::Scan { bucket: self.current_bucket_index, request }),
                Err(e) => Err(e),
            }
        }
    }

    /// The bucket to scan next, by its place among the buckets of the read;
    /// `None` when no bucket is left.
    pub fn scan_buckets(&self) -> (bucket: Option<usize>)
        requires
            self.well_formed(),
        ensures
            bucket == (if self@.current_bucket_index < self@.bucket_starts.len() {
                Some(self@.current_bucket_index as usize)
            } else {
                None
            }),
    {
        if self.current_bucket_index < self.bucket_starts.len() {
            Some(self.current_bucket_index)
        } else {
            None
        }
    }

    /// Takes note of the scan of the current bucket: a scan that stands at a
    /// record is kept, a scan that found nothing sends the read to the next
    /// bucket.
    pub fn scan_opened(&mut self, valid: bool)
        requires
            old(self).well_formed(),
        ensures
            final(self)@ == old(self)@.after_scan(valid),
            final(self).well_formed(),
    {
        if self.scanning || self.current_bucket_index >= self.bucket_starts.len() {
            return ;
        }
        if valid {
            self.scanning = true;
        } else {
            self.current_bucket_index += 1;
        }
    }

    /// Takes note of the scan having moved on: when no record is left under
    /// it, the scan is closed and the next bucket is next.
    pub fn step_current_iter(&mut self, has_next: bool)
        requires
            old(self).well_formed(),
        ensures
            final(self)@ == old(self)@.after_step(has_next),
            final(self).well_formed(),
    {
        let bucket_count = self.bucket_starts.len();
        if self.scanning {
            if !has_next {
                assert(self.current_bucket_index < bucket_count);
                self.scanning = false;
                self.current_bucket_index += 1;
            }
        }
    }

    /// Decodes the record under the scan: its key becomes the current key,
    /// and its payload is kept for `log_entry`. A key that does not decode is
    /// reported as `Decoding`, a value that does not as `Encoding`.
    pub fn next_log_entry(&mut self, key: &[u8], value: &[u8]) -> (r: Result<(), manager::Error>)
        requires
            old(self).well_formed(),
        ensures
            final(self)@ == old(self)@.after_fetch(key@, value@),
            final(self).well_formed(),
            r == (match LogCursor::fetched(key@, value@) {
                Ok(_) => Ok::<(), manager::Error>(()),
                Err(e) => Err::<(), manager::Error>(e),
            }),
    {
        match self.log_encoding.decode_key(key) {
            Ok(log_key) => {
                self.current_log_key = log_key;
            },
            Err(e) => {
                return Err(manager::Error::Decoding { source: e });
            },
        }
        match self.log_encoding.decode_value(value) {
            Ok(payload) => {
                self.previous_value = slice_to_vec(payload);
            },
            Err(e) => {
                return Err(manager::Error::Encoding { source: e });
            },
        }
        Ok(())
    }

    /// The record that was decoded last: the region and the sequence number
    /// of its key, and its payload. The payload stays as it is until the next
    /// record is decoded.
    pub fn log_entry(&self) -> (entry: LogEntry<&[u8]>)
        ensures
            entry.table_id == self@.current_log_key.0,
            entry.sequence == self@.current_log_key.1,
            entry.payload@ == self@.payload,
    {
        LogEntry {
            table_id: self.current_log_key.0,
            sequence: self.current_log_key.1,
            payload: self.previous_value.as_slice(),
        }
    }
}

/// The batches of a clean, as the contracts speak of them.
pub struct CleanBatches {
    /// Number of keys after which a batch is handed out.
    pub batch_size: usize,
    /// Keys that wait for the next batch.
    pub pending: Seq<Seq<u8>>,
    /// Number of keys that were handed in, as far as it can be counted.
    pub total_deleted: int,
}

/// The batch that removes `keys`.
pub open spec fn deletes(keys: Seq<Seq<u8>>) -> Seq<Mutation> {
    Seq::new(keys.len(), |i: int| Mutation::Delete { key: keys[i] })
}

impl CleanBatches {
    /// Whether the key that comes next fills the batch.
    pub open spec fn fills(self) -> bool {
        self.pending.len() + 1 >= self.batch_size
    }

    /// The batches after `key` was handed in. The count of keys stops at
    /// the largest number that it can hold.
    pub open spec fn after_delete(self, key: Seq<u8>) -> Self {
        CleanBatches {
            batch_size: self.batch_size,
            pending: if self.fills() {
                Seq::empty()
            } else {
                self.pending.push(key)
            },
            total_deleted: if self.total_deleted < u64::MAX {
                self.total_deleted + 1
            } else {
                self.total_deleted
            },
        }
    }
}

/// Gathers the keys that a scan of a clean finds into batches that remove
/// them. Every key that the scan stands at is handed to `delete`; when the
/// scan has no key left, `finish` hands out what is left over.
#[derive(Debug)]
pub struct LogCleaner {
    batch_size: usize,
    write_batch: WriteBatch,
    total_deleted: u64,
}

impl View for LogCleaner {
    type V = CleanBatches;

    closed spec fn view(&self) -> CleanBatches {
        CleanBatches {
            batch_size: self.batch_size,
            pending: Seq::new(
                self.write_batch@.len(),
                |i: int|
                    match self.write_batch@[i] {
                        Mutation::Delete { key } => key,
                        Mutation::Insert { key, .. } => key,
                        Mutation::InsertOrUpdate { key, .. } => key,
                    },
            ),
            total_deleted: self.total_deleted as int,
        }
    }
}

impl LogCleaner {
    /// Whether the cleaner is one that the functions of this type made.
    pub closed spec fn well_formed(&self) -> bool {
        &&& self.write_batch@ == deletes(self@.pending)
        &&& self@.pending.len() < self.batch_size || self@.pending.len() == 0
    }

    /// A cleaner that has seen no key.
    pub fn new(ctx: &CleanContext) -> (cleaner: Self)
        ensures
            cleaner.well_formed(),
            cleaner@ == (CleanBatches {
                batch_size: ctx.batch_size,
                pending: Seq::empty(),
                total_deleted: 0,
            }),
    {
        let cleaner = LogCleaner {
            batch_size: ctx.batch_size,
            write_batch: WriteBatch::with_capacity(ctx.batch_size),
            total_deleted: 0,
        };
        proof {
            assert(cleaner@.pending =~= Seq::<Seq<u8>>::empty());
            assert(cleaner.write_batch@ =~= deletes(cleaner@.pending));
        }
        cleaner
    }

    /// Hands in a key to remove. When the key fills the batch, the batch
    /// comes back and is to be written to the store; the cleaner starts an
    /// empty batch then.
    pub fn delete(&mut self, key: &[u8]) -> (full: Option<WriteBatch>)
        requires
            old(self).well_formed(),
        ensures
            final(self).well_formed(),
            final(self)@ == old(self)@.after_delete(key@),
            match full {
                Some(batch) => old(self)@.fills() && batch@ == deletes(
                    old(self)@.pending.push(key@),
                ),
                None => !old(self)@.fills(),
            },
    {
        self.write_batch.delete(key);
        if self.total_deleted < u64::MAX {
            self.total_deleted = self.total_deleted + 1;
        }
        proof {
            assert(self@.pending =~= old(self)@.pending.push(key@));
            assert(self.write_batch@ =~= deletes(self@.pending));
        }
        if self.write_batch.len() >= self.batch_size {
            let mut wb = WriteBatch::with_capacity(self.batch_size);
            std::mem::swap(&mut wb, &mut self.write_batch);
            proof {
                assert(self@.pending =~= Seq::<Seq<u8>>::empty());
                assert(self.write_batch@ =~= deletes(self@.pending));
            }
            Some(wb)
        } else {
            None
        }
    }

    /// Hands out the batch of the keys that are left over, once the scan has
    /// no key left. The batch is to be written to the store even when it is
    /// empty.
    pub fn finish(&mut self) -> (rest: WriteBatch)
        requires
            old(self).well_formed(),
        ensures
            final(self).well_formed(),
            rest@ == deletes(old(self)@.pending),
            final(self)@ == (CleanBatches { pending: Seq::empty(), ..old(self)@ }),
    {
        let mut wb = WriteBatch::with_capacity(self.batch_size);
        std::mem::swap(&mut wb, &mut self.write_batch);
        proof {
            assert(self@.pending =~= Seq::<Seq<u8>>::empty());
            assert(self.write_batch@ =~= deletes(self@.pending));
        }
        wb
    }

    /// Number of keys that were handed in.
    pub fn total_deleted(&self) -> (n: u64)
        ensures
            n == self@.total_deleted,
    {
        self.total_deleted
    }
}

/// A region: it can be viewed as an append-only log file.
#[derive(Debug)]
pub struct Region {
    state: RegionState,
    writer: RegionWriter,
}

impl View for Region {
    type V = RegionState;

    closed spec fn view(&self) -> RegionState {
        self.state
    }
}

impl Region {
    /// Opens the region `region_id` from what the store holds of it:
    /// `region_entry` is its entry, if it has one, and `found` is what its
    /// buckets hold, as [`newest_found`] reads it. A region without an entry
    /// is not opened.
    pub fn open(
        region_id: RegionId,
        region_entry: Option<RegionEntry>,
        found: &[Option<SequenceNumber>],
    ) -> (r: Option<Region>)
        ensures
            match region_entry {
                Some(entry) => r matches Some(region) && region@ == (RegionState {
                    region_id,
                    start_sequence: entry.start_sequence,
                    last_sequence: newest_found(found@),
                }),
                None => r is None,
            },
    {
        match region_entry {
            Some(entry) => Some(Self::open_or_create(region_id, entry, found)),
            None => None,
        }
    }

    /// Opens the region `region_id` with the entry that it has in the store
    /// by now: the one that was there, the one that was inserted, or the one
    /// that was loaded after another writer had been first.
    pub fn open_or_create(
        region_id: RegionId,
        region_entry: RegionEntry,
        found: &[Option<SequenceNumber>],
    ) -> (region: Region)
        ensures
            region@ == (RegionState {
                region_id,
                start_sequence: region_entry.start_sequence,
                last_sequence: newest_found(found@),
            }),
    {
        let last_sequence = Self::load_last_sequence(found);
        Region {
            state: RegionState {
                region_id,
                start_sequence: region_entry.start_sequence,
                last_sequence,
            },
            writer: RegionWriter,
        }
    }

    /// The range to scan, largest key first, for the largest sequence number
    /// of `region_id` in a table: all keys of the region.
    pub fn last_sequence_scan_request(region_id: RegionId) -> (r: Result<ScanRequest, Error>)
        ensures
            r matches Ok(req) && req@ == KeyRange::closed(
                log_key_encoder(),
                (region_id, MIN_SEQUENCE_NUMBER),
                (region_id, MAX_SEQUENCE_NUMBER),
                true,
            ),
    {
        let log_encoding = LogEncoding::newest();
        let mut encode_buf: Vec<u8> = Vec::new();
        let start_log_key = (region_id, MIN_SEQUENCE_NUMBER);
        match log_codec_failure(log_encoding.encode_key(&mut encode_buf, &start_log_key)) {
            Ok(()) => {},
            Err(e) => {
                return Err(e);
            },
        }
        let scan_start = KeyBoundary::included(encode_buf.as_slice());
        encode_buf.clear();
        let end_log_key = (region_id, MAX_SEQUENCE_NUMBER);
        match log_codec_failure(log_encoding.encode_key(&mut encode_buf, &end_log_key)) {
            Ok(()) => {},
            Err(e) => {
                return Err(e);
            },
        }
        let scan_end = KeyBoundary::included(encode_buf.as_slice());
        Ok(ScanRequest { start: scan_start, end: scan_end, reverse: true })
    }

    /// The largest sequence number in a table, from the key that the scan
    /// of [`Region::last_sequence_scan_request`] stands at first: `None`
    /// where the scan found nothing or found a key that is no log key.
    pub fn load_last_sequence_from_table(first_key: Option<&[u8]>) -> (r: Result<
        Option<SequenceNumber>,
        Error,
    >)
        ensures
            r == last_sequence_of_scan(
                match first_key {
                    Some(key) => Some(key@),
                    None => None,
                },
            ),
    {
        let log_encoding = LogEncoding::newest();
        let key = match first_key {
            Some(key) => key,
            None => {
                return Ok(None);
            },
        };
        match log_codec_failure(log_encoding.is_log_key(key)) {
            Ok(true) => {},
            Ok(false) => {
                return Ok(None);
            },
            Err(e) => {
                return Err(e);
            },
        }
        match log_codec_failure(log_encoding.decode_key(key)) {
            Ok(log_key) => Ok(Some(log_key.1)),
            Err(e) => Err(e),
        }
    }

    /// The bucket to scan next when the last sequence number of a region is
    /// looked for, by its place among the `bucket_count` buckets: the buckets
    /// are scanned from the newest back until one holds a record of the
    /// region. `probes` is what the buckets scanned so far hold, the newest
    /// bucket first. `None` when the search is over.
    pub fn next_bucket_to_probe(bucket_count: usize, probes: &[Option<SequenceNumber>]) -> (bucket:
        Option<usize>)
        ensures
            bucket == (if probes@.len() < bucket_count && (probes@.len() == 0
                || probes@.last() is None) {
                Some((bucket_count - 1 - probes@.len()) as usize)
            } else {
                None
            }),
    {
        let probed = probes.len();
        if probed >= bucket_count {
            return None;
        }
        if probed > 0 {
            match probes[probed - 1] {
                Some(_) => {
                    return None;
                },
                None => {},
            }
        }
        Some(bucket_count - 1 - probed)
    }

    /// The last sequence number of a region from what its buckets hold: see
    /// [`newest_found`].
    pub fn load_last_sequence(found: &[Option<SequenceNumber>]) -> (last_sequence: SequenceNumber)
        ensures
            last_sequence == newest_found(found@),
    {
        let mut i: usize = found.len();
        proof {
            assert(found@.take(found@.len() as int) =~= found@);
        }
        while i > 0
            invariant
                i <= found@.len(),
                newest_found(found@) == newest_found(found@.take(i as int)),
            decreases i,
        {
            proof {
                assert(found@.take(i as int).last() == found@[i - 1]);
                assert(found@.take(i as int).drop_last() =~= found@.take(i - 1));
            }
            match found[i - 1] {
                Some(sequence) => {
                    return sequence;
                },
                None => {},
            }
            i -= 1;
        }
        proof {
            assert(found@.take(0) =~= Seq::<Option<SequenceNumber>>::empty());
        }
        MIN_SEQUENCE_NUMBER
    }

    /// Takes a sequence number for every entry of `log_batch` and returns the
    /// batch to insert into the table of the bucket, keyed by this region,
    /// with the largest sequence number taken: see
    /// [`RegionWriter::write_log`].
    pub fn write_log(&mut self, log_batch: &LogWriteBatch) -> (r: Result<
        (WriteBatch, SequenceNumber),
        Error,
    >)
        ensures
            final(self)@ == old(self)@.after_allocation(log_batch.entries@.len() as u64),
            match old(self)@.allocated(log_batch.entries@.len() as u64) {
                Ok(first) => r matches Ok((wb, max_sequence_num)) && wb@ == log_inserts(
                    log_key_encoder(),
                    old(self)@.region_id,
                    first,
                    log_batch.values(),
                ) && max_sequence_num == old(self)@.last_sequence + log_batch.entries@.len(),
                Err(e) => r == Err::<(WriteBatch, SequenceNumber), Error>(e),
            },
    {
        let mut writer = RegionWriter;
        writer.write_log(&mut self.state, log_batch)
    }

    /// The iterator over the records whose sequence numbers lie between
    /// `start` and `end`, both included, and in the live log. A request
    /// that holds no sequence number at one of its ends, `None` here, finds
    /// nothing. The buckets are gone through in the order given.
    pub fn read_log(
        &self,
        bucket_starts: Vec<i64>,
        start: Option<SequenceNumber>,
        end: Option<SequenceNumber>,
    ) -> (it: TableLogIterator)
        requires
            strictly_increasing(bucket_starts@),
        ensures
            it.well_formed(),
            it@ == (match self@.read_range(start, end) {
                Some((min_log_key, max_log_key)) => LogCursor::start(
                    bucket_starts@,
                    min_log_key,
                    max_log_key,
                ),
                None => LogCursor::empty(),
            }),
    {
        let start_sequence = match start {
            Some(request_start_sequence) => {
                let region_start_sequence = self.state.start_sequence();
                if region_start_sequence > request_start_sequence {
                    region_start_sequence
                } else {
                    request_start_sequence
                }
            },
            None => {
                return TableLogIterator::new_empty();
            },
        };
        let end_sequence = match end {
            Some(request_end_sequence) => {
                let region_last_sequence = self.state.last_sequence();
                if region_last_sequence < request_end_sequence {
                    region_last_sequence
                } else {
                    request_end_sequence
                }
            },
            None => {
                return TableLogIterator::new_empty();
            },
        };
        let min_log_key = (self.state.region_id, start_sequence);
        let max_log_key = (self.state.region_id, end_sequence);
        TableLogIterator::new(bucket_starts, min_log_key, max_log_key)
    }

    /// The entry to store so that the log is truncated up to `sequence_num`:
    /// see [`RegionWriter::delete_entries_up_to`]. The region itself is left
    /// as it is until [`Region::set_start_sequence`] is told that the store
    /// holds the entry.
    pub fn delete_entries_up_to(&mut self, sequence_num: SequenceNumber) -> (r: Result<
        RegionEntry,
        Error,
    >)
        ensures
            final(self)@ == old(self)@,
            r == old(self)@.truncated(sequence_num),
    {
        let mut writer = RegionWriter;
        writer.delete_entries_up_to(&self.state, sequence_num)
    }

    /// Moves the start of the live log, once the store holds the entry that
    /// says so.
    pub fn set_start_sequence(&mut self, sequence: SequenceNumber)
        ensures
            final(self)@ == (RegionState { start_sequence: sequence, ..old(self)@ }),
    {
        self.state.set_start_sequence(sequence);
    }

    pub fn region_id(&self) -> (id: RegionId)
        ensures
            id == self@.region_id,
    {
        self.state.region_id
    }

    pub fn last_sequence(&self) -> (s: SequenceNumber)
        ensures
            s == self@.last_sequence,
    {
        self.state.last_sequence()
    }

    pub fn start_sequence(&self) -> (s: SequenceNumber)
        ensures
            s == self@.start_sequence,
    {
        self.state.start_sequence()
    }

    /// How to scan every bucket for the records that a clean removes: the
    /// keys of the region from the smallest sequence number up to the start
    /// of the live log. The record at the start is live and not scanned for.
    pub fn clean_deleted_logs(&self, ctx: &CleanContext) -> (r: Result<
        (ScanContext, ScanRequest),
        Error,
    >)
        ensures
            r matches Ok((scan_ctx, req)) && req@ == KeyRange::half_open(
                log_key_encoder(),
                (self@.region_id, MIN_SEQUENCE_NUMBER),
                (self@.region_id, self@.start_sequence),
            ) && scan_ctx.timeout == ctx.scan_timeout && scan_ctx.batch_size
                == ctx.scan_batch_size(),
    {
        let min_log_key = (self.state.region_id, MIN_SEQUENCE_NUMBER);
        let max_log_key = (self.state.region_id, self.state.start_sequence());
        let mut seek_key_buf: Vec<u8> = Vec::new();
        let log_encoding = LogEncoding::newest();
        match log_codec_failure(log_encoding.encode_key(&mut seek_key_buf, &min_log_key)) {
            Ok(()) => {},
            Err(e) => {
                return Err(e);
            },
        }
        let start = KeyBoundary::included(seek_key_buf.as_slice());
        match log_codec_failure(log_encoding.encode_key(&mut seek_key_buf, &max_log_key)) {
            Ok(()) => {},
            Err(e) => {
                return Err(e);
            },
        }
        let end = KeyBoundary::excluded(seek_key_buf.as_slice());
        let scan_req = ScanRequest { start, end, reverse: false };
        Ok((ctx.scan_context(), scan_req))
    }

    /// The cleaner that gathers what the scan of one bucket finds.
    pub fn clean_logs_from_iter(&self, ctx: &CleanContext) -> (cleaner: LogCleaner)
        ensures
            cleaner.well_formed(),
            cleaner@ == (CleanBatches {
                batch_size: ctx.batch_size,
                pending: Seq::empty(),
                total_deleted: 0,
            }),
    {
        LogCleaner::new(ctx)
    }
}

/// The newest buckets decide: once a bucket was found to hold a record of
/// the region, what the buckets from that one on hold gives the last sequence
/// number that all buckets give, so that older buckets need no scan.
pub proof fn lemma_newest_buckets_decide(found: Seq<Option<SequenceNumber>>, from: int)
    requires
        0 <= from < found.len(),
        found[from] is Some,
    ensures
        newest_found(found.subrange(from, found.len() as int)) == newest_found(found),
    decreases found.len(),
{
    let newest = found.subrange(from, found.len() as int);
    assert(newest.last() == found.last());
    if found.last() is None {
        assert(from < found.len() - 1);
        assert(newest.drop_last() =~= found.drop_last().subrange(from, found.len() - 1));
        lemma_newest_buckets_decide(found.drop_last(), from);
    }
}

/// A key that decodes as a log key and lies between the encodings of two
/// log keys, both included, is a key between the two.
pub proof fn lemma_log_key_between(min: LogKey, max: LogKey, key: Seq<u8>)
    requires
        KeyRange::closed(log_key_encoder(), min, max, false).contains(key),
        log_key_encoder().decoded(key) is Ok,
    ensures
        ({
            let log_key = log_key_encoder().decoded(key).unwrap();
            &&& log_key == min || log_key_lt(min, log_key)
            &&& log_key == max || log_key_lt(log_key, max)
        }),
{
    let enc = log_key_encoder();
    let log_key = enc.decoded(key).unwrap();
    let head = key.subrange(0, 18);
    lemma_log_key_decoded_is_prefix(enc, key);
    lemma_log_key_round_trip(enc, min);
    lemma_log_key_round_trip(enc, max);
    lemma_log_key_round_trip(enc, log_key);
    lemma_log_key_order(enc, min, log_key);
    lemma_log_key_order(enc, log_key, max);
    lemma_lex_le_prefix_lower(enc.encoded(min), key);
    if key != enc.encoded(max) {
        lemma_lex_lt_prefix_upper(key, enc.encoded(max));
    } else {
        assert(head =~= key);
    }
}

/// A key that decodes as a log key and lies between the encodings of two
/// log keys, the first included and the second not, is a key between the
/// two and is not the second.
pub proof fn lemma_log_key_before(min: LogKey, max: LogKey, key: Seq<u8>)
    requires
        KeyRange::half_open(log_key_encoder(), min, max).contains(key),
        log_key_encoder().decoded(key) is Ok,
    ensures
        ({
            let log_key = log_key_encoder().decoded(key).unwrap();
            &&& log_key == min || log_key_lt(min, log_key)
            &&& log_key_lt(log_key, max)
        }),
{
    let enc = log_key_encoder();
    let log_key = enc.decoded(key).unwrap();
    lemma_log_key_decoded_is_prefix(enc, key);
    lemma_log_key_round_trip(enc, min);
    lemma_log_key_round_trip(enc, max);
    lemma_log_key_round_trip(enc, log_key);
    lemma_log_key_order(enc, min, log_key);
    lemma_log_key_order(enc, log_key, max);
    lemma_lex_le_prefix_lower(enc.encoded(min), key);
    lemma_lex_lt_prefix_upper(key, enc.encoded(max));
}

/// Writes that follow one another get sequence numbers that follow one
/// another: a write of `second` entries that succeeds returns the number
/// that the successful write before it returned, plus `second`, which is
/// larger where the write holds an entry. Whatever was read or truncated in
/// between does not matter, nor does a write that failed, since neither moves
/// the last sequence number.
pub proof fn lemma_writes_count_up(state: RegionState, first: u64, second: u64)
    requires
        state.allocated(first) is Ok,
        state.after_allocation(first).allocated(second) is Ok,
    ensures
        state.after_allocation(first).last_sequence == state.last_sequence + first,
        state.after_allocation(first).after_allocation(second).last_sequence
            == state.after_allocation(first).last_sequence + second,
        second > 0 ==> state.after_allocation(first).after_allocation(second).last_sequence
            > state.after_allocation(first).last_sequence,
{
}

/// The last sequence number never goes back and never reaches the sentinel
/// by a write: a write that fails leaves it where it was, and a write that
/// succeeds leaves it below the largest sequence number.
pub proof fn lemma_sentinel_is_kept(state: RegionState, number: u64)
    ensures
        state.after_allocation(number).last_sequence >= state.last_sequence,
        state.after_allocation(number).region_id == state.region_id,
        state.after_allocation(number).start_sequence == state.start_sequence,
        state.allocated(number) is Err ==> state.after_allocation(number) == state,
        state.allocated(number) is Ok ==> state.after_allocation(number).last_sequence
            < MAX_SEQUENCE_NUMBER,
{
}

/// Within one write the sequence numbers have no gap and no duplicate: entry
/// `i` of a write that succeeds is stored under the key of the region with
/// the last sequence number of before plus `i + 1`, which lies below the
/// sentinel, and no other entry is stored under that key.
pub proof fn lemma_write_has_no_gap(state: RegionState, values: Seq<Seq<u8>>, i: int)
    requires
        values.len() <= u64::MAX,
        state.allocated(values.len() as u64) is Ok,
        0 <= i < values.len(),
    ensures
        state.last_sequence + 1 + i < MAX_SEQUENCE_NUMBER,
        ({
            let batch = log_inserts(
                log_key_encoder(),
                state.region_id,
                state.allocated(values.len() as u64).unwrap(),
                values,
            );
            &&& batch[i] == (Mutation::Insert {
                key: log_key_encoder().encoded(
                    (state.region_id, (state.last_sequence + 1 + i) as u64),
                ),
                value: values[i],
            })
            &&& forall|j: int|
                0 <= j < values.len() && j != i ==> (#[trigger] batch[j])->Insert_key
                    != batch[i]->Insert_key
        }),
{
    let batch = log_inserts(
        log_key_encoder(),
        state.region_id,
        state.allocated(values.len() as u64).unwrap(),
        values,
    );
    assert forall|j: int| 0 <= j < values.len() && j != i implies (#[trigger] batch[j])->Insert_key
        != batch[i]->Insert_key by {
        lemma_log_key_round_trip(
            log_key_encoder(),
            (state.region_id, (state.last_sequence + 1 + i) as u64),
        );
        lemma_log_key_round_trip(
            log_key_encoder(),
            (state.region_id, (state.last_sequence + 1 + j) as u64),
        );
    }
}

/// What was written is what a read scans for: the key of every entry of a
/// write that succeeds lies in the range that a read of the sequence
/// numbers of the write scans, whatever batch the entries came in.
pub proof fn lemma_written_is_read(state: RegionState, values: Seq<Seq<u8>>, i: int)
    requires
        values.len() <= u64::MAX,
        state.allocated(values.len() as u64) is Ok,
        state.start_sequence <= state.last_sequence + 1,
        0 <= i < values.len(),
    ensures
        ({
            let written = state.after_allocation(values.len() as u64);
            let first = state.allocated(values.len() as u64).unwrap();
            &&& written.read_range(Some(first), Some(written.last_sequence)) == Some(
                ((state.region_id, first), (state.region_id, written.last_sequence)),
            )
            &&& KeyRange::closed(
                log_key_encoder(),
                (state.region_id, first),
                (state.region_id, written.last_sequence),
                false,
            ).contains(
                log_key_encoder().encoded(
                    (state.region_id, (state.last_sequence + 1 + i) as u64),
                ),
            )
        }),
{
    let enc = log_key_encoder();
    let written = state.after_allocation(values.len() as u64);
    let first = state.allocated(values.len() as u64).unwrap();
    let key = (state.region_id, (state.last_sequence + 1 + i) as u64);
    lemma_log_key_order(enc, (state.region_id, first), key);
    lemma_log_key_order(enc, key, (state.region_id, written.last_sequence));
}

/// Truncating twice up to the same sequence number is truncating once: the
/// second call asks to store the entry that the first call asked to store.
pub proof fn lemma_truncate_idempotent(state: RegionState, sequence_num: SequenceNumber)
    requires
        state.truncated(sequence_num) is Ok,
    ensures
        ({
            let entry = state.truncated(sequence_num).unwrap();
            let truncated = RegionState { start_sequence: entry.start_sequence, ..state };
            truncated.truncated(sequence_num) == Ok::<RegionEntry, Error>(entry)
        }),
{
}

/// Truncating never moves the start of the live log back, and leaves
/// nothing live at or before the sequence number, up to the last one.
pub proof fn lemma_truncate_moves_forward(state: RegionState, sequence_num: SequenceNumber)
    requires
        state.truncated(sequence_num) is Ok,
    ensures
        ({
            let entry = state.truncated(sequence_num).unwrap();
            &&& entry.region_id == state.region_id
            &&& entry.start_sequence >= state.start_sequence
            &&& sequence_num <= state.last_sequence ==> entry.start_sequence > sequence_num
            &&& sequence_num > state.last_sequence ==> entry.start_sequence > state.last_sequence
        }),
{
}

/// What a read yields lies in the live log and in what was asked for: a key
/// that the store finds in a range that a read scans, where the read has
/// not fallen behind its first key, is a key of the region whose sequence
/// number is neither smaller than the start sequence or the requested start
/// nor larger than the last sequence or the requested end.
pub proof fn lemma_read_bounds(
    state: RegionState,
    start: SequenceNumber,
    end: SequenceNumber,
    cursor: LogCursor,
    key: Seq<u8>,
)
    requires
        state.read_range(Some(start), Some(end)) matches Some((min_log_key, max_log_key))
            && cursor.max_log_key == max_log_key && (cursor.current_log_key == min_log_key
            || log_key_lt(min_log_key, cursor.current_log_key)),
        cursor.scan_range().contains(key),
        log_key_encoder().decoded(key) is Ok,
    ensures
        ({
            let log_key = log_key_encoder().decoded(key).unwrap();
            &&& log_key.0 == state.region_id
            &&& state.start_sequence <= log_key.1 <= state.last_sequence
            &&& start <= log_key.1 <= end
            &&& log_key == cursor.current_log_key || log_key_lt(cursor.current_log_key, log_key)
        }),
{
    lemma_log_key_between(cursor.current_log_key, cursor.max_log_key, key);
}

/// A read stays in its bounds: after a record in the scanned range was
/// fetched, the read has still not fallen behind its first key, so that what
/// [`lemma_read_bounds`] asks of the read holds of it again, fetch after
/// fetch and scan after scan.
pub proof fn lemma_read_stays_in_bounds(
    state: RegionState,
    start: SequenceNumber,
    end: SequenceNumber,
    cursor: LogCursor,
    key: Seq<u8>,
    value: Seq<u8>,
    valid: bool,
    has_next: bool,
)
    requires
        state.read_range(Some(start), Some(end)) matches Some((min_log_key, max_log_key))
            && cursor.max_log_key == max_log_key && (cursor.current_log_key == min_log_key
            || log_key_lt(min_log_key, cursor.current_log_key)),
        cursor.scan_range().contains(key),
    ensures
        state.read_range(Some(start), Some(end)) matches Some((min_log_key, max_log_key)) && ({
            let fetched = cursor.after_fetch(key, value);
            &&& fetched.max_log_key == max_log_key
            &&& fetched.current_log_key == min_log_key || log_key_lt(
                min_log_key,
                fetched.current_log_key,
            )
            &&& cursor.after_scan(valid).max_log_key == max_log_key
            &&& cursor.after_scan(valid).current_log_key == cursor.current_log_key
            &&& cursor.after_step(has_next).max_log_key == max_log_key
            &&& cursor.after_step(has_next).current_log_key == cursor.current_log_key
        }),
{
    if log_key_encoder().decoded(key) is Ok {
        lemma_log_key_between(cursor.current_log_key, cursor.max_log_key, key);
    }
}

/// A clean removes nothing that is live: a key that the store finds in the
/// range that a clean scans is a key of the region whose sequence number is
/// smaller than the start sequence. The record at the start sequence and all
/// behind it stay.
pub proof fn lemma_clean_safety(state: RegionState, key: Seq<u8>)
    requires
        KeyRange::half_open(
            log_key_encoder(),
            (state.region_id, MIN_SEQUENCE_NUMBER),
            (state.region_id, state.start_sequence),
        ).contains(key),
        log_key_encoder().decoded(key) is Ok,
    ensures
        ({
            let log_key = log_key_encoder().decoded(key).unwrap();
            &&& log_key.0 == state.region_id
            &&& log_key.1 < state.start_sequence
        }),
{
    lemma_log_key_before(
        (state.region_id, MIN_SEQUENCE_NUMBER),
        (state.region_id, state.start_sequence),
        key,
    );
}

/// A clean reaches all that was truncated: the key of every record of the
/// region before the start sequence lies in the range that a clean scans.
pub proof fn lemma_clean_reaches(state: RegionState, sequence_num: SequenceNumber)
    requires
        sequence_num < state.start_sequence,
    ensures
        KeyRange::half_open(
            log_key_encoder(),
            (state.region_id, MIN_SEQUENCE_NUMBER),
            (state.region_id, state.start_sequence),
        ).contains(log_key_encoder().encoded((state.region_id, sequence_num))),
{
    let enc = log_key_encoder();
    lemma_log_key_order(
        enc,
        (state.region_id, MIN_SEQUENCE_NUMBER),
        (state.region_id, sequence_num),
    );
    lemma_log_key_order(
        enc,
        (state.region_id, sequence_num),
        (state.region_id, state.start_sequence),
    );
}

/// A record as the store hands it over.
pub struct Record {
    pub key: Seq<u8>,
    pub value: Seq<u8>,
}

/// The read after the scan of the current bucket was answered with
/// `records` and the first `n` of them were gone through, step by step as
/// [`LogCursor::next_step`] says: the read is told whether the scan found a
/// record, and then every record is fetched and the scan moved on, as long as
/// the read asks for a fetch.
pub open spec fn after_records(cursor: LogCursor, records: Seq<Record>, n: int) -> LogCursor
    decreases n,
{
    if n <= 0 {
        cursor.after_scan(records.len() > 0)
    } else {
        let before = after_records(cursor, records, n - 1);
        if before.next_step() is Fetch {
            before.after_fetch(records[n - 1].key, records[n - 1].value).after_step(
                n < records.len(),
            )
        } else {
            before
        }
    }
}

/// The read after the first `b` buckets were gone through, where the scan
/// of bucket `i` was answered with `scans[i]`. A read that is over scans no
/// further.
pub open spec fn after_buckets(cursor: LogCursor, scans: Seq<Seq<Record>>, b: int) -> LogCursor
    decreases b,
{
    if b <= 0 {
        cursor
    } else {
        let before = after_buckets(cursor, scans, b - 1);
        if before.next_step() is Scan {
            after_records(before, scans[b - 1], scans[b - 1].len() as int)
        } else {
            before
        }
    }
}

/// The key of the entry that the read yields for record `n` of bucket `b`,
/// if it yields one: the bucket is scanned, the read asks for a fetch when
/// the turn of the record comes, and the record decodes.
pub open spec fn yielded(cursor: LogCursor, scans: Seq<Seq<Record>>, b: int, n: int) -> Option<
    LogKey,
> {
    let opening = after_buckets(cursor, scans, b);
    let before = after_records(opening, scans[b], n);
    if opening.next_step() is Scan && before.next_step() is Fetch {
        match LogCursor::fetched(scans[b][n].key, scans[b][n].value) {
            Ok((log_key, _)) => Some(log_key),
            Err(_) => None,
        }
    } else {
        None
    }
}

/// Whether the store answers every scan of a read with keys of the range
/// that the scan asked for.
pub open spec fn answers_in_range(cursor: LogCursor, scans: Seq<Seq<Record>>) -> bool {
    forall|b: int, n: int|
        0 <= b < scans.len() && 0 <= n < scans[b].len() ==> after_buckets(
            cursor,
            scans,
            b,
        ).scan_range().contains(#[trigger] scans[b][n].key)
}

/// Whether a read has not fallen behind the key `min_log_key`.
pub open spec fn not_behind(cursor: LogCursor, min_log_key: LogKey) -> bool {
    cursor.current_log_key == min_log_key || log_key_lt(min_log_key, cursor.current_log_key)
}

/// Going through records that lie in the range of the scan leaves the
/// largest key of the read as it is and does not move the read back.
proof fn lemma_records_move_forward(cursor: LogCursor, records: Seq<Record>, n: int)
    requires
        0 <= n <= records.len(),
        forall|i: int|
            0 <= i < records.len() ==> cursor.scan_range().contains((#[trigger] records[i]).key),
    ensures
        after_records(cursor, records, n).max_log_key == cursor.max_log_key,
        not_behind(after_records(cursor, records, n), cursor.current_log_key),
    decreases n,
{
    if n > 0 {
        lemma_records_move_forward(cursor, records, n - 1);
        let before = after_records(cursor, records, n - 1);
        let record = records[n - 1];
        assert(cursor.scan_range().contains(record.key));
        if log_key_encoder().decoded(record.key) is Ok {
            lemma_log_key_between(cursor.current_log_key, cursor.max_log_key, record.key);
        }
    }
}

/// Going through buckets whose scans are answered in range leaves the
/// largest key of the read as it is and does not move the read back.
proof fn lemma_buckets_move_forward(cursor: LogCursor, scans: Seq<Seq<Record>>, b: int)
    requires
        0 <= b <= scans.len(),
        answers_in_range(cursor, scans),
    ensures
        after_buckets(cursor, scans, b).max_log_key == cursor.max_log_key,
        not_behind(after_buckets(cursor, scans, b), cursor.current_log_key),
    decreases b,
{
    if b > 0 {
        lemma_buckets_move_forward(cursor, scans, b - 1);
        let before = after_buckets(cursor, scans, b - 1);
        let records = scans[b - 1];
        assert forall|i: int| 0 <= i < records.len() implies before.scan_range().contains(
            (#[trigger] records[i]).key,
        ) by {
            assert(before.scan_range().contains(scans[b - 1][i].key));
        }
        lemma_records_move_forward(before, records, records.len() as int);
    }
}

/// A read never yields a record outside its bounds: where the store
/// answers every scan with keys of the range that the scan asked for, every
/// entry that a read of the sequence numbers from `start` to `end` yields,
/// in whatever bucket and at whatever place, is an entry of the region whose
/// sequence number is neither smaller than the start sequence or `start` nor
/// larger than the last sequence or `end`.
pub proof fn lemma_read_yields_in_bounds(
    state: RegionState,
    start: SequenceNumber,
    end: SequenceNumber,
    bucket_starts: Seq<i64>,
    scans: Seq<Seq<Record>>,
    b: int,
    n: int,
)
    requires
        0 <= b < scans.len(),
        0 <= n < scans[b].len(),
        state.read_range(Some(start), Some(end)) matches Some((min_log_key, max_log_key))
            && answers_in_range(LogCursor::start(bucket_starts, min_log_key, max_log_key), scans)
            && yielded(
            LogCursor::start(bucket_starts, min_log_key, max_log_key),
            scans,
            b,
            n,
        ) is Some,
    ensures
        state.read_range(Some(start), Some(end)) matches Some((min_log_key, max_log_key)) && ({
            let log_key = yielded(
                LogCursor::start(bucket_starts, min_log_key, max_log_key),
                scans,
                b,
                n,
            ).unwrap();
            &&& log_key.0 == state.region_id
            &&& state.start_sequence <= log_key.1 <= state.last_sequence
            &&& start <= log_key.1 <= end
        }),
{
    let (min_log_key, max_log_key) = state.read_range(Some(start), Some(end)).unwrap();
    let cursor = LogCursor::start(bucket_starts, min_log_key, max_log_key);
    lemma_buckets_move_forward(cursor, scans, b);
    let opening = after_buckets(cursor, scans, b);
    let record = scans[b][n];
    assert(opening.scan_range().contains(record.key));
    lemma_log_key_between(opening.current_log_key, opening.max_log_key, record.key);
}

} // verus!
