//! Meta data of the tables of a region whose log is kept in a message queue.
//!
//! For every table the registry knows the next sequence number, the sequence
//! number up to which the log may be reclaimed, the high watermark in the
//! queue, and where in the queue each batch of the table starts. The registry
//! can be frozen into a snapshot, and rebuilt from a snapshot and the writes
//! that came after it.
//!
//! The registry itself is sequential: whoever shares it between tasks puts a
//! lock around it.

use std::collections::{BTreeMap, HashMap};

use vstd::prelude::*;
use vstd::std_specs::iter::IteratorSpec;

use crate::{SequenceNumber, TableId, MIN_SEQUENCE_NUMBER};

verus! {

/// Position in a partition of the message queue.
pub type Offset = i64;

/// Why the meta data of a table could not be updated after a write.
#[derive(Debug, Clone, Copy, PartialEq, Eq, Structural)]
pub enum UpdateFailure {
    /// The range of offsets starts behind its end.
    InvalidRange,
    /// The registry does not know the table.
    TableNotFound,
    /// The next sequence number or the high watermark would leave its type.
    Overflow,
}

/// Why a sequence number could not be marked as deleted.
#[derive(Debug, Clone, Copy, PartialEq, Eq, Structural)]
pub enum DeleteFailure {
    /// The registry does not know the table.
    TableNotFound,
    /// The sequence number lies behind the next sequence number.
    BeyondNextSequence,
    /// The sequence number lies before the one that is marked already.
    BeforeMarkedDeleted,
}

/// Why a registry could not be rebuilt.
#[derive(Debug, Clone, Copy, PartialEq, Eq, Structural)]
pub enum BuildFailure {
    /// The snapshot holds a table that the builder holds already.
    DuplicatedEntry,
    /// The sequence number of the delta does not lie behind the table's.
    SequenceNotAdvanced,
    /// The offset of the delta does not lie behind the table's.
    HighWatermarkNotAdvanced,
}

/// What can go wrong in the registry.
#[allow(inconsistent_fields)]
#[derive(Debug, Clone, Copy, PartialEq, Eq, Structural)]
pub enum Error {
    UpdateAfterWrite { table_id: TableId, reason: UpdateFailure },
    MarkDeleted { table_id: TableId, reason: DeleteFailure },
    GetTableMeta { table_id: TableId },
    Build { table_id: TableId, reason: BuildFailure },
}

/// Offsets that one write took in the queue: `start` to `end`, both
/// included. It is never empty.
#[derive(Debug, Clone, Copy, PartialEq, Eq, Structural)]
pub struct OffsetRange {
    pub start: Offset,
    pub end: Offset,
}

impl OffsetRange {
    pub fn new(start: Offset, end: Offset) -> (r: Self)
        ensures
            r.start == start,
            r.end == end,
    {
        Self { start, end }
    }

    /// Number of offsets in the range.
    pub open spec fn count(self) -> int {
        self.end - self.start + 1
    }
}

/// What a snapshot tells of one table.
#[derive(Debug, Clone, Copy, PartialEq, Eq, Structural)]
pub struct TableMetaData {
    pub table_id: TableId,
    pub next_sequence_num: SequenceNumber,
    pub latest_marked_deleted: SequenceNumber,
    pub current_high_watermark: Offset,
    pub safe_delete_offset: Option<Offset>,
}

/// All tables of a region at one moment.
#[derive(Debug, Clone, PartialEq, Eq)]
pub struct RegionMetaSnapshot {
    pub entries: Vec<TableMetaData>,
}

/// One record written after a snapshot: its table, its sequence number and
/// its offset in the queue.
#[derive(Debug, Clone, Copy, PartialEq, Eq, Structural)]
pub struct RegionMetaDelta {
    pub table_id: TableId,
    pub sequence_num: SequenceNumber,
    pub offset: Offset,
}

impl RegionMetaDelta {
    pub fn new(table_id: TableId, sequence_num: SequenceNumber, offset: Offset) -> (d: Self)
        ensures
            d.table_id == table_id,
            d.sequence_num == sequence_num,
            d.offset == offset,
    {
        Self { table_id, sequence_num, offset }
    }
}

/// The meta data of one table, as the contracts of this module speak of it.
pub struct TableMetaState {
    /// Sequence number of the next record.
    pub next_sequence_num: SequenceNumber,
    /// Records with a smaller sequence number may be reclaimed.
    pub latest_marked_deleted: SequenceNumber,
    /// One behind the largest offset that the table has written to.
    pub current_high_watermark: Offset,
    /// First sequence number of a batch, to the offset where the batch starts.
    pub start_sequence_offset_mapping: Map<SequenceNumber, Offset>,
}

impl TableMetaState {
    /// A table that nothing was written to.
    pub open spec fn init() -> Self {
        TableMetaState {
            next_sequence_num: MIN_SEQUENCE_NUMBER,
            latest_marked_deleted: MIN_SEQUENCE_NUMBER,
            current_high_watermark: 0,
            start_sequence_offset_mapping: Map::empty(),
        }
    }

    /// Nothing is marked deleted that was not written, and while records are
    /// live the offset of the first of them is known.
    pub open spec fn is_consistent(self) -> bool {
        &&& self.latest_marked_deleted <= self.next_sequence_num
        &&& self.next_sequence_num > self.latest_marked_deleted
            ==> self.start_sequence_offset_mapping.contains_key(self.latest_marked_deleted)
    }

    /// What holds of a table between the calls of a registry that is used as
    /// meant: the table is consistent, and the mapping speaks of live records
    /// only, so that it is empty when nothing is live.
    pub open spec fn well_formed(self) -> bool {
        &&& self.is_consistent()
        &&& self.next_sequence_num == self.latest_marked_deleted
            ==> self.safe_delete_offset() is None
        &&& forall|k: SequenceNumber| #[trigger]
            self.start_sequence_offset_mapping.contains_key(k) ==> self.latest_marked_deleted <= k
                < self.next_sequence_num
    }

    /// The offset from which the queue must be kept: that of the first live
    /// record, if there is one.
    pub open spec fn safe_delete_offset(self) -> Option<Offset> {
        if self.next_sequence_num == self.latest_marked_deleted {
            None
        } else if self.start_sequence_offset_mapping.contains_key(self.latest_marked_deleted) {
            Some(self.start_sequence_offset_mapping[self.latest_marked_deleted])
        } else {
            None
        }
    }

    /// What a snapshot tells of this table.
    pub open spec fn meta_data(self, table_id: TableId) -> TableMetaData {
        TableMetaData {
            table_id,
            next_sequence_num: self.next_sequence_num,
            latest_marked_deleted: self.latest_marked_deleted,
            current_high_watermark: self.current_high_watermark,
            safe_delete_offset: self.safe_delete_offset(),
        }
    }

    /// The table that a snapshot entry stands for.
    pub open spec fn from_meta_data(data: TableMetaData) -> Self {
        TableMetaState {
            next_sequence_num: data.next_sequence_num,
            latest_marked_deleted: data.latest_marked_deleted,
            current_high_watermark: data.current_high_watermark,
            start_sequence_offset_mapping: match data.safe_delete_offset {
                Some(offset) => Map::empty().insert(data.latest_marked_deleted, offset),
                None => Map::empty(),
            },
        }
    }

    /// Why a write of `range` cannot be recorded, if it cannot.
    pub open spec fn write_failure(self, range: OffsetRange) -> Option<UpdateFailure> {
        if range.start > range.end {
            Some(UpdateFailure::InvalidRange)
        } else if self.next_sequence_num + range.count() > u64::MAX || range.end + 1 > i64::MAX {
            Some(UpdateFailure::Overflow)
        } else {
            None
        }
    }

    /// The table after a write that took `range` in the queue.
    pub open spec fn after_write(self, range: OffsetRange) -> Self {
        TableMetaState {
            next_sequence_num: (self.next_sequence_num + range.count()) as u64,
            latest_marked_deleted: self.latest_marked_deleted,
            current_high_watermark: (range.end + 1) as i64,
            start_sequence_offset_mapping: self.start_sequence_offset_mapping.insert(
                self.next_sequence_num,
                range.start,
            ),
        }
    }

    /// Why `sequence_num` cannot be marked deleted, if it cannot.
    pub open spec fn delete_failure(self, sequence_num: SequenceNumber) -> Option<DeleteFailure> {
        if sequence_num > self.next_sequence_num {
            Some(DeleteFailure::BeyondNextSequence)
        } else if sequence_num < self.latest_marked_deleted {
            Some(DeleteFailure::BeforeMarkedDeleted)
        } else {
            None
        }
    }

    /// The table after the records before `sequence_num` were marked deleted.
    pub open spec fn after_delete(self, sequence_num: SequenceNumber) -> Self {
        TableMetaState {
            next_sequence_num: self.next_sequence_num,
            latest_marked_deleted: sequence_num,
            current_high_watermark: self.current_high_watermark,
            start_sequence_offset_mapping: self.start_sequence_offset_mapping.restrict(
                Set::new(|k: SequenceNumber| k >= sequence_num),
            ),
        }
    }

    /// Whether the sequence number of a delta lies behind this table's.
    pub open spec fn delta_advances_sequence(self, delta: RegionMetaDelta) -> bool {
        self.next_sequence_num <= delta.sequence_num < u64::MAX
    }

    /// Whether the offset of a delta lies behind this table's.
    pub open spec fn delta_advances_offset(self, delta: RegionMetaDelta) -> bool {
        self.current_high_watermark <= delta.offset < i64::MAX
    }

    /// The table after the sequence number of a delta was taken over.
    pub open spec fn with_delta_sequence(self, delta: RegionMetaDelta) -> Self {
        TableMetaState { next_sequence_num: (delta.sequence_num + 1) as u64, ..self }
    }

    /// The table after a delta was applied to it.
    pub open spec fn after_delta(self, delta: RegionMetaDelta) -> Self {
        TableMetaState {
            next_sequence_num: (delta.sequence_num + 1) as u64,
            latest_marked_deleted: self.latest_marked_deleted,
            current_high_watermark: (delta.offset + 1) as i64,
            start_sequence_offset_mapping: self.start_sequence_offset_mapping.insert(
                delta.sequence_num,
                delta.offset,
            ),
        }
    }
}

/// The meta data of one table.
#[derive(Debug)]
pub struct TableMetaInner {
    /// Sequence number of the next record. Moves on when a write succeeded.
    next_sequence_num: SequenceNumber,
    /// Records with a smaller sequence number may be reclaimed. Moves on when
    /// a flush succeeded.
    latest_marked_deleted: SequenceNumber,
    /// The high watermark in the queue after the latest write of this table.
    current_high_watermark: Offset,
    /// Start sequence number of every write, to the offset where it starts.
    /// Entries before the marked sequence number are dropped.
    start_sequence_offset_mapping: BTreeMap<SequenceNumber, Offset>,
}

impl View for TableMetaInner {
    type V = TableMetaState;

    closed spec fn view(&self) -> TableMetaState {
        TableMetaState {
            next_sequence_num: self.next_sequence_num,
            latest_marked_deleted: self.latest_marked_deleted,
            current_high_watermark: self.current_high_watermark,
            start_sequence_offset_mapping: self.start_sequence_offset_mapping@,
        }
    }
}

/// Drops from `mapping` every entry whose key is smaller than `bound`.
fn retain_from(mapping: &mut BTreeMap<SequenceNumber, Offset>, bound: SequenceNumber)
    ensures
        final(mapping)@ == old(mapping)@.restrict(Set::new(|k: SequenceNumber| k >= bound)),
{
    let mut dropped: Vec<SequenceNumber> = Vec::new();
    let keys = mapping.keys();
    let ghost all: Seq<SequenceNumber> = keys.remaining().unref();
    let ghost n: int = 0;
    assert(all.to_set() == mapping@.dom());
    for k in it: keys
        invariant
            it.seq().unref() == all,
            n == it.index(),
            all.to_set() == mapping@.dom(),
            forall|i: int|
                0 <= i < dropped@.len() ==> mapping@.contains_key(#[trigger] dropped@[i])
                    && dropped@[i] < bound,
            forall|j: int| 0 <= j < n && all[j] < bound ==> dropped@.contains(#[trigger] all[j]),
    {
        assert(all[n] == *k);
        assert(all.to_set().contains(*k));
        if *k < bound {
            let ghost prev = dropped@;
            dropped.push(*k);
            assert(dropped@[dropped@.len() - 1] == *k);
            assert forall|j: int| 0 <= j < n + 1 && all[j] < bound implies dropped@.contains(
                #[trigger] all[j],
            ) by {
                if j < n {
                    let i = choose|i: int| 0 <= i < prev.len() && prev[i] == all[j];
                    assert(dropped@[i] == all[j]);
                }
            }
        }
        proof {
            n = n + 1;
        }
    }
    assert(n == all.len());
    assert forall|k: SequenceNumber| mapping@.contains_key(k) && k < bound implies dropped@.contains(
        k,
    ) by {
        assert(all.to_set().contains(k));
        let j = choose|j: int| 0 <= j < all.len() && all[j] == k;
        assert(all[j] == k);
    }
    let mut i: usize = 0;
    while i < dropped.len()
        invariant
            i <= dropped@.len(),
            forall|j: int| 0 <= j < dropped@.len() ==> (#[trigger] dropped@[j]) < bound,
            forall|k: SequenceNumber| #[trigger]
                mapping@.contains_key(k) ==> old(mapping)@.contains_key(k) && mapping@[k] == old(
                    mapping,
                )@[k],
            forall|k: SequenceNumber|
                old(mapping)@.contains_key(k) && k >= bound ==> #[trigger] mapping@.contains_key(k),
            forall|j: int| 0 <= j < i ==> !mapping@.contains_key(#[trigger] dropped@[j]),
            forall|k: SequenceNumber|
                old(mapping)@.contains_key(k) && k < bound ==> dropped@.contains(k),
        decreases dropped@.len() - i,
    {
        let key = dropped[i];
        mapping.remove(&key);
        i += 1;
    }
    proof {
        let kept = old(mapping)@.restrict(Set::new(|k: SequenceNumber| k >= bound));
        assert forall|k: SequenceNumber| mapping@.contains_key(k) implies k >= bound by {
            if k < bound {
                let j = choose|j: int| 0 <= j < dropped@.len() && dropped@[j] == k;
                assert(!mapping@.contains_key(dropped@[j]));
            }
        }
        assert(mapping@ =~= kept);
    }
}

impl TableMetaInner {
    /// The meta data of a table that nothing was written to.
    pub fn new() -> (inner: Self)
        ensures
            inner@ == TableMetaState::init(),
            inner@.well_formed(),
    {
        Self {
            next_sequence_num: MIN_SEQUENCE_NUMBER,
            latest_marked_deleted: MIN_SEQUENCE_NUMBER,
            current_high_watermark: 0,
            start_sequence_offset_mapping: BTreeMap::new(),
        }
    }

    /// The meta data that a snapshot entry stands for: of the mapping the
    /// snapshot kept the offset of the first live record only.
    pub fn from_meta_data(table_meta_data: &TableMetaData) -> (inner: Self)
        ensures
            inner@ == TableMetaState::from_meta_data(*table_meta_data),
    {
        let mut start_sequence_offset_mapping = BTreeMap::new();
        match table_meta_data.safe_delete_offset {
            Some(safe_delete_offset) => {
                start_sequence_offset_mapping.insert(
                    table_meta_data.latest_marked_deleted,
                    safe_delete_offset,
                );
            },
            None => {},
        }
        Self {
            next_sequence_num: table_meta_data.next_sequence_num,
            latest_marked_deleted: table_meta_data.latest_marked_deleted,
            current_high_watermark: table_meta_data.current_high_watermark,
            start_sequence_offset_mapping,
        }
    }

    /// Whether `get_meta_data` may be called.
    pub fn is_consistent(&self) -> (b: bool)
        ensures
            b == self@.is_consistent(),
    {
        if self.latest_marked_deleted > self.next_sequence_num {
            return false;
        }
        if self.next_sequence_num > self.latest_marked_deleted {
            return self.start_sequence_offset_mapping.contains_key(
                &self.latest_marked_deleted,
            );
        }
        true
    }

    /// The sequence number that the next write starts at.
    pub fn prepare_for_write(&self, table_id: TableId) -> (next: SequenceNumber)
        requires
            self@.is_consistent(),
        ensures
            next == self@.next_sequence_num,
    {
        self.get_meta_data(table_id).next_sequence_num
    }

    /// Records a write that took `write_offset_range` in the queue: the
    /// range starts at the next sequence number, which moves on by the length
    /// of the range, and the high watermark moves behind the range.
    pub fn update_after_write(&mut self, table_id: TableId, write_offset_range: OffsetRange) -> (r: Result<
        (),
        Error,
    >)
        ensures
            match old(self)@.write_failure(write_offset_range) {
                Some(reason) => r == Err::<(), Error>(
                    Error::UpdateAfterWrite { table_id: table_id, reason },
                ) && final(self)@ == old(self)@,
                None => r is Ok && final(self)@ == old(self)@.after_write(write_offset_range),
            },
            old(self)@.well_formed() ==> final(self)@.well_formed(),
    {
        if write_offset_range.start > write_offset_range.end {
            return Err(
                Error::UpdateAfterWrite {
                    table_id,
                    reason: UpdateFailure::InvalidRange,
                },
            );
        }
        let updated_num: i128 = write_offset_range.end as i128 - write_offset_range.start as i128
            + 1;
        let next_sequence_num: i128 = self.next_sequence_num as i128 + updated_num;
        if next_sequence_num > u64::MAX as i128 || write_offset_range.end == i64::MAX {
            return Err(
                Error::UpdateAfterWrite { table_id, reason: UpdateFailure::Overflow },
            );
        }
        let old_next_sequence_num = self.next_sequence_num;
        self.next_sequence_num = next_sequence_num as u64;
        self.start_sequence_offset_mapping.insert(
            old_next_sequence_num,
            write_offset_range.start,
        );
        self.current_high_watermark = write_offset_range.end + 1;
        proof {
            let before = old(self)@.start_sequence_offset_mapping;
            let after = self@.start_sequence_offset_mapping;
            assert(after == before.insert(old_next_sequence_num, write_offset_range.start));
            assert forall|k: SequenceNumber| #[trigger] after.contains_key(k) implies k
                == old_next_sequence_num || before.contains_key(k) by {}
            assert(after.contains_key(old_next_sequence_num));
            if before.contains_key(self.latest_marked_deleted) {
                assert(after.contains_key(self.latest_marked_deleted));
            }
        }
        Ok(())
    }

    /// Marks the records before `latest_marked_deleted` as deleted and
    /// forgets where they started. The sequence number may neither lie behind
    /// the next sequence number nor before the one that is marked already.
    pub fn mark_deleted(&mut self, table_id: TableId, latest_marked_deleted: SequenceNumber) -> (r: Result<(), Error>)
        ensures
            match old(self)@.delete_failure(latest_marked_deleted) {
                Some(reason) => r == Err::<(), Error>(
                    Error::MarkDeleted { table_id: table_id, reason },
                ) && final(self)@ == old(self)@,
                None => r is Ok && final(self)@ == old(self)@.after_delete(latest_marked_deleted),
            },
            old(self)@.well_formed() && (r is Err || latest_marked_deleted
                == old(self)@.next_sequence_num
                || old(self)@.start_sequence_offset_mapping.contains_key(latest_marked_deleted))
                ==> final(self)@.well_formed(),
    {
        if latest_marked_deleted > self.next_sequence_num {
            return Err(
                Error::MarkDeleted {
                    table_id,
                    reason: DeleteFailure::BeyondNextSequence,
                },
            );
        }
        if latest_marked_deleted < self.latest_marked_deleted {
            return Err(
                Error::MarkDeleted {
                    table_id,
                    reason: DeleteFailure::BeforeMarkedDeleted,
                },
            );
        }
        self.latest_marked_deleted = latest_marked_deleted;
        retain_from(&mut self.start_sequence_offset_mapping, latest_marked_deleted);
        proof {
            let before = old(self)@.start_sequence_offset_mapping;
            let after = self@.start_sequence_offset_mapping;
            assert forall|k: SequenceNumber| #[trigger] after.contains_key(k) implies before.contains_key(
                k,
            ) && k >= latest_marked_deleted by {}
            if before.contains_key(latest_marked_deleted) {
                assert(Set::new(|k: SequenceNumber| k >= latest_marked_deleted).contains(
                    latest_marked_deleted,
                ));
                assert(after.contains_key(latest_marked_deleted));
            }
        }
        Ok(())
    }

    /// What a snapshot tells of this table. While records are live, the
    /// offset of the first of them must be known.
    pub fn get_meta_data(&self, table_id: TableId) -> (data: TableMetaData)
        requires
            self@.is_consistent(),
        ensures
            data == self@.meta_data(table_id),
    {
        if self.next_sequence_num == self.latest_marked_deleted {
            TableMetaData {
                table_id,
                next_sequence_num: self.next_sequence_num,
                latest_marked_deleted: self.latest_marked_deleted,
                current_high_watermark: self.current_high_watermark,
                safe_delete_offset: None,
            }
        } else {
            let offset = self.start_sequence_offset_mapping.get(
                &self.latest_marked_deleted,
            );
            let safe_delete_offset = match offset {
                Some(offset) => Some(*offset),
                None => None,
            };
            TableMetaData {
                table_id,
                next_sequence_num: self.next_sequence_num,
                latest_marked_deleted: self.latest_marked_deleted,
                current_high_watermark: self.current_high_watermark,
                safe_delete_offset,
            }
        }
    }
}

/// One table of a region: its id and its meta data.
#[derive(Debug)]
pub struct TableMeta {
    table_id: TableId,
    inner: TableMetaInner,
}

impl View for TableMeta {
    type V = TableMetaState;

    closed spec fn view(&self) -> TableMetaState {
        self.inner@
    }
}

impl TableMeta {
    /// The id of the table.
    pub closed spec fn id(&self) -> TableId {
        self.table_id
    }

    /// A table that nothing was written to.
    pub fn new(table_id: TableId) -> (meta: Self)
        ensures
            meta.id() == table_id,
            meta@ == TableMetaState::init(),
    {
        Self { table_id, inner: TableMetaInner::new() }
    }

    /// The id of the table.
    pub fn table_id(&self) -> (id: TableId)
        ensures
            id == self.id(),
    {
        self.table_id
    }

    /// Whether `prepare_for_write` and `get_meta_data` may be called.
    pub fn is_consistent(&self) -> (b: bool)
        ensures
            b == self@.is_consistent(),
    {
        self.inner.is_consistent()
    }

    /// The sequence number that the next write starts at.
    pub fn prepare_for_write(&self) -> (next: SequenceNumber)
        requires
            self@.is_consistent(),
        ensures
            next == self@.next_sequence_num,
    {
        self.inner.prepare_for_write(self.table_id)
    }

    /// Records a write that took `write_offset_range` in the queue: see
    /// [`TableMetaInner::update_after_write`].
    pub fn update_after_write(&mut self, write_offset_range: OffsetRange) -> (r: Result<
        (),
        Error,
    >)
        ensures
            final(self).id() == old(self).id(),
            match old(self)@.write_failure(write_offset_range) {
                Some(reason) => r == Err::<(), Error>(
                    Error::UpdateAfterWrite { table_id: old(self).id(), reason },
                ) && final(self)@ == old(self)@,
                None => r is Ok && final(self)@ == old(self)@.after_write(write_offset_range),
            },
    {
        self.inner.update_after_write(self.table_id, write_offset_range)
    }

    /// Marks the records before `latest_marked_deleted` as deleted: see
    /// [`TableMetaInner::mark_deleted`].
    pub fn mark_deleted(&mut self, latest_marked_deleted: SequenceNumber) -> (r: Result<(), Error>)
        ensures
            final(self).id() == old(self).id(),
            match old(self)@.delete_failure(latest_marked_deleted) {
                Some(reason) => r == Err::<(), Error>(
                    Error::MarkDeleted { table_id: old(self).id(), reason },
                ) && final(self)@ == old(self)@,
                None => r is Ok && final(self)@ == old(self)@.after_delete(latest_marked_deleted),
            },
    {
        self.inner.mark_deleted(self.table_id, latest_marked_deleted)
    }

    /// What a snapshot tells of this table.
    pub fn get_meta_data(&self) -> (data: TableMetaData)
        requires
            self@.is_consistent(),
        ensures
            data == self@.meta_data(self.id()),
    {
        self.inner.get_meta_data(self.table_id)
    }
}

/// The tables of a registry or of a builder, as the contracts speak of them.
pub type Tables = Map<TableId, TableMetaState>;

/// Whether a snapshot may be taken of `tables`: every table is consistent.
pub open spec fn all_consistent(tables: Tables) -> bool {
    forall|id: TableId| #[trigger] tables.contains_key(id) ==> tables[id].is_consistent()
}

/// Whether every table of `tables` is well formed.
pub open spec fn all_well_formed(tables: Tables) -> bool {
    forall|id: TableId| #[trigger] tables.contains_key(id) ==> tables[id].well_formed()
}

/// Whether `entries` is a snapshot of `tables`: one entry for every table,
/// in any order, that tells what the table holds.
pub open spec fn is_snapshot_of(entries: Seq<TableMetaData>, tables: Tables) -> bool {
    &&& entries.len() == tables.dom().len()
    &&& forall|i: int|
        0 <= i < entries.len() ==> tables.contains_key((#[trigger] entries[i]).table_id)
            && entries[i] == tables[entries[i].table_id].meta_data(entries[i].table_id)
    &&& forall|i: int, j: int|
        0 <= i < j < entries.len() ==> (#[trigger] entries[i]).table_id != (
        #[trigger] entries[j]).table_id
    &&& forall|id: TableId| #[trigger]
        tables.contains_key(id) ==> exists|i: int|
            0 <= i < entries.len() && (#[trigger] entries[i]).table_id == id
}

/// The tables after a write to `table_id` that took `range` in the queue.
pub open spec fn tables_after_write(tables: Tables, table_id: TableId, range: OffsetRange) -> Tables {
    tables.insert(table_id, tables[table_id].after_write(range))
}

/// Why a write to `table_id` cannot be recorded, if it cannot.
pub open spec fn tables_write_failure(tables: Tables, table_id: TableId, range: OffsetRange) -> Option<
    UpdateFailure,
> {
    if range.start > range.end {
        Some(UpdateFailure::InvalidRange)
    } else if !tables.contains_key(table_id) {
        Some(UpdateFailure::TableNotFound)
    } else {
        tables[table_id].write_failure(range)
    }
}

/// Why a sequence number of `table_id` cannot be marked deleted, if it cannot.
pub open spec fn tables_delete_failure(
    tables: Tables,
    table_id: TableId,
    sequence_num: SequenceNumber,
) -> Option<DeleteFailure> {
    if !tables.contains_key(table_id) {
        Some(DeleteFailure::TableNotFound)
    } else {
        tables[table_id].delete_failure(sequence_num)
    }
}

/// The tables after the records of `table_id` before `sequence_num` were
/// marked deleted.
pub open spec fn tables_after_delete(
    tables: Tables,
    table_id: TableId,
    sequence_num: SequenceNumber,
) -> Tables {
    tables.insert(table_id, tables[table_id].after_delete(sequence_num))
}

/// The tables after `table_id` was prepared for a write: a table that is
/// not known yet is created.
pub open spec fn tables_after_prepare(tables: Tables, table_id: TableId) -> Tables {
    if tables.contains_key(table_id) {
        tables
    } else {
        tables.insert(table_id, TableMetaState::init())
    }
}

/// The view of a map of tables.
pub open spec fn tables_of(table_metas: Map<TableId, TableMetaInner>) -> Tables {
    Map::new(|id: TableId| table_metas.contains_key(id), |id: TableId| table_metas[id]@)
}

/// The meta data of the tables of a region. A registry starts empty or comes
/// from a [`RegionMetaBuilder`].
#[derive(Debug)]
pub struct RegionMeta {
    table_metas: HashMap<TableId, TableMetaInner>,
}

impl View for RegionMeta {
    type V = Tables;

    closed spec fn view(&self) -> Tables {
        tables_of(self.table_metas@)
    }
}

impl Default for RegionMeta {
    fn default() -> (meta: Self)
        ensures
            meta@ == Tables::empty(),
    {
        let meta = Self { table_metas: HashMap::new() };
        proof {
            assert(meta@ =~= Tables::empty());
        }
        meta
    }
}

impl RegionMeta {
    /// Whether a snapshot may be taken: see [`TableMeta::is_consistent`].
    pub fn is_consistent(&self) -> (b: bool)
        ensures
            b == all_consistent(self@),
    {
        let keys = self.table_metas.keys();
        let ghost all: Seq<TableId> = keys.remaining().unref();
        let ghost n: int = 0;
        assert(all.to_set() == self.table_metas@.dom());
        for table_id in it: keys
            invariant
                it.seq().unref() == all,
                n == it.index(),
                all.to_set() == self.table_metas@.dom(),
                forall|j: int| 0 <= j < n ==> self@[#[trigger] all[j]].is_consistent(),
        {
            assert(all[n] == *table_id);
            assert(all.to_set().contains(*table_id));
            match self.table_metas.get(table_id) {
                Some(table_meta) => {
                    if !table_meta.is_consistent() {
                        assert(self@.contains_key(*table_id));
                        return false;
                    }
                },
                None => {},
            }
            proof {
                n = n + 1;
            }
        }
        assert(n == all.len());
        assert forall|id: TableId| #[trigger] self@.contains_key(id) implies self@[id].is_consistent() by {
            assert(all.to_set().contains(id));
            let j = choose|j: int| 0 <= j < all.len() && all[j] == id;
            assert(self@[all[j]].is_consistent());
        }
        true
    }

    /// Whether what the registry holds of `table_id` may be read: a table
    /// that the registry does not know is no hindrance.
    pub fn is_table_consistent(&self, table_id: TableId) -> (b: bool)
        ensures
            b == (self@.contains_key(table_id) ==> self@[table_id].is_consistent()),
    {
        match self.table_metas.get(&table_id) {
            Some(table_meta) => table_meta.is_consistent(),
            None => true,
        }
    }

    /// The sequence number that the next write to `table_id` starts at. A
    /// table that the registry does not know yet is created, and starts at
    /// the smallest sequence number.
    pub fn prepare_for_table_write(&mut self, table_id: TableId) -> (next: SequenceNumber)
        requires
            old(self)@.contains_key(table_id) ==> old(self)@[table_id].is_consistent(),
        ensures
            final(self)@ == tables_after_prepare(old(self)@, table_id),
            next == final(self)@[table_id].next_sequence_num,
    {
        match self.table_metas.get(&table_id) {
            Some(table_meta) => {
                return table_meta.prepare_for_write(table_id);
            },
            None => {},
        }
        self.table_metas.insert(table_id, TableMetaInner::new());
        proof {
            assert(self@ =~= tables_after_prepare(old(self)@, table_id));
        }
        MIN_SEQUENCE_NUMBER
    }

    /// Records a write to `table_id` that took `write_offset_range` in the
    /// queue: the start of the range is filed under the table's next sequence
    /// number, which moves on by the length of the range, and the high
    /// watermark moves behind the range.
    pub fn update_after_table_write(
        &mut self,
        table_id: TableId,
        write_offset_range: OffsetRange,
    ) -> (r: Result<(), Error>)
        ensures
            match tables_write_failure(old(self)@, table_id, write_offset_range) {
                Some(reason) => r == Err::<(), Error>(Error::UpdateAfterWrite { table_id, reason })
                    && final(self)@ == old(self)@,
                None => r is Ok && final(self)@ == tables_after_write(
                    old(self)@,
                    table_id,
                    write_offset_range,
                ),
            },
            all_well_formed(old(self)@) ==> all_well_formed(final(self)@),
    {
        if write_offset_range.start > write_offset_range.end {
            return Err(
                Error::UpdateAfterWrite { table_id, reason: UpdateFailure::InvalidRange },
            );
        }
        match self.table_metas.remove(&table_id) {
            Some(table_meta) => {
                let mut table_meta = table_meta;
                let res = table_meta.update_after_write(table_id, write_offset_range);
                self.table_metas.insert(table_id, table_meta);
                proof {
                    if res is Ok {
                        assert(self@ =~= tables_after_write(
                            old(self)@,
                            table_id,
                            write_offset_range,
                        ));
                    } else {
                        assert(self@ =~= old(self)@);
                    }
                }
                res
            },
            None => {
                proof {
                    assert(self@ =~= old(self)@);
                }
                Err(Error::UpdateAfterWrite { table_id, reason: UpdateFailure::TableNotFound })
            },
        }
    }

    /// Marks the records of `table_id` before `sequence_num` as deleted. The
    /// sequence number may neither lie behind the table's next sequence
    /// number nor before the one that is marked already.
    pub fn mark_table_deleted(&mut self, table_id: TableId, sequence_num: SequenceNumber) -> (r:
        Result<(), Error>)
        ensures
            match tables_delete_failure(old(self)@, table_id, sequence_num) {
                Some(reason) => r == Err::<(), Error>(Error::MarkDeleted { table_id, reason })
                    && final(self)@ == old(self)@,
                None => r is Ok && final(self)@ == tables_after_delete(
                    old(self)@,
                    table_id,
                    sequence_num,
                ),
            },
            all_well_formed(old(self)@) && (r is Err || sequence_num
                == old(self)@[table_id].next_sequence_num
                || old(self)@[table_id].start_sequence_offset_mapping.contains_key(sequence_num))
                ==> all_well_formed(final(self)@),
    {
        match self.table_metas.remove(&table_id) {
            Some(table_meta) => {
                let mut table_meta = table_meta;
                let res = table_meta.mark_deleted(table_id, sequence_num);
                self.table_metas.insert(table_id, table_meta);
                proof {
                    if res is Ok {
                        assert(self@ =~= tables_after_delete(old(self)@, table_id, sequence_num));
                    } else {
                        assert(self@ =~= old(self)@);
                    }
                }
                res
            },
            None => {
                proof {
                    assert(self@ =~= old(self)@);
                }
                Err(Error::MarkDeleted { table_id, reason: DeleteFailure::TableNotFound })
            },
        }
    }

    /// What the registry holds of every table, in no particular order.
    /// Whoever shares the registry keeps writers out meanwhile.
    pub fn make_snapshot(&self) -> (snapshot: RegionMetaSnapshot)
        requires
            all_consistent(self@),
        ensures
            is_snapshot_of(snapshot.entries@, self@),
    {
        let mut entries: Vec<TableMetaData> = Vec::with_capacity(self.table_metas.len());
        let keys = self.table_metas.keys();
        let ghost all: Seq<TableId> = keys.remaining().unref();
        let ghost n: int = 0;
        assert(all.to_set() == self.table_metas@.dom());
        assert(all.no_duplicates());
        assert(all.len() == self.table_metas@.dom().len());
        for table_id in it: keys
            invariant
                it.seq().unref() == all,
                n == it.index(),
                all.to_set() == self.table_metas@.dom(),
                all_consistent(self@),
                entries@.len() == n,
                forall|j: int|
                    0 <= j < n ==> (#[trigger] entries@[j]) == self@[all[j]].meta_data(all[j]),
        {
            assert(all[n] == *table_id);
            assert(all.to_set().contains(*table_id));
            match self.table_metas.get(table_id) {
                Some(table_meta) => {
                    assert(self@.contains_key(*table_id));
                    let meta_data = table_meta.get_meta_data(*table_id);
                    entries.push(meta_data);
                },
                None => {},
            }
            proof {
                n = n + 1;
            }
        }
        proof {
            assert(n == all.len());
            assert(self@.dom() =~= self.table_metas@.dom());
            assert forall|i: int| 0 <= i < entries@.len() implies self@.contains_key(
                (#[trigger] entries@[i]).table_id,
            ) && entries@[i] == self@[entries@[i].table_id].meta_data(entries@[i].table_id) by {
                assert(all.to_set().contains(all[i]));
            }
            assert forall|id: TableId| #[trigger] self@.contains_key(id) implies exists|i: int|
                0 <= i < entries@.len() && (#[trigger] entries@[i]).table_id == id by {
                assert(all.to_set().contains(id));
                let j = choose|j: int| 0 <= j < all.len() && all[j] == id;
                assert(entries@[j].table_id == id);
            }
        }
        RegionMetaSnapshot { entries }
    }

    /// What the registry holds of `table_id`.
    pub fn get_table_meta_data(&self, table_id: TableId) -> (r: Result<TableMetaData, Error>)
        requires
            self@.contains_key(table_id) ==> self@[table_id].is_consistent(),
        ensures
            r == (if self@.contains_key(table_id) {
                Ok::<TableMetaData, Error>(self@[table_id].meta_data(table_id))
            } else {
                Err::<TableMetaData, Error>(Error::GetTableMeta { table_id })
            }),
    {
        match self.table_metas.get(&table_id) {
            Some(table_meta) => Ok(table_meta.get_meta_data(table_id)),
            None => Err(Error::GetTableMeta { table_id }),
        }
    }
}

/// The tables after the entries of a snapshot were taken over, one by one
/// and each in place of what was known of its table.
pub open spec fn tables_with_entries(tables: Tables, entries: Seq<TableMetaData>) -> Tables
    decreases entries.len(),
{
    if entries.len() == 0 {
        tables
    } else {
        tables_with_entries(tables, entries.drop_last()).insert(
            entries.last().table_id,
            TableMetaState::from_meta_data(entries.last()),
        )
    }
}

/// Whether the table of entry `i` is known already when the turn of the
/// entry comes.
pub open spec fn is_duplicated_at(tables: Tables, entries: Seq<TableMetaData>, i: int) -> bool {
    tables_with_entries(tables, entries.take(i)).contains_key(entries[i].table_id)
}

/// The table that a delta is applied to: a table that is not known yet
/// starts as one that nothing was written to.
pub open spec fn delta_table(tables: Tables, delta: RegionMetaDelta) -> TableMetaState {
    if tables.contains_key(delta.table_id) {
        tables[delta.table_id]
    } else {
        TableMetaState::init()
    }
}

/// Why a delta cannot be applied, if it cannot: a delta must lie behind what
/// is known of its table, in its sequence number and in its offset.
pub open spec fn delta_failure(tables: Tables, delta: RegionMetaDelta) -> Option<BuildFailure> {
    let table = delta_table(tables, delta);
    if !table.delta_advances_sequence(delta) {
        Some(BuildFailure::SequenceNotAdvanced)
    } else if !table.delta_advances_offset(delta) {
        Some(BuildFailure::HighWatermarkNotAdvanced)
    } else {
        None
    }
}

/// The tables after a delta was handed in. A delta that is refused for its
/// offset has moved the sequence number of its table already.
pub open spec fn tables_after_delta(tables: Tables, delta: RegionMetaDelta) -> Tables {
    let table = delta_table(tables, delta);
    tables.insert(
        delta.table_id,
        if !table.delta_advances_sequence(delta) {
            table
        } else if !table.delta_advances_offset(delta) {
            table.with_delta_sequence(delta)
        } else {
            table.after_delta(delta)
        },
    )
}

/// Rebuilds a [`RegionMeta`] from a snapshot and the deltas behind it.
#[derive(Debug)]
pub struct RegionMetaBuilder {
    table_metas: HashMap<TableId, TableMetaInner>,
}

impl View for RegionMetaBuilder {
    type V = Tables;

    closed spec fn view(&self) -> Tables {
        tables_of(self.table_metas@)
    }
}

impl Default for RegionMetaBuilder {
    fn default() -> (builder: Self)
        ensures
            builder@ == Tables::empty(),
    {
        let builder = Self { table_metas: HashMap::new() };
        proof {
            assert(builder@ =~= Tables::empty());
        }
        builder
    }
}

impl RegionMetaBuilder {
    /// Takes over the entries of a snapshot in their order. An entry whose
    /// table the builder knows already, from before or from an earlier entry,
    /// ends the call with `Build`; that entry has then replaced what was known
    /// of the table, and the entries behind it are not looked at.
    pub fn apply_region_meta_snapshot(&mut self, snapshot: RegionMetaSnapshot) -> (r: Result<
        (),
        Error,
    >)
        ensures
            match r {
                Ok(()) => {
                    &&& final(self)@ == tables_with_entries(old(self)@, snapshot.entries@)
                    &&& forall|i: int|
                        0 <= i < snapshot.entries@.len() ==> !is_duplicated_at(
                            old(self)@,
                            snapshot.entries@,
                            i,
                        )
                },
                Err(e) => exists|i: int|
                    {
                        &&& 0 <= i < snapshot.entries@.len()
                        &&& #[trigger] is_duplicated_at(old(self)@, snapshot.entries@, i)
                        &&& forall|j: int|
                            0 <= j < i ==> !is_duplicated_at(old(self)@, snapshot.entries@, j)
                        &&& e == (Error::Build {
                            table_id: snapshot.entries@[i].table_id,
                            reason: BuildFailure::DuplicatedEntry,
                        })
                        &&& final(self)@ == tables_with_entries(
                            old(self)@,
                            snapshot.entries@.take(i + 1),
                        )
                    },
            },
    {
        let ghost entries = snapshot.entries@;
        let mut i: usize = 0;
        proof {
            assert(entries.take(0) =~= Seq::<TableMetaData>::empty());
        }
        while i < snapshot.entries.len()
            invariant
                i <= entries.len(),
                entries == snapshot.entries@,
                self@ == tables_with_entries(old(self)@, entries.take(i as int)),
                forall|j: int| 0 <= j < i ==> !is_duplicated_at(old(self)@, entries, j),
            decreases entries.len() - i,
        {
            let entry = snapshot.entries[i];
            let ghost before = self@;
            let old_meta = self.table_metas.insert(
                entry.table_id,
                TableMetaInner::from_meta_data(&entry),
            );
            proof {
                let taken = entries.take(i + 1);
                assert(taken.drop_last() =~= entries.take(i as int));
                assert(taken.last() == entry);
                assert(self@ =~= before.insert(
                    entry.table_id,
                    TableMetaState::from_meta_data(entry),
                ));
                assert(self@ == tables_with_entries(old(self)@, taken));
            }
            if old_meta.is_some() {
                proof {
                    assert(before.contains_key(entry.table_id));
                    assert(is_duplicated_at(old(self)@, entries, i as int));
                }
                return Err(
                    Error::Build {
                        table_id: entry.table_id,
                        reason: BuildFailure::DuplicatedEntry,
                    },
                );
            }
            proof {
                assert(!before.contains_key(entry.table_id));
            }
            i += 1;
        }
        proof {
            assert(entries.take(entries.len() as int) =~= entries);
        }
        Ok(())
    }

    /// Applies one record that was written after the snapshot. A table that
    /// the builder does not know yet is created first. The delta must lie
    /// behind what is known of the table, in its sequence number and in its
    /// offset; if it does, the table's next sequence number and high
    /// watermark move behind the delta, and the delta's offset is filed under
    /// its sequence number.
    pub fn apply_region_meta_delta(&mut self, delta: RegionMetaDelta) -> (r: Result<(), Error>)
        ensures
            final(self)@ == tables_after_delta(old(self)@, delta),
            r == (match delta_failure(old(self)@, delta) {
                Some(reason) => Err::<(), Error>(
                    Error::Build { table_id: delta.table_id, reason },
                ),
                None => Ok::<(), Error>(()),
            }),
    {
        let mut table_meta = match self.table_metas.remove(&delta.table_id) {
            Some(table_meta) => table_meta,
            None => TableMetaInner::new(),
        };
        assert(table_meta@ == delta_table(old(self)@, delta));
        if delta.sequence_num == u64::MAX || table_meta.next_sequence_num > delta.sequence_num {
            self.table_metas.insert(delta.table_id, table_meta);
            proof {
                assert(self@ =~= tables_after_delta(old(self)@, delta));
            }
            return Err(
                Error::Build {
                    table_id: delta.table_id,
                    reason: BuildFailure::SequenceNotAdvanced,
                },
            );
        }
        table_meta.next_sequence_num = delta.sequence_num + 1;
        if delta.offset == i64::MAX || table_meta.current_high_watermark > delta.offset {
            self.table_metas.insert(delta.table_id, table_meta);
            proof {
                assert(self@ =~= tables_after_delta(old(self)@, delta));
            }
            return Err(
                Error::Build {
                    table_id: delta.table_id,
                    reason: BuildFailure::HighWatermarkNotAdvanced,
                },
            );
        }
        table_meta.current_high_watermark = delta.offset + 1;
        table_meta.start_sequence_offset_mapping.insert(delta.sequence_num, delta.offset);
        self.table_metas.insert(delta.table_id, table_meta);
        proof {
            assert(self@ =~= tables_after_delta(old(self)@, delta));
        }
        Ok(())
    }

    /// The registry that holds what the builder has gathered.
    pub fn build(self) -> (meta: RegionMeta)
        ensures
            meta@ == self@,
    {
        RegionMeta { table_metas: self.table_metas }
    }
}

} // verus!
