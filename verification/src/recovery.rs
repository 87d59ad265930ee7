//! That a registry comes back from a snapshot and the writes behind it.
//!
//! A registry is frozen into a snapshot, and goes on taking writes; every
//! record of every write is a delta. The lemmas of this module show that a
//! builder which is given the snapshot and then the deltas, in their order,
//! accepts all of them and ends up telling of every table what the registry
//! tells of it.

use vstd::prelude::*;

use crate::region_meta::{
    all_well_formed, delta_failure, delta_table, is_duplicated_at, is_snapshot_of,
    tables_after_delta, tables_after_prepare, tables_after_write, tables_with_entries,
    tables_write_failure, OffsetRange, RegionMetaDelta, TableMetaData, TableMetaState, Tables,
};
use crate::{SequenceNumber, TableId};

verus! {

/// A write as the registry is told of it: the table is prepared, and then
/// updated with the offsets that the write took in the queue.
pub struct TableWrite {
    pub table_id: TableId,
    pub range: OffsetRange,
}

/// The deltas of one write, one for every record and in the order of the
/// records: record `i` has the sequence number `next + i` and lies at the
/// offset `range.start + i`.
pub open spec fn write_deltas(table_id: TableId, next: SequenceNumber, range: OffsetRange) -> Seq<
    RegionMetaDelta,
> {
    Seq::new(
        range.count() as nat,
        |i: int|
            RegionMetaDelta {
                table_id,
                sequence_num: (next + i) as u64,
                offset: (range.start + i) as i64,
            },
    )
}

/// The tables of a builder after `deltas` were handed in, in their order.
pub open spec fn tables_after_deltas(tables: Tables, deltas: Seq<RegionMetaDelta>) -> Tables
    decreases deltas.len(),
{
    if deltas.len() == 0 {
        tables
    } else {
        tables_after_delta(tables_after_deltas(tables, deltas.drop_last()), deltas.last())
    }
}

/// Whether a builder accepts every one of `deltas`, handed in in their order.
pub open spec fn deltas_apply(tables: Tables, deltas: Seq<RegionMetaDelta>) -> bool
    decreases deltas.len(),
{
    deltas.len() == 0 || (deltas_apply(tables, deltas.drop_last()) && delta_failure(
        tables_after_deltas(tables, deltas.drop_last()),
        deltas.last(),
    ) is None)
}

/// The tables of a registry after `writes`, in their order.
pub open spec fn tables_after_writes(tables: Tables, writes: Seq<TableWrite>) -> Tables
    decreases writes.len(),
{
    if writes.len() == 0 {
        tables
    } else {
        let write = writes.last();
        tables_after_write(
            tables_after_prepare(tables_after_writes(tables, writes.drop_last()), write.table_id),
            write.table_id,
            write.range,
        )
    }
}

/// Whether the registry records every one of `writes`, and every write lies
/// behind the high watermark of its table, as writes to a queue do.
pub open spec fn writes_advance(tables: Tables, writes: Seq<TableWrite>) -> bool
    decreases writes.len(),
{
    writes.len() == 0 || {
        let write = writes.last();
        let prepared = tables_after_prepare(
            tables_after_writes(tables, writes.drop_last()),
            write.table_id,
        );
        &&& writes_advance(tables, writes.drop_last())
        &&& tables_write_failure(prepared, write.table_id, write.range) is None
        &&& prepared[write.table_id].current_high_watermark <= write.range.start
    }
}

/// The deltas of `writes`, in the order of the writes.
pub open spec fn deltas_of_writes(tables: Tables, writes: Seq<TableWrite>) -> Seq<RegionMetaDelta>
    decreases writes.len(),
{
    if writes.len() == 0 {
        Seq::empty()
    } else {
        let write = writes.last();
        let prepared = tables_after_prepare(
            tables_after_writes(tables, writes.drop_last()),
            write.table_id,
        );
        deltas_of_writes(tables, writes.drop_last()) + write_deltas(
            write.table_id,
            prepared[write.table_id].next_sequence_num,
            write.range,
        )
    }
}

/// Whether two sets of tables tell the same of every table: they hold the
/// same tables, and a snapshot of the one says of a table what a snapshot of
/// the other says.
pub open spec fn same_meta_data(registry: Tables, rebuilt: Tables) -> bool {
    &&& forall|id: TableId| registry.contains_key(id) <==> rebuilt.contains_key(id)
    &&& forall|id: TableId| #[trigger]
        registry.contains_key(id) ==> registry[id].meta_data(id) == rebuilt[id].meta_data(id)
}

/// Whether `rebuilt` stands for `registry` in a builder: it tells the same,
/// and it files nothing at or behind the next sequence number, where deltas
/// are filed.
pub open spec fn table_recovered(registry: TableMetaState, rebuilt: TableMetaState) -> bool {
    &&& rebuilt.next_sequence_num == registry.next_sequence_num
    &&& rebuilt.latest_marked_deleted == registry.latest_marked_deleted
    &&& rebuilt.current_high_watermark == registry.current_high_watermark
    &&& rebuilt.safe_delete_offset() == registry.safe_delete_offset()
    &&& forall|k: SequenceNumber| #[trigger]
        rebuilt.start_sequence_offset_mapping.contains_key(k) ==> k < rebuilt.next_sequence_num
}

/// Whether every table of `rebuilt` stands for the table of `registry`.
pub open spec fn tables_recovered(registry: Tables, rebuilt: Tables) -> bool {
    &&& forall|id: TableId| registry.contains_key(id) <==> rebuilt.contains_key(id)
    &&& forall|id: TableId| #[trigger]
        registry.contains_key(id) ==> table_recovered(registry[id], rebuilt[id])
}

/// A write that the table records keeps the table well formed.
pub proof fn lemma_write_keeps_well_formed(table: TableMetaState, range: OffsetRange)
    requires
        table.well_formed(),
        table.write_failure(range) is None,
    ensures
        table.after_write(range).well_formed(),
{
    let after = table.after_write(range).start_sequence_offset_mapping;
    assert forall|k: SequenceNumber| #[trigger] after.contains_key(k) implies k
        == table.next_sequence_num || table.start_sequence_offset_mapping.contains_key(k) by {}
    assert(after.contains_key(table.next_sequence_num));
}

/// Marking a sequence number that the table accepts, and that is the next
/// sequence number or the start of a batch, keeps the table well formed.
pub proof fn lemma_delete_keeps_well_formed(table: TableMetaState, sequence_num: SequenceNumber)
    requires
        table.well_formed(),
        table.delete_failure(sequence_num) is None,
        sequence_num == table.next_sequence_num
            || table.start_sequence_offset_mapping.contains_key(sequence_num),
    ensures
        table.after_delete(sequence_num).well_formed(),
{
    let after = table.after_delete(sequence_num).start_sequence_offset_mapping;
    assert forall|k: SequenceNumber| #[trigger] after.contains_key(k) implies k >= sequence_num
        && table.start_sequence_offset_mapping.contains_key(k) by {}
    if table.start_sequence_offset_mapping.contains_key(sequence_num) {
        assert(Set::new(|k: SequenceNumber| k >= sequence_num).contains(sequence_num));
        assert(after.contains_key(sequence_num));
    }
}

/// A well-formed table with nothing live files nothing, and tells of no
/// safe offset.
pub proof fn lemma_nothing_live(table: TableMetaState)
    requires
        table.well_formed(),
        table.next_sequence_num == table.latest_marked_deleted,
    ensures
        table.safe_delete_offset() is None,
        table.start_sequence_offset_mapping =~= Map::empty(),
{
}

/// The table that a snapshot entry of a well-formed table stands for
/// stands for the table.
pub proof fn lemma_entry_recovers_table(table: TableMetaState, table_id: TableId)
    requires
        table.well_formed(),
    ensures
        table_recovered(table, TableMetaState::from_meta_data(table.meta_data(table_id))),
{
}

/// What a builder that started empty holds after the first `n` entries of
/// a snapshot: the tables of those entries, each as its entry tells.
proof fn lemma_entries_taken(tables: Tables, entries: Seq<TableMetaData>, n: int)
    requires
        is_snapshot_of(entries, tables),
        0 <= n <= entries.len(),
    ensures
        forall|id: TableId|
            tables_with_entries(Tables::empty(), entries.take(n)).contains_key(id) <==> exists|
                j: int,
            |
                0 <= j < n && (#[trigger] entries[j]).table_id == id,
        forall|j: int|
            0 <= j < n ==> tables_with_entries(Tables::empty(), entries.take(n))[(
            #[trigger] entries[j]).table_id] == TableMetaState::from_meta_data(entries[j]),
        forall|i: int| 0 <= i < n ==> !is_duplicated_at(Tables::empty(), entries, i),
    decreases n,
{
    let taken = entries.take(n);
    if n == 0 {
        assert(taken =~= Seq::<TableMetaData>::empty());
    } else {
        lemma_entries_taken(tables, entries, n - 1);
        assert(taken.drop_last() =~= entries.take(n - 1));
        assert(taken.last() == entries[n - 1]);
        let before = tables_with_entries(Tables::empty(), entries.take(n - 1));
        let after = tables_with_entries(Tables::empty(), taken);
        assert(after == before.insert(
            entries[n - 1].table_id,
            TableMetaState::from_meta_data(entries[n - 1]),
        ));
        assert(!before.contains_key(entries[n - 1].table_id)) by {
            if before.contains_key(entries[n - 1].table_id) {
                let j = choose|j: int|
                    0 <= j < n - 1 && (#[trigger] entries[j]).table_id == entries[n - 1].table_id;
                assert(entries[j].table_id != entries[n - 1].table_id);
            }
        }
        assert(!is_duplicated_at(Tables::empty(), entries, n - 1));
        assert forall|id: TableId| after.contains_key(id) <==> exists|j: int|
            0 <= j < n && (#[trigger] entries[j]).table_id == id by {
            if after.contains_key(id) {
                if id == entries[n - 1].table_id {
                    assert(entries[n - 1].table_id == id);
                } else {
                    assert(before.contains_key(id));
                    let j = choose|j: int| 0 <= j < n - 1 && (#[trigger] entries[j]).table_id == id;
                    assert(0 <= j < n && entries[j].table_id == id);
                }
            }
            if exists|j: int| 0 <= j < n && (#[trigger] entries[j]).table_id == id {
                let j = choose|j: int| 0 <= j < n && (#[trigger] entries[j]).table_id == id;
                if j < n - 1 {
                    assert(before.contains_key(id));
                }
            }
        }
        assert forall|j: int| 0 <= j < n implies after[(#[trigger] entries[j]).table_id]
            == TableMetaState::from_meta_data(entries[j]) by {
            if j < n - 1 {
                assert(entries[j].table_id != entries[n - 1].table_id);
            }
        }
    }
}

/// A builder that starts empty accepts a snapshot of well-formed tables, and
/// then holds a table for every table of the snapshot that stands for it.
pub proof fn lemma_snapshot_recovers(tables: Tables, entries: Seq<TableMetaData>)
    requires
        all_well_formed(tables),
        is_snapshot_of(entries, tables),
    ensures
        forall|i: int| 0 <= i < entries.len() ==> !is_duplicated_at(Tables::empty(), entries, i),
        tables_recovered(tables, tables_with_entries(Tables::empty(), entries)),
{
    lemma_entries_taken(tables, entries, entries.len() as int);
    assert(entries.take(entries.len() as int) =~= entries);
    let rebuilt = tables_with_entries(Tables::empty(), entries);
    assert forall|id: TableId| tables.contains_key(id) <==> rebuilt.contains_key(id) by {
        if tables.contains_key(id) {
            let i = choose|i: int| 0 <= i < entries.len() && (#[trigger] entries[i]).table_id == id;
            assert(rebuilt.contains_key(id));
        }
        if rebuilt.contains_key(id) {
            let j = choose|j: int| 0 <= j < entries.len() && (#[trigger] entries[j]).table_id == id;
            assert(tables.contains_key(entries[j].table_id));
        }
    }
    assert forall|id: TableId| #[trigger] tables.contains_key(id) implies table_recovered(
        tables[id],
        rebuilt[id],
    ) by {
        let i = choose|i: int| 0 <= i < entries.len() && (#[trigger] entries[i]).table_id == id;
        assert(rebuilt[entries[i].table_id] == TableMetaState::from_meta_data(entries[i]));
        assert(entries[i] == tables[id].meta_data(id));
        lemma_entry_recovers_table(tables[id], id);
    }
}

/// The table of a builder after the first `n` deltas of a write.
pub open spec fn table_after_records(
    rebuilt: TableMetaState,
    next: SequenceNumber,
    range: OffsetRange,
    n: int,
) -> TableMetaState {
    TableMetaState {
        next_sequence_num: (next + n) as u64,
        latest_marked_deleted: rebuilt.latest_marked_deleted,
        current_high_watermark: if n == 0 {
            rebuilt.current_high_watermark
        } else {
            (range.start + n) as i64
        },
        start_sequence_offset_mapping: Map::new(
            |k: SequenceNumber|
                rebuilt.start_sequence_offset_mapping.contains_key(k) || next <= k < next + n,
            |k: SequenceNumber|
                if next <= k < next + n {
                    (range.start + (k - next)) as i64
                } else {
                    rebuilt.start_sequence_offset_mapping[k]
                },
        ),
    }
}

/// A builder accepts the first `n` deltas of a write that the registry
/// recorded, and files them in the table of the write.
proof fn lemma_records_apply(
    rebuilt_tables: Tables,
    registry: TableMetaState,
    table_id: TableId,
    range: OffsetRange,
    n: int,
)
    requires
        registry.write_failure(range) is None,
        registry.current_high_watermark <= range.start,
        table_recovered(
            registry,
            delta_table(
                rebuilt_tables,
                RegionMetaDelta { table_id, sequence_num: 0, offset: 0 },
            ),
        ),
        0 <= n <= range.count(),
    ensures
        deltas_apply(
            rebuilt_tables,
            write_deltas(table_id, registry.next_sequence_num, range).take(n),
        ),
        tables_after_deltas(
            rebuilt_tables,
            write_deltas(table_id, registry.next_sequence_num, range).take(n),
        ) == (if n == 0 {
            rebuilt_tables
        } else {
            rebuilt_tables.insert(
                table_id,
                table_after_records(
                    delta_table(
                        rebuilt_tables,
                        RegionMetaDelta { table_id, sequence_num: 0, offset: 0 },
                    ),
                    registry.next_sequence_num,
                    range,
                    n,
                ),
            )
        }),
    decreases n,
{
    let next = registry.next_sequence_num;
    let deltas = write_deltas(table_id, next, range);
    let rebuilt = delta_table(
        rebuilt_tables,
        RegionMetaDelta { table_id, sequence_num: 0, offset: 0 },
    );
    let taken = deltas.take(n);
    if n == 0 {
        assert(taken =~= Seq::<RegionMetaDelta>::empty());
    } else {
        lemma_records_apply(rebuilt_tables, registry, table_id, range, n - 1);
        assert(taken.drop_last() =~= deltas.take(n - 1));
        let delta = deltas[n - 1];
        assert(taken.last() == delta);
        assert(delta.table_id == table_id);
        assert(delta.sequence_num == next + n - 1);
        assert(delta.offset == range.start + n - 1);
        let before = tables_after_deltas(rebuilt_tables, deltas.take(n - 1));
        let table = delta_table(before, delta);
        assert(table == table_after_records(rebuilt, next, range, n - 1)) by {
            if n - 1 == 0 {
                assert(table_after_records(rebuilt, next, range, 0).start_sequence_offset_mapping
                    =~= rebuilt.start_sequence_offset_mapping);
            }
        }
        assert(table.delta_advances_sequence(delta));
        assert(table.delta_advances_offset(delta));
        assert(table.after_delta(delta).start_sequence_offset_mapping =~= table_after_records(
            rebuilt,
            next,
            range,
            n,
        ).start_sequence_offset_mapping);
        assert(table.after_delta(delta) == table_after_records(rebuilt, next, range, n));
        assert(tables_after_delta(before, delta) =~= rebuilt_tables.insert(
            table_id,
            table_after_records(rebuilt, next, range, n),
        ));
    }
}

/// A builder accepts all deltas of a write that the registry recorded, and
/// its table then stands for the table of the registry after the write.
proof fn lemma_write_recovers(
    rebuilt_tables: Tables,
    registry: TableMetaState,
    table_id: TableId,
    range: OffsetRange,
)
    requires
        registry.well_formed(),
        registry.write_failure(range) is None,
        registry.current_high_watermark <= range.start,
        table_recovered(
            registry,
            delta_table(
                rebuilt_tables,
                RegionMetaDelta { table_id, sequence_num: 0, offset: 0 },
            ),
        ),
    ensures
        deltas_apply(rebuilt_tables, write_deltas(table_id, registry.next_sequence_num, range)),
        tables_after_deltas(
            rebuilt_tables,
            write_deltas(table_id, registry.next_sequence_num, range),
        ) == rebuilt_tables.insert(
            table_id,
            table_after_records(
                delta_table(
                    rebuilt_tables,
                    RegionMetaDelta { table_id, sequence_num: 0, offset: 0 },
                ),
                registry.next_sequence_num,
                range,
                range.count(),
            ),
        ),
        table_recovered(
            registry.after_write(range),
            table_after_records(
                delta_table(
                    rebuilt_tables,
                    RegionMetaDelta { table_id, sequence_num: 0, offset: 0 },
                ),
                registry.next_sequence_num,
                range,
                range.count(),
            ),
        ),
{
    let next = registry.next_sequence_num;
    let deltas = write_deltas(table_id, next, range);
    let rebuilt = delta_table(
        rebuilt_tables,
        RegionMetaDelta { table_id, sequence_num: 0, offset: 0 },
    );
    lemma_records_apply(rebuilt_tables, registry, table_id, range, range.count());
    assert(deltas.take(range.count()) =~= deltas);
    let after = table_after_records(rebuilt, next, range, range.count());
    let written = registry.after_write(range);
    let deleted = registry.latest_marked_deleted;
    assert(written.start_sequence_offset_mapping.contains_key(next));
    if next == deleted {
        assert(after.start_sequence_offset_mapping.contains_key(deleted));
    } else {
        assert(registry.start_sequence_offset_mapping.contains_key(deleted));
        assert(written.start_sequence_offset_mapping.contains_key(deleted));
        assert(rebuilt.safe_delete_offset() is Some);
        assert(rebuilt.start_sequence_offset_mapping.contains_key(deleted));
        assert(after.start_sequence_offset_mapping.contains_key(deleted));
    }
}

/// Handing in two runs of deltas one after the other is handing in the one
/// run that holds both.
pub proof fn lemma_deltas_concat(
    tables: Tables,
    first: Seq<RegionMetaDelta>,
    second: Seq<RegionMetaDelta>,
)
    ensures
        tables_after_deltas(tables, first + second) == tables_after_deltas(
            tables_after_deltas(tables, first),
            second,
        ),
        deltas_apply(tables, first + second) <==> (deltas_apply(tables, first) && deltas_apply(
            tables_after_deltas(tables, first),
            second,
        )),
    decreases second.len(),
{
    if second.len() == 0 {
        assert(first + second =~= first);
    } else {
        lemma_deltas_concat(tables, first, second.drop_last());
        assert((first + second).drop_last() =~= first + second.drop_last());
        assert((first + second).last() == second.last());
    }
}

/// The writes that a registry records keep its tables well formed, a
/// builder that holds tables which stand for those of the registry accepts
/// the deltas of the writes, and its tables stand for those of the registry
/// afterwards.
proof fn lemma_writes_recover(registry: Tables, rebuilt: Tables, writes: Seq<TableWrite>)
    requires
        all_well_formed(registry),
        tables_recovered(registry, rebuilt),
        writes_advance(registry, writes),
    ensures
        all_well_formed(tables_after_writes(registry, writes)),
        deltas_apply(rebuilt, deltas_of_writes(registry, writes)),
        tables_recovered(
            tables_after_writes(registry, writes),
            tables_after_deltas(rebuilt, deltas_of_writes(registry, writes)),
        ),
    decreases writes.len(),
{
    if writes.len() > 0 {
        let earlier = writes.drop_last();
        let write = writes.last();
        lemma_writes_recover(registry, rebuilt, earlier);
        let registry_before = tables_after_writes(registry, earlier);
        let rebuilt_before = tables_after_deltas(rebuilt, deltas_of_writes(registry, earlier));
        let prepared = tables_after_prepare(registry_before, write.table_id);
        let table = prepared[write.table_id];
        let deltas = write_deltas(write.table_id, table.next_sequence_num, write.range);
        let seen = delta_table(
            rebuilt_before,
            RegionMetaDelta { table_id: write.table_id, sequence_num: 0, offset: 0 },
        );
        assert(table.well_formed());
        assert(table_recovered(table, seen)) by {
            if registry_before.contains_key(write.table_id) {
                assert(rebuilt_before.contains_key(write.table_id));
            } else {
                assert(!rebuilt_before.contains_key(write.table_id));
            }
        }
        lemma_write_recovers(rebuilt_before, table, write.table_id, write.range);
        lemma_write_keeps_well_formed(table, write.range);
        lemma_deltas_concat(rebuilt, deltas_of_writes(registry, earlier), deltas);
        let registry_after = tables_after_writes(registry, writes);
        let rebuilt_after = tables_after_deltas(rebuilt, deltas_of_writes(registry, writes));
        assert(registry_after == prepared.insert(write.table_id, table.after_write(write.range)));
        assert(rebuilt_after == rebuilt_before.insert(
            write.table_id,
            table_after_records(seen, table.next_sequence_num, write.range, write.range.count()),
        ));
        assert forall|id: TableId| registry_after.contains_key(id) <==> rebuilt_after.contains_key(
            id,
        ) by {
            if id != write.table_id {
                assert(registry_after.contains_key(id) <==> registry_before.contains_key(id));
            }
        }
        assert forall|id: TableId| #[trigger] registry_after.contains_key(id) implies table_recovered(
            registry_after[id],
            rebuilt_after[id],
        ) by {
            if id != write.table_id {
                assert(registry_before.contains_key(id));
            }
        }
        assert forall|id: TableId| #[trigger]
            registry_after.contains_key(id) implies registry_after[id].well_formed() by {
            if id != write.table_id {
                assert(registry_before.contains_key(id));
            }
        }
    }
}

/// Tables that stand for others tell the same as the others.
pub proof fn lemma_recovered_tells_the_same(registry: Tables, rebuilt: Tables)
    requires
        tables_recovered(registry, rebuilt),
    ensures
        same_meta_data(registry, rebuilt),
{
}

/// Recovery: a registry with well-formed tables is frozen into a snapshot
/// and then records writes, each behind the high watermark of its table. A
/// builder that starts empty and is given the snapshot and then the deltas of
/// the writes, in their order, accepts the snapshot and every delta, and ends
/// up with the tables of the registry: the same tables, and of every table
/// the same next sequence number, marked sequence number, high watermark and
/// safe offset.
pub proof fn lemma_recovery(tables: Tables, entries: Seq<TableMetaData>, writes: Seq<TableWrite>)
    requires
        all_well_formed(tables),
        is_snapshot_of(entries, tables),
        writes_advance(tables, writes),
    ensures
        forall|i: int| 0 <= i < entries.len() ==> !is_duplicated_at(Tables::empty(), entries, i),
        deltas_apply(
            tables_with_entries(Tables::empty(), entries),
            deltas_of_writes(tables, writes),
        ),
        same_meta_data(
            tables_after_writes(tables, writes),
            tables_after_deltas(
                tables_with_entries(Tables::empty(), entries),
                deltas_of_writes(tables, writes),
            ),
        ),
{
    lemma_snapshot_recovers(tables, entries);
    let rebuilt = tables_with_entries(Tables::empty(), entries);
    lemma_writes_recover(tables, rebuilt, writes);
    lemma_recovered_tells_the_same(
        tables_after_writes(tables, writes),
        tables_after_deltas(rebuilt, deltas_of_writes(tables, writes)),
    );
}

/// Snapshots of tables that tell the same hold the same entries, in
/// whatever order: every entry of the one is an entry of the other.
pub proof fn lemma_snapshots_agree(
    registry: Tables,
    rebuilt: Tables,
    registry_entries: Seq<TableMetaData>,
    rebuilt_entries: Seq<TableMetaData>,
)
    requires
        same_meta_data(registry, rebuilt),
        is_snapshot_of(registry_entries, registry),
        is_snapshot_of(rebuilt_entries, rebuilt),
    ensures
        registry_entries.len() == rebuilt_entries.len(),
        forall|i: int|
            0 <= i < registry_entries.len() ==> rebuilt_entries.contains(
                #[trigger] registry_entries[i],
            ),
        forall|i: int|
            0 <= i < rebuilt_entries.len() ==> registry_entries.contains(
                #[trigger] rebuilt_entries[i],
            ),
{
    assert(registry.dom() =~= rebuilt.dom());
    assert forall|i: int| 0 <= i < registry_entries.len() implies rebuilt_entries.contains(
        #[trigger] registry_entries[i],
    ) by {
        let id = registry_entries[i].table_id;
        assert(registry.contains_key(id));
        assert(rebuilt.contains_key(id));
        let j = choose|j: int|
            0 <= j < rebuilt_entries.len() && (#[trigger] rebuilt_entries[j]).table_id == id;
        assert(rebuilt_entries[j] == registry_entries[i]);
    }
    assert forall|i: int| 0 <= i < rebuilt_entries.len() implies registry_entries.contains(
        #[trigger] rebuilt_entries[i],
    ) by {
        let id = rebuilt_entries[i].table_id;
        assert(rebuilt.contains_key(id));
        assert(registry.contains_key(id));
        let j = choose|j: int|
            0 <= j < registry_entries.len() && (#[trigger] registry_entries[j]).table_id == id;
        assert(registry_entries[j] == rebuilt_entries[i]);
    }
}

} // verus!
