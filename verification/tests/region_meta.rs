use wal::region_meta::{
    BuildFailure, DeleteFailure, Error, OffsetRange, RegionMeta, RegionMetaBuilder,
    RegionMetaDelta, RegionMetaSnapshot, TableMeta, TableMetaData, UpdateFailure,
};

const MIN_SEQUENCE: u64 = 0;

fn update_and_check_table_meta(
    region_meta: &mut RegionMeta,
    table_id: u64,
    expected_offset_range: (i64, i64),
    expected_next_sequence_num: u64,
    cnt: u64,
) {
    let mut expected_offset_range = expected_offset_range;
    let mut expected_next_sequence_num = expected_next_sequence_num;
    for _ in 0..cnt {
        expected_next_sequence_num += 10;

        region_meta
            .update_after_table_write(
                table_id,
                OffsetRange::new(expected_offset_range.0, expected_offset_range.1),
            )
            .unwrap();
        let snapshot = region_meta.make_snapshot();
        for entry in snapshot.entries {
            if entry.table_id == table_id {
                assert_eq!(entry.next_sequence_num, expected_next_sequence_num);
                assert_eq!(entry.current_high_watermark, expected_offset_range.1 + 1);
            }
        }

        expected_offset_range.0 += 10;
        expected_offset_range.1 += 10;
    }
}

fn create_and_check_table_meta(region_meta: &mut RegionMeta, table_id: u64) {
    let init_seq = region_meta.prepare_for_table_write(table_id);
    assert_eq!(init_seq, 0);
    let snapshot = region_meta.make_snapshot();
    for entry in snapshot.entries {
        if entry.table_id == table_id {
            assert_eq!(entry.next_sequence_num, MIN_SEQUENCE);
            assert_eq!(entry.latest_marked_deleted, entry.next_sequence_num);
            assert_eq!(entry.current_high_watermark, 0);
            assert_eq!(entry.safe_delete_offset, None);
        }
    }
}

#[test]
fn test_basic_work_flow() {
    let mut region_meta = RegionMeta::default();

    // New table meta.
    let init_seq = region_meta.prepare_for_table_write(0);
    let snapshot = region_meta.make_snapshot();
    assert_eq!(snapshot.entries.len(), 1);
    assert_eq!(snapshot.entries[0].next_sequence_num, MIN_SEQUENCE);
    assert_eq!(
        snapshot.entries[0].latest_marked_deleted,
        snapshot.entries[0].next_sequence_num
    );
    assert_eq!(snapshot.entries[0].safe_delete_offset, None);

    // Update.
    region_meta
        .update_after_table_write(0, OffsetRange::new(20, 29))
        .unwrap();
    let snapshot = region_meta.make_snapshot();
    assert_eq!(snapshot.entries.len(), 1);
    assert_eq!(snapshot.entries[0].next_sequence_num, init_seq + 10);
    assert_eq!(snapshot.entries[0].latest_marked_deleted, 0);
    assert_eq!(snapshot.entries[0].current_high_watermark, 30);
    assert_eq!(snapshot.entries[0].safe_delete_offset, Some(20));

    // Update again, and delete to a fall behind point.
    region_meta
        .update_after_table_write(0, OffsetRange::new(42, 51))
        .unwrap();
    let snapshot = region_meta.make_snapshot();
    assert_eq!(snapshot.entries.len(), 1);
    assert_eq!(snapshot.entries[0].next_sequence_num, init_seq + 20);
    assert_eq!(snapshot.entries[0].latest_marked_deleted, 0);
    assert_eq!(snapshot.entries[0].current_high_watermark, 52);
    assert_eq!(snapshot.entries[0].safe_delete_offset, Some(20));

    region_meta.mark_table_deleted(0, init_seq + 10).unwrap();
    let snapshot = region_meta.make_snapshot();
    assert_eq!(snapshot.entries.len(), 1);
    assert_eq!(snapshot.entries[0].next_sequence_num, init_seq + 20);
    assert_eq!(snapshot.entries[0].latest_marked_deleted, init_seq + 10);
    assert_eq!(snapshot.entries[0].current_high_watermark, 52);
    assert_eq!(snapshot.entries[0].safe_delete_offset, Some(42));

    // delete to latest
    region_meta.mark_table_deleted(0, init_seq + 20).unwrap();
    let snapshot = region_meta.make_snapshot();
    assert_eq!(snapshot.entries.len(), 1);
    assert_eq!(snapshot.entries[0].next_sequence_num, init_seq + 20);
    assert_eq!(snapshot.entries[0].latest_marked_deleted, init_seq + 20);
    assert_eq!(snapshot.entries[0].current_high_watermark, 52);
    assert_eq!(snapshot.entries[0].safe_delete_offset, None);
}

fn test_table_write_delete_race_once() {
    let mut region_meta = RegionMeta::default();
    let mut expected_offset_range = (42, 51);
    let mut expected_next_sequence_num = 0;

    // New table meta.
    create_and_check_table_meta(&mut region_meta, 0);

    // Update once; the deletion comes in while the updates go on.
    expected_next_sequence_num += 10;
    region_meta
        .update_after_table_write(
            0,
            OffsetRange::new(expected_offset_range.0, expected_offset_range.1),
        )
        .unwrap();
    let snapshot = region_meta.make_snapshot();
    assert_eq!(snapshot.entries.len(), 1);
    assert_eq!(
        snapshot.entries[0].next_sequence_num,
        expected_next_sequence_num
    );
    assert_eq!(snapshot.entries[0].latest_marked_deleted, 0);
    assert_eq!(
        snapshot.entries[0].safe_delete_offset,
        Some(expected_offset_range.0)
    );
    assert_eq!(
        snapshot.entries[0].current_high_watermark,
        expected_offset_range.1 + 1
    );
    expected_offset_range.0 += 10;
    expected_offset_range.1 += 10;

    // The first of the later updates.
    update_and_check_table_meta(
        &mut region_meta,
        0,
        expected_offset_range,
        expected_next_sequence_num,
        1,
    );

    // The delayed deletion.
    region_meta.mark_table_deleted(0, 10).unwrap();
    let snapshot = region_meta.make_snapshot();
    assert_eq!(snapshot.entries.len(), 1);
    assert_eq!(snapshot.entries[0].latest_marked_deleted, 10);
    assert_eq!(snapshot.entries[0].safe_delete_offset, Some(42 + 10));

    // Continue to update.
    update_and_check_table_meta(
        &mut region_meta,
        0,
        (expected_offset_range.0 + 10, expected_offset_range.1 + 10),
        expected_next_sequence_num + 10,
        4,
    );

    let snapshot = region_meta.make_snapshot();
    assert_eq!(snapshot.entries.len(), 1);
    assert_eq!(snapshot.entries[0].next_sequence_num, 60);
    assert_eq!(snapshot.entries[0].latest_marked_deleted, 10);
    assert_eq!(snapshot.entries[0].current_high_watermark, 102);
    assert_eq!(snapshot.entries[0].safe_delete_offset, Some(52));
}

#[test]
fn test_table_write_delete_race() {
    for _ in 0..50 {
        test_table_write_delete_race_once();
    }
}

fn test_region_write_create_race_once() {
    let mut region_meta = RegionMeta::default();
    let expected_offset_range = (42, 51);
    let expected_next_sequence_num = 0;

    // Two writers, one for each table, take turns.
    create_and_check_table_meta(&mut region_meta, 1);
    create_and_check_table_meta(&mut region_meta, 0);
    for step in 0..5_i64 {
        for table_id in [1_u64, 0_u64] {
            update_and_check_table_meta(
                &mut region_meta,
                table_id,
                (
                    expected_offset_range.0 + 10 * step,
                    expected_offset_range.1 + 10 * step,
                ),
                expected_next_sequence_num + 10 * step as u64,
                1,
            );
        }
    }

    // Check final result.
    let snapshot = region_meta.make_snapshot();
    assert_eq!(snapshot.entries.len(), 2);
    assert_eq!(snapshot.entries[0].next_sequence_num, 50);
    assert_eq!(snapshot.entries[0].latest_marked_deleted, 0);
    assert_eq!(snapshot.entries[0].current_high_watermark, 92);
    assert_eq!(snapshot.entries[0].safe_delete_offset, Some(42));
    assert_eq!(snapshot.entries[1].next_sequence_num, 50);
    assert_eq!(snapshot.entries[1].latest_marked_deleted, 0);
    assert_eq!(snapshot.entries[1].current_high_watermark, 92);
    assert_eq!(snapshot.entries[1].safe_delete_offset, Some(42));
}

#[test]
fn test_region_write_create_race() {
    for _ in 0..50 {
        test_region_write_create_race_once();
    }
}

fn recover_from_snapshot_and_delta(delete_points: [u64; 5]) {
    let mut region_meta = RegionMeta::default();
    let mut expected_offset_range = (42, 51);
    let expected_offset_range_len = expected_offset_range.1 - expected_offset_range.0 + 1;
    let mut expected_next_sequence_num = 0;

    // Insert some table metas, update them, mark some sequence deleted in them.
    for table_id in 0..5_u64 {
        create_and_check_table_meta(&mut region_meta, table_id);
        // Continue to update.
        update_and_check_table_meta(
            &mut region_meta,
            table_id,
            expected_offset_range,
            expected_next_sequence_num,
            5,
        );

        expected_offset_range.0 += 5 * expected_offset_range_len;
        expected_offset_range.1 += 5 * expected_offset_range_len;

        let rnd = delete_points[table_id as usize];
        region_meta
            .mark_table_deleted(table_id, rnd * expected_offset_range_len as u64)
            .unwrap();
    }
    expected_next_sequence_num += 5 * expected_offset_range_len as u64;

    // Make a snapshot.
    let snapshot_from_origin = region_meta.make_snapshot();

    // Update above table metas after making snapshot,
    // collect such updates as delta.
    let mut region_meta_deltas = Vec::new();
    let update_batch_size = expected_offset_range_len as u64;
    for table_id_delta in 0..5_u64 {
        let table_id = 4 - table_id_delta;
        // Continue to update.
        update_and_check_table_meta(
            &mut region_meta,
            table_id,
            expected_offset_range,
            expected_next_sequence_num,
            1,
        );

        for i in 0..update_batch_size {
            region_meta_deltas.push(RegionMetaDelta::new(
                table_id,
                expected_next_sequence_num + i,
                expected_offset_range.0 + i as i64,
            ));
        }

        expected_offset_range.0 += expected_offset_range_len;
        expected_offset_range.1 += expected_offset_range_len;
    }

    // Make a new snapshot.
    let mut new_snapshot_from_origin = region_meta.make_snapshot();

    // Build a new `RegionMeta`.
    let mut builder = RegionMetaBuilder::default();
    builder
        .apply_region_meta_snapshot(snapshot_from_origin.clone())
        .unwrap();
    for delta in region_meta_deltas.into_iter() {
        builder.apply_region_meta_delta(delta).unwrap();
    }
    let new_region_meta = builder.build();
    let mut snapshot_from_recovered = new_region_meta.make_snapshot();

    // Sort and compare.
    snapshot_from_recovered
        .entries
        .sort_by(|a, b| a.table_id.cmp(&b.table_id));
    new_snapshot_from_origin
        .entries
        .sort_by(|a, b| a.table_id.cmp(&b.table_id));
    assert_eq!(snapshot_from_recovered, new_snapshot_from_origin);
}

#[test]
fn test_recover_from_snapshot_and_delta() {
    for shift in 0..5_u64 {
        let mut delete_points = [0_u64; 5];
        for table_id in 0..5_u64 {
            delete_points[table_id as usize] = (table_id * 3 + shift) % 5;
        }
        recover_from_snapshot_and_delta(delete_points);
    }
}

#[test]
fn registry_basic_flow_meta_data() {
    let mut region_meta = RegionMeta::default();
    assert_eq!(region_meta.prepare_for_table_write(0), 0);
    region_meta
        .update_after_table_write(0, OffsetRange::new(20, 29))
        .unwrap();
    assert_eq!(
        region_meta.get_table_meta_data(0),
        Ok(TableMetaData {
            table_id: 0,
            next_sequence_num: 10,
            latest_marked_deleted: 0,
            current_high_watermark: 30,
            safe_delete_offset: Some(20),
        })
    );
    region_meta
        .update_after_table_write(0, OffsetRange::new(42, 51))
        .unwrap();
    assert_eq!(
        region_meta.get_table_meta_data(0),
        Ok(TableMetaData {
            table_id: 0,
            next_sequence_num: 20,
            latest_marked_deleted: 0,
            current_high_watermark: 52,
            safe_delete_offset: Some(20),
        })
    );
    region_meta.mark_table_deleted(0, 10).unwrap();
    assert_eq!(
        region_meta.get_table_meta_data(0),
        Ok(TableMetaData {
            table_id: 0,
            next_sequence_num: 20,
            latest_marked_deleted: 10,
            current_high_watermark: 52,
            safe_delete_offset: Some(42),
        })
    );
    region_meta.mark_table_deleted(0, 20).unwrap();
    assert_eq!(
        region_meta.get_table_meta_data(0),
        Ok(TableMetaData {
            table_id: 0,
            next_sequence_num: 20,
            latest_marked_deleted: 20,
            current_high_watermark: 52,
            safe_delete_offset: None,
        })
    );
    // Preparing a table that exists only reads.
    assert_eq!(region_meta.prepare_for_table_write(0), 20);
    assert!(region_meta.is_consistent());
}

#[test]
fn registry_errors() {
    let mut region_meta = RegionMeta::default();
    assert_eq!(
        region_meta.get_table_meta_data(3),
        Err(Error::GetTableMeta { table_id: 3 })
    );
    assert_eq!(
        region_meta.update_after_table_write(3, OffsetRange::new(5, 4)),
        Err(Error::UpdateAfterWrite {
            table_id: 3,
            reason: UpdateFailure::InvalidRange
        })
    );
    assert_eq!(
        region_meta.update_after_table_write(3, OffsetRange::new(4, 5)),
        Err(Error::UpdateAfterWrite {
            table_id: 3,
            reason: UpdateFailure::TableNotFound
        })
    );
    assert_eq!(
        region_meta.mark_table_deleted(3, 0),
        Err(Error::MarkDeleted {
            table_id: 3,
            reason: DeleteFailure::TableNotFound
        })
    );
    region_meta.prepare_for_table_write(3);
    assert_eq!(
        region_meta.update_after_table_write(3, OffsetRange::new(0, i64::MAX)),
        Err(Error::UpdateAfterWrite {
            table_id: 3,
            reason: UpdateFailure::Overflow
        })
    );
    region_meta
        .update_after_table_write(3, OffsetRange::new(7, 7))
        .unwrap();
    assert_eq!(
        region_meta.update_after_table_write(3, OffsetRange::new(i64::MIN, i64::MAX - 1)),
        Err(Error::UpdateAfterWrite {
            table_id: 3,
            reason: UpdateFailure::Overflow
        })
    );
    assert_eq!(
        region_meta.mark_table_deleted(3, 2),
        Err(Error::MarkDeleted {
            table_id: 3,
            reason: DeleteFailure::BeyondNextSequence
        })
    );
    region_meta.mark_table_deleted(3, 1).unwrap();
    assert_eq!(
        region_meta.mark_table_deleted(3, 0),
        Err(Error::MarkDeleted {
            table_id: 3,
            reason: DeleteFailure::BeforeMarkedDeleted
        })
    );
    // A failed call leaves the table as it was.
    assert_eq!(
        region_meta.get_table_meta_data(3),
        Ok(TableMetaData {
            table_id: 3,
            next_sequence_num: 1,
            latest_marked_deleted: 1,
            current_high_watermark: 8,
            safe_delete_offset: None,
        })
    );
}

#[test]
fn table_meta_keeps_its_invariants() {
    let mut table = TableMeta::new(9);
    assert_eq!(table.table_id(), 9);
    assert!(table.is_consistent());
    assert_eq!(table.prepare_for_write(), 0);
    table.update_after_write(OffsetRange::new(100, 104)).unwrap();
    assert!(table.is_consistent());
    table.update_after_write(OffsetRange::new(105, 105)).unwrap();
    assert!(table.is_consistent());
    assert_eq!(table.prepare_for_write(), 6);
    table.mark_deleted(5).unwrap();
    assert!(table.is_consistent());
    assert_eq!(table.get_meta_data().safe_delete_offset, Some(105));
    table.mark_deleted(6).unwrap();
    assert!(table.is_consistent());
    assert_eq!(table.get_meta_data().safe_delete_offset, None);
    assert_eq!(table.get_meta_data().latest_marked_deleted, 6);
    assert_eq!(table.get_meta_data().next_sequence_num, 6);
}

#[test]
fn marking_inside_a_batch_loses_the_safe_offset() {
    let mut table = TableMeta::new(1);
    table.update_after_write(OffsetRange::new(20, 29)).unwrap();
    // 5 is no start of a batch: the call is accepted, and the offset of the
    // first live record is not known afterwards.
    table.mark_deleted(5).unwrap();
    assert!(!table.is_consistent());
}

#[test]
fn builder_rejects_duplicates_and_stale_deltas() {
    let entry = TableMetaData {
        table_id: 4,
        next_sequence_num: 20,
        latest_marked_deleted: 10,
        current_high_watermark: 52,
        safe_delete_offset: Some(42),
    };
    let mut builder = RegionMetaBuilder::default();
    assert_eq!(
        builder.apply_region_meta_snapshot(RegionMetaSnapshot {
            entries: vec![entry, entry],
        }),
        Err(Error::Build {
            table_id: 4,
            reason: BuildFailure::DuplicatedEntry
        })
    );

    let mut builder = RegionMetaBuilder::default();
    builder
        .apply_region_meta_snapshot(RegionMetaSnapshot {
            entries: vec![entry],
        })
        .unwrap();
    assert_eq!(
        builder.apply_region_meta_delta(RegionMetaDelta::new(4, 19, 60)),
        Err(Error::Build {
            table_id: 4,
            reason: BuildFailure::SequenceNotAdvanced
        })
    );
    assert_eq!(
        builder.apply_region_meta_delta(RegionMetaDelta::new(4, u64::MAX, 60)),
        Err(Error::Build {
            table_id: 4,
            reason: BuildFailure::SequenceNotAdvanced
        })
    );
    assert_eq!(
        builder.apply_region_meta_delta(RegionMetaDelta::new(4, 20, 51)),
        Err(Error::Build {
            table_id: 4,
            reason: BuildFailure::HighWatermarkNotAdvanced
        })
    );
    // The refused delta has moved the sequence number already.
    assert_eq!(
        builder.apply_region_meta_delta(RegionMetaDelta::new(4, 20, 52)),
        Err(Error::Build {
            table_id: 4,
            reason: BuildFailure::SequenceNotAdvanced
        })
    );
    builder
        .apply_region_meta_delta(RegionMetaDelta::new(4, 21, 52))
        .unwrap();
    // A delta of a table that the snapshot did not hold creates the table.
    builder
        .apply_region_meta_delta(RegionMetaDelta::new(8, 0, 7))
        .unwrap();
    let region_meta = builder.build();
    assert_eq!(
        region_meta.get_table_meta_data(4),
        Ok(TableMetaData {
            table_id: 4,
            next_sequence_num: 22,
            latest_marked_deleted: 10,
            current_high_watermark: 53,
            safe_delete_offset: Some(42),
        })
    );
    assert_eq!(
        region_meta.get_table_meta_data(8),
        Ok(TableMetaData {
            table_id: 8,
            next_sequence_num: 1,
            latest_marked_deleted: 0,
            current_high_watermark: 8,
            safe_delete_offset: Some(7),
        })
    );
}
