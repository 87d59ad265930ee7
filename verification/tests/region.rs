use std::collections::BTreeMap;
use std::time::Duration;

use wal::kv_encoder::{Error as CodecError, LogBatchEncoder, LogEncoding, Namespace};
use wal::log_batch::{Location, LogWriteBatch, Payload};
use wal::manager;
use wal::region::{
    buckets_in_order, CleanContext, Error, InsertOutcome, InsertResolution, KeyBoundary,
    LogCleaner, ReadStep, Region, RegionEntry, RegionState, RegionWriter, ScanRequest,
    TableLogIterator, WriteBatch, WriteOp,
};

/// A table of the store, kept in memory.
#[derive(Default)]
struct MemoryTable {
    records: BTreeMap<Vec<u8>, Vec<u8>>,
}

impl MemoryTable {
    fn write(&mut self, batch: WriteBatch) -> Result<(), InsertOutcome> {
        for op in batch.ops {
            match op {
                WriteOp::Insert { key, value } => {
                    if self.records.contains_key(&key) {
                        return Err(InsertOutcome::PrimaryKeyDuplicate);
                    }
                    self.records.insert(key, value);
                }
                WriteOp::InsertOrUpdate { key, value } => {
                    self.records.insert(key, value);
                }
                WriteOp::Delete { key } => {
                    self.records.remove(&key);
                }
            }
        }
        Ok(())
    }

    fn scan(&self, req: &ScanRequest) -> Vec<(Vec<u8>, Vec<u8>)> {
        let mut found: Vec<(Vec<u8>, Vec<u8>)> = self
            .records
            .iter()
            .filter(|(key, _)| {
                let after_start = match &req.start {
                    KeyBoundary::Included(start) => *key >= start,
                    KeyBoundary::Excluded(start) => *key > start,
                };
                let before_end = match &req.end {
                    KeyBoundary::Included(end) => *key <= end,
                    KeyBoundary::Excluded(end) => *key < end,
                };
                after_start && before_end
            })
            .map(|(key, value)| (key.clone(), value.clone()))
            .collect();
        if req.reverse {
            found.reverse();
        }
        found
    }
}

struct BytesPayload(Vec<u8>);

impl Payload for BytesPayload {
    type Error = ();

    fn encode_size(&self) -> usize {
        self.0.len()
    }

    fn encode_to(&self, buf: &mut Vec<u8>) -> Result<(), ()> {
        buf.extend_from_slice(&self.0);
        Ok(())
    }
}

fn batch_of(region_id: u64, count: usize) -> LogWriteBatch {
    let payloads: Vec<BytesPayload> = (0..count)
        .map(|i| BytesPayload(vec![i as u8, 0xab]))
        .collect();
    LogBatchEncoder::create(Location::new(0, region_id))
        .encode_batch(&payloads)
        .unwrap()
}

fn open_region(region_id: u64, buckets: &[MemoryTable]) -> Region {
    let req = Region::last_sequence_scan_request(region_id).unwrap();
    let mut probes: Vec<Option<u64>> = Vec::new();
    while let Some(bucket) = Region::next_bucket_to_probe(buckets.len(), &probes) {
        let scanned = buckets[bucket].scan(&req);
        let first_key = scanned.first().map(|(key, _)| key.as_slice());
        probes.push(Region::load_last_sequence_from_table(first_key).unwrap());
    }
    probes.reverse();
    Region::open_or_create(region_id, RegionEntry::new(region_id), &probes)
}

/// Runs a read to its end against the buckets.
fn read_all(
    region: &Region,
    buckets: &[MemoryTable],
    start: Option<u64>,
    end: Option<u64>,
) -> Vec<(u64, u64, Vec<u8>)> {
    let bucket_starts: Vec<i64> = (0..buckets.len() as i64).map(|i| i * 1000).collect();
    assert!(buckets_in_order(&bucket_starts));
    let mut iter = region.read_log(bucket_starts, start, end);
    let mut scanned: Vec<(Vec<u8>, Vec<u8>)> = Vec::new();
    let mut position = 0;
    let mut entries = Vec::new();
    loop {
        match iter.next_step().unwrap() {
            ReadStep::Finished => return entries,
            ReadStep::Scan { bucket, request } => {
                assert_eq!(iter.scan_buckets(), Some(bucket));
                assert_eq!(iter.new_scan_request().unwrap(), request);
                scanned = buckets[bucket].scan(&request);
                position = 0;
                iter.scan_opened(!scanned.is_empty());
            }
            ReadStep::Fetch => {
                assert!(iter.is_scanning());
                let (key, value) = &scanned[position];
                iter.next_log_entry(key, value).unwrap();
                position += 1;
                iter.step_current_iter(position < scanned.len());
                let entry = iter.log_entry();
                entries.push((entry.table_id, entry.sequence, entry.payload.to_vec()));
            }
        }
    }
}

/// Runs a clean against the buckets and returns the sizes of the batches
/// that it wrote.
fn clean(region: &Region, buckets: &mut [MemoryTable], ctx: &CleanContext) -> Vec<usize> {
    let (_scan_ctx, req) = region.clean_deleted_logs(ctx).unwrap();
    let mut written = Vec::new();
    for bucket in buckets.iter_mut() {
        let scanned = bucket.scan(&req);
        let mut cleaner: LogCleaner = region.clean_logs_from_iter(ctx);
        for (i, (key, _)) in scanned.iter().enumerate() {
            if let Some(batch) = cleaner.delete(key) {
                written.push(batch.len());
                bucket.write(batch).unwrap();
            }
            if i + 1 == scanned.len() {
                let batch = cleaner.finish();
                written.push(batch.len());
                bucket.write(batch).unwrap();
            }
        }
        assert_eq!(cleaner.total_deleted(), scanned.len() as u64);
    }
    written
}

fn sequences_in(bucket: &MemoryTable, region_id: u64) -> Vec<u64> {
    let encoding = LogEncoding::newest();
    bucket
        .records
        .keys()
        .filter_map(|key| {
            let (region, sequence) = encoding.decode_key(key).unwrap();
            if region == region_id {
                Some(sequence)
            } else {
                None
            }
        })
        .collect()
}

#[test]
fn write_then_read_an_empty_region() {
    let mut buckets = vec![MemoryTable::default()];
    let mut region = open_region(7, &buckets);
    assert_eq!(region.region_id(), 7);
    assert_eq!(region.last_sequence(), 0);
    assert_eq!(region.start_sequence(), 0);

    let (batch, max_sequence) = region.write_log(&batch_of(7, 10)).unwrap();
    assert_eq!(max_sequence, 10);
    assert_eq!(region.last_sequence(), 10);
    assert_eq!(batch.len(), 10);
    buckets[0].write(batch).unwrap();

    let entries = read_all(&region, &buckets, Some(0), Some(100));
    assert_eq!(entries.len(), 10);
    for (i, (table_id, sequence, payload)) in entries.iter().enumerate() {
        assert_eq!(*table_id, 7);
        assert_eq!(*sequence, i as u64 + 1);
        assert_eq!(payload, &vec![i as u8, 0xab]);
    }

    // Opened again, the region finds its last sequence in the bucket.
    let reopened = open_region(7, &buckets);
    assert_eq!(reopened.last_sequence(), 10);
}

#[test]
fn truncate_then_clean() {
    let mut buckets = vec![MemoryTable::default()];
    let mut region = open_region(9, &buckets);
    let mut other = open_region(8, &buckets);
    let (batch, _) = other.write_log(&batch_of(8, 3)).unwrap();
    buckets[0].write(batch).unwrap();

    let (batch, max_sequence) = region.write_log(&batch_of(9, 100)).unwrap();
    assert_eq!(max_sequence, 100);
    buckets[0].write(batch).unwrap();

    let entry = region.delete_entries_up_to(50).unwrap();
    assert_eq!(
        entry,
        RegionEntry {
            region_id: 9,
            start_sequence: 51
        }
    );
    // Nothing moves before the entry is stored.
    assert_eq!(region.start_sequence(), 0);
    region.set_start_sequence(entry.start_sequence);
    assert_eq!(region.start_sequence(), 51);

    let entries = read_all(&region, &buckets, Some(1), Some(100));
    let sequences: Vec<u64> = entries.iter().map(|entry| entry.1).collect();
    assert_eq!(sequences, (51..=100).collect::<Vec<u64>>());

    let ctx = CleanContext::default();
    assert_eq!(ctx.batch_size, 100);
    assert_eq!(ctx.scan_timeout, Duration::from_secs(10));
    let written = clean(&region, &mut buckets, &ctx);
    assert_eq!(written, vec![50]);

    let left = sequences_in(&buckets[0], 9);
    assert_eq!(left, (51..=100).collect::<Vec<u64>>());
    assert!(left.contains(&51));
    assert!(left.iter().all(|sequence| *sequence >= 51));
    // The records of another region are not touched.
    assert_eq!(sequences_in(&buckets[0], 8), vec![1, 2, 3]);
}

#[test]
fn truncate_twice_is_truncate_once() {
    let mut region = Region::open_or_create(
        3,
        RegionEntry {
            region_id: 3,
            start_sequence: 5,
        },
        &[Some(40)],
    );
    let first = region.delete_entries_up_to(20).unwrap();
    region.set_start_sequence(first.start_sequence);
    let second = region.delete_entries_up_to(20).unwrap();
    assert_eq!(first, second);
    assert_eq!(second.start_sequence, 21);
    // A smaller sequence number moves nothing back.
    assert_eq!(region.delete_entries_up_to(7).unwrap().start_sequence, 21);
    // Beyond the last sequence the log ends behind the last sequence.
    assert_eq!(region.delete_entries_up_to(1000).unwrap().start_sequence, 41);
    assert_eq!(
        region.delete_entries_up_to(u64::MAX),
        Err(Error::SequenceOverflow { region_id: 3 })
    );
}

#[test]
fn successive_writes_count_up() {
    let mut region = Region::open_or_create(2, RegionEntry::new(2), &[None, Some(17), None]);
    assert_eq!(region.last_sequence(), 17);
    let mut previous = region.last_sequence();
    for count in [1_usize, 4, 0, 9] {
        let (batch, max_sequence) = region.write_log(&batch_of(2, count)).unwrap();
        assert_eq!(max_sequence, previous + count as u64);
        assert_eq!(batch.len(), count);
        let encoding = LogEncoding::newest();
        for (i, op) in batch.ops.iter().enumerate() {
            match op {
                WriteOp::Insert { key, value } => {
                    assert_eq!(
                        encoding.decode_key(key).unwrap(),
                        (2, previous + 1 + i as u64)
                    );
                    assert_eq!(value, &vec![0, i as u8, 0xab]);
                }
                _ => panic!("a write only inserts"),
            }
        }
        previous = max_sequence;
    }
    assert_eq!(region.last_sequence(), 31);
}

#[test]
fn sequence_numbers_run_out() {
    let mut state = RegionState {
        region_id: 6,
        start_sequence: 0,
        last_sequence: u64::MAX - 2,
    };
    let mut writer = RegionWriter;
    // The largest sequence number is a sentinel and is never handed out.
    assert_eq!(
        writer.alloc_sequence_num(&mut state, 2),
        Err(Error::SequenceOverflow { region_id: 6 })
    );
    assert_eq!(state.last_sequence(), u64::MAX - 2);
    assert_eq!(writer.alloc_sequence_num(&mut state, 0), Ok(u64::MAX - 1));
    assert_eq!(state.last_sequence(), u64::MAX - 2);
    assert_eq!(writer.alloc_sequence_num(&mut state, 1), Ok(u64::MAX - 1));
    assert_eq!(state.last_sequence(), u64::MAX - 1);
    assert_eq!(
        writer.alloc_sequence_num(&mut state, 1),
        Err(Error::SequenceOverflow { region_id: 6 })
    );
    assert_eq!(
        writer.alloc_sequence_num(&mut state, u64::MAX),
        Err(Error::SequenceOverflow { region_id: 6 })
    );
    assert_eq!(state.last_sequence(), u64::MAX - 1);
    assert_eq!(
        writer.write_log(&mut state, &batch_of(6, 3)).unwrap_err(),
        Error::SequenceOverflow { region_id: 6 }
    );
    assert_eq!(state.last_sequence(), u64::MAX - 1);
    // An empty write takes nothing and returns the last sequence number.
    let (batch, max_sequence) = writer.write_log(&mut state, &batch_of(6, 0)).unwrap();
    assert!(batch.is_empty());
    assert_eq!(max_sequence, u64::MAX - 1);

    // A region that stands at the sentinel takes no write at all.
    let mut full = RegionState {
        region_id: 6,
        start_sequence: 0,
        last_sequence: u64::MAX,
    };
    assert_eq!(
        writer.alloc_sequence_num(&mut full, 0),
        Err(Error::SequenceOverflow { region_id: 6 })
    );
    assert_eq!(
        writer.write_log(&mut full, &batch_of(6, 1)).unwrap_err(),
        Error::SequenceOverflow { region_id: 6 }
    );
    assert_eq!(full.last_sequence(), u64::MAX);

    assert_eq!(state.region_entry(), RegionEntry::new(6));
    state.set_start_sequence(12);
    assert_eq!(state.start_sequence(), 12);
}

#[test]
fn writes_near_the_top_keep_counting_up() {
    let mut region = Region::open_or_create(4, RegionEntry::new(4), &[Some(u64::MAX - 3)]);
    let (_, first) = region.write_log(&batch_of(4, 1)).unwrap();
    assert_eq!(first, u64::MAX - 2);
    assert_eq!(
        region.write_log(&batch_of(4, 3)).unwrap_err(),
        Error::SequenceOverflow { region_id: 4 }
    );
    assert_eq!(region.last_sequence(), u64::MAX - 2);
    let (batch, second) = region.write_log(&batch_of(4, 1)).unwrap();
    assert_eq!(second, u64::MAX - 1);
    assert!(first < second);
    assert_eq!(batch.len(), 1);
    assert_eq!(
        region.write_log(&batch_of(4, 1)).unwrap_err(),
        Error::SequenceOverflow { region_id: 4 }
    );
}

#[test]
fn records_are_filed_under_the_region() {
    // The batch names table 99; the keys are those of region 7 all the same,
    // and a read of region 7 finds them.
    let mut buckets = vec![MemoryTable::default()];
    let mut region = open_region(7, &buckets);
    let (batch, max_sequence) = region.write_log(&batch_of(99, 10)).unwrap();
    assert_eq!(max_sequence, 10);
    let encoding = LogEncoding::newest();
    for (i, op) in batch.ops.iter().enumerate() {
        match op {
            WriteOp::Insert { key, .. } => {
                assert_eq!(encoding.decode_key(key).unwrap(), (7, i as u64 + 1));
            }
            _ => panic!("a write only inserts"),
        }
    }
    buckets[0].write(batch).unwrap();
    let entries = read_all(&region, &buckets, Some(0), Some(100));
    assert_eq!(
        entries.iter().map(|entry| (entry.0, entry.1)).collect::<Vec<(u64, u64)>>(),
        (1..=10).map(|sequence| (7, sequence)).collect::<Vec<(u64, u64)>>()
    );
    for (i, entry) in entries.iter().enumerate() {
        assert_eq!(entry.2, vec![i as u8, 0xab]);
    }
    assert!(read_all(&open_region(99, &buckets), &buckets, Some(0), Some(100)).is_empty());
}

#[test]
fn buckets_are_probed_from_the_newest_back() {
    assert_eq!(Region::next_bucket_to_probe(0, &[]), None);
    assert_eq!(Region::next_bucket_to_probe(3, &[]), Some(2));
    assert_eq!(Region::next_bucket_to_probe(3, &[None]), Some(1));
    assert_eq!(Region::next_bucket_to_probe(3, &[None, None]), Some(0));
    assert_eq!(Region::next_bucket_to_probe(3, &[None, None, None]), None);
    assert_eq!(Region::next_bucket_to_probe(3, &[None, Some(4)]), None);
    assert_eq!(Region::next_bucket_to_probe(3, &[Some(4)]), None);

    // The newest bucket that holds a record decides, and older ones are not
    // looked at: the records of bucket 0 lie above those of bucket 1 here.
    let mut buckets = vec![
        MemoryTable::default(),
        MemoryTable::default(),
        MemoryTable::default(),
    ];
    let mut writer = Region::open_or_create(5, RegionEntry::new(5), &[Some(40)]);
    let (batch, _) = writer.write_log(&batch_of(5, 2)).unwrap();
    buckets[0].write(batch).unwrap();
    let mut writer = Region::open_or_create(5, RegionEntry::new(5), &[Some(10)]);
    let (batch, _) = writer.write_log(&batch_of(5, 2)).unwrap();
    buckets[1].write(batch).unwrap();
    assert_eq!(open_region(5, &buckets).last_sequence(), 12);
}

#[test]
fn last_sequence_comes_from_the_newest_bucket() {
    assert_eq!(Region::load_last_sequence(&[]), 0);
    assert_eq!(Region::load_last_sequence(&[None, None]), 0);
    assert_eq!(Region::load_last_sequence(&[Some(5), Some(9), None]), 9);
    assert_eq!(Region::load_last_sequence(&[Some(5), None, None]), 5);

    assert_eq!(Region::load_last_sequence_from_table(None), Ok(None));
    let encoding = LogEncoding::newest();
    let mut key = Vec::new();
    encoding.encode_key(&mut key, &(4, 77)).unwrap();
    assert_eq!(Region::load_last_sequence_from_table(Some(&key)), Ok(Some(77)));
    // A meta key is skipped, an empty key and a broken log key are failures.
    assert_eq!(
        Region::load_last_sequence_from_table(Some(&[0, 0, 0, 0, 0, 0, 0, 0, 0, 4, 0])),
        Ok(None)
    );
    assert_eq!(
        Region::load_last_sequence_from_table(Some(&[])),
        Err(Error::LogCodec {
            source: CodecError::DecodeLogKey
        })
    );
    assert_eq!(
        Region::load_last_sequence_from_table(Some(&key[..10])),
        Err(Error::LogCodec {
            source: CodecError::DecodeLogKey
        })
    );

    let req = Region::last_sequence_scan_request(4).unwrap();
    assert!(req.reverse);
    let mut min_key = Vec::new();
    encoding.encode_key(&mut min_key, &(4, 0)).unwrap();
    let mut max_key = Vec::new();
    encoding.encode_key(&mut max_key, &(4, u64::MAX)).unwrap();
    assert_eq!(req.start, KeyBoundary::Included(min_key));
    assert_eq!(req.end, KeyBoundary::Included(max_key));
}

#[test]
fn open_needs_an_entry() {
    assert!(Region::open(1, None, &[Some(3)]).is_none());
    let region = Region::open(
        1,
        Some(RegionEntry {
            region_id: 1,
            start_sequence: 2,
        }),
        &[Some(3)],
    )
    .unwrap();
    assert_eq!(region.start_sequence(), 2);
    assert_eq!(region.last_sequence(), 3);

    let mut writer = RegionWriter;
    let entry = RegionEntry::new(1);
    assert_eq!(
        writer.insert_or_load_region_entry(entry, InsertOutcome::Inserted),
        InsertResolution::Created(entry)
    );
    assert_eq!(
        writer.insert_or_load_region_entry(entry, InsertOutcome::PrimaryKeyDuplicate),
        InsertResolution::LoadExisting
    );
    assert_eq!(
        writer.insert_or_load_region_entry(entry, InsertOutcome::Failed),
        InsertResolution::Failed(Error::WriteValue { region_id: 1 })
    );
    assert_eq!(writer.existing_region_entry(1, Some(entry)), Ok(entry));
    assert_eq!(
        writer.existing_region_entry(1, None),
        Err(Error::RegionNotExists { region_id: 1 })
    );
}

#[test]
fn read_goes_through_the_buckets_in_order() {
    let mut buckets = vec![
        MemoryTable::default(),
        MemoryTable::default(),
        MemoryTable::default(),
        MemoryTable::default(),
    ];
    let mut region = open_region(5, &buckets);
    let (batch, _) = region.write_log(&batch_of(5, 3)).unwrap();
    buckets[1].write(batch).unwrap();
    let (batch, _) = region.write_log(&batch_of(5, 4)).unwrap();
    buckets[3].write(batch).unwrap();

    let all = read_all(&region, &buckets, Some(0), Some(u64::MAX));
    assert_eq!(
        all.iter().map(|entry| entry.1).collect::<Vec<u64>>(),
        vec![1, 2, 3, 4, 5, 6, 7]
    );
    let some = read_all(&region, &buckets, Some(3), Some(5));
    assert_eq!(
        some.iter().map(|entry| entry.1).collect::<Vec<u64>>(),
        vec![3, 4, 5]
    );
    // A request without a start or without an end finds nothing, and so does
    // one that starts behind its end.
    assert!(read_all(&region, &buckets, None, Some(5)).is_empty());
    assert!(read_all(&region, &buckets, Some(1), None).is_empty());
    assert!(read_all(&region, &buckets, Some(6), Some(5)).is_empty());
    // The request is cut down to the live log.
    region.set_start_sequence(6);
    let live = read_all(&region, &buckets, Some(0), Some(100));
    assert_eq!(
        live.iter().map(|entry| entry.1).collect::<Vec<u64>>(),
        vec![6, 7]
    );

    assert!(buckets_in_order(&[]));
    assert!(buckets_in_order(&[1, 2, 5]));
    assert!(!buckets_in_order(&[1, 2, 2]));
    assert!(!buckets_in_order(&[3, 1]));
}

#[test]
fn iterator_reports_what_it_cannot_decode() {
    let encoding = LogEncoding::newest();
    let mut key = Vec::new();
    encoding.encode_key(&mut key, &(5, 1)).unwrap();

    let mut iter = TableLogIterator::new(vec![0], (5, 0), (5, 10));
    assert!(!iter.no_more_data());
    assert_eq!(iter.scan_buckets(), Some(0));
    assert!(matches!(
        iter.next_step(),
        Ok(ReadStep::Scan { bucket: 0, .. })
    ));
    iter.scan_opened(true);
    assert!(iter.is_scanning());
    assert_eq!(iter.next_step(), Ok(ReadStep::Fetch));
    let mut meta_key = key.clone();
    meta_key[0] = 0;
    assert_eq!(
        iter.next_log_entry(&meta_key, &[0, 1, 2]),
        Err(manager::Error::Decoding {
            source: CodecError::InvalidNamespace {
                expect: Namespace::Log,
                given: 0
            }
        })
    );
    assert_eq!(
        iter.next_log_entry(&key, &[9, 1, 2]),
        Err(manager::Error::Encoding {
            source: CodecError::InvalidVersion {
                expect: 0,
                given: 9
            }
        })
    );
    assert_eq!(
        iter.next_log_entry(&key, &[]),
        Err(manager::Error::Encoding {
            source: CodecError::DecodeLogValueHeader
        })
    );
    iter.next_log_entry(&key, &[0, 1, 2]).unwrap();
    let entry = iter.log_entry();
    assert_eq!((entry.table_id, entry.sequence), (5, 1));
    assert_eq!(entry.payload, &[1, 2]);
    iter.step_current_iter(false);
    assert!(!iter.is_scanning());
    assert_eq!(iter.scan_buckets(), None);
    assert!(iter.no_more_data());
    assert_eq!(iter.next_step(), Ok(ReadStep::Finished));

    let empty = TableLogIterator::new_empty();
    assert!(empty.no_more_data());
}

#[test]
fn cleaner_hands_out_full_batches() {
    let region = Region::open_or_create(1, RegionEntry::new(1), &[]);
    let ctx = CleanContext {
        scan_timeout: Duration::from_secs(1),
        batch_size: 3,
    };
    let mut cleaner = region.clean_logs_from_iter(&ctx);
    assert!(cleaner.delete(&[1]).is_none());
    assert!(cleaner.delete(&[2]).is_none());
    let full = cleaner.delete(&[3]).unwrap();
    assert_eq!(
        full.ops,
        vec![
            WriteOp::Delete { key: vec![1] },
            WriteOp::Delete { key: vec![2] },
            WriteOp::Delete { key: vec![3] },
        ]
    );
    assert!(cleaner.delete(&[4]).is_none());
    let rest = cleaner.finish();
    assert_eq!(rest.ops, vec![WriteOp::Delete { key: vec![4] }]);
    assert!(cleaner.finish().is_empty());
    assert_eq!(cleaner.total_deleted(), 4);

    // A batch size of nothing writes every key by itself.
    let ctx = CleanContext {
        scan_timeout: Duration::from_secs(1),
        batch_size: 0,
    };
    let mut cleaner = LogCleaner::new(&ctx);
    assert_eq!(cleaner.delete(&[7]).unwrap().len(), 1);
    assert_eq!(cleaner.delete(&[8]).unwrap().len(), 1);
    assert!(cleaner.finish().is_empty());
}

#[test]
fn clean_scans_below_the_start_sequence() {
    let region = Region::open_or_create(
        9,
        RegionEntry {
            region_id: 9,
            start_sequence: 51,
        },
        &[Some(100)],
    );
    let ctx = CleanContext {
        scan_timeout: Duration::from_secs(3),
        batch_size: 1_usize << 40,
    };
    let (scan_ctx, req) = region.clean_deleted_logs(&ctx).unwrap();
    assert_eq!(scan_ctx.timeout, Duration::from_secs(3));
    assert_eq!(scan_ctx.batch_size, 100);
    assert_eq!(CleanContext::default().scan_context().batch_size, 100);
    let small = CleanContext {
        scan_timeout: Duration::from_secs(3),
        batch_size: 7,
    };
    assert_eq!(small.scan_context().batch_size, 7);

    let encoding = LogEncoding::newest();
    let mut min_key = Vec::new();
    encoding.encode_key(&mut min_key, &(9, 0)).unwrap();
    let mut max_key = Vec::new();
    encoding.encode_key(&mut max_key, &(9, 51)).unwrap();
    assert_eq!(
        req,
        ScanRequest {
            start: KeyBoundary::Included(min_key),
            end: KeyBoundary::Excluded(max_key),
            reverse: false,
        }
    );
}

#[test]
fn write_batch_keeps_its_changes_in_order() {
    let mut batch = WriteBatch::with_capacity(4);
    assert!(batch.is_empty());
    batch.insert(&[1], &[10]);
    batch.insert_or_update(&[2], &[20]);
    batch.delete(&[3]);
    assert_eq!(batch.len(), 3);
    assert_eq!(
        batch.ops,
        vec![
            WriteOp::Insert {
                key: vec![1],
                value: vec![10]
            },
            WriteOp::InsertOrUpdate {
                key: vec![2],
                value: vec![20]
            },
            WriteOp::Delete { key: vec![3] },
        ]
    );
    assert_eq!(
        KeyBoundary::included(&[1, 2]),
        KeyBoundary::Included(vec![1, 2])
    );
    assert_eq!(
        KeyBoundary::excluded(&[1, 2]),
        KeyBoundary::Excluded(vec![1, 2])
    );
}
