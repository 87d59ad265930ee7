use wal::kv_encoder::{LogBatchEncoder, LogEncoding};
use wal::log_batch::{Location, Payload};
use wal::payload::{write_header, Header, WritePayload, HEADER_SIZE};

#[test]
fn write_payload_stands_behind_its_header() {
    assert_eq!(Header::Write.to_u8(), 1);
    assert_eq!(HEADER_SIZE, 1);

    let data = vec![7_u8, 8, 9];
    let payload = WritePayload::from(&data);
    assert_eq!(payload.0, &[7, 8, 9]);
    assert_eq!(payload.encode_size(), 4);
    let mut buf = vec![0xff];
    payload.encode_to(&mut buf).unwrap();
    assert_eq!(buf, vec![0xff, 1, 7, 8, 9]);

    let mut buf = Vec::new();
    write_header(Header::Write, &mut buf).unwrap();
    assert_eq!(buf, vec![1]);

    let empty = WritePayload(&[]);
    assert_eq!(empty.encode_size(), 1);
}

#[test]
fn write_payload_goes_through_the_log_encoding() {
    let data = vec![5_u8, 6];
    let payload = WritePayload::from(&data);
    let encoding = LogEncoding::newest();
    let mut buf = vec![1, 2, 3];
    encoding.encode_value(&mut buf, &payload).unwrap();
    assert_eq!(buf, vec![0, 1, 5, 6]);
    assert_eq!(encoding.decode_value(&buf).unwrap(), &[1, 5, 6]);

    let batch = LogBatchEncoder::create(Location::new(2, 40))
        .encode(&payload)
        .unwrap();
    assert_eq!(batch.location, Location::new(2, 40));
    assert_eq!(batch.len(), 1);
    assert!(!batch.is_empty());
    assert_eq!(batch.entries[0].payload, vec![0, 1, 5, 6]);

    let other = vec![9_u8];
    let payloads = [WritePayload::from(&data), WritePayload::from(&other)];
    let batch = LogBatchEncoder::create(Location::new(2, 40))
        .encode_batch(&payloads)
        .unwrap();
    assert_eq!(batch.len(), 2);
    assert_eq!(batch.entries[0].payload, vec![0, 1, 5, 6]);
    assert_eq!(batch.entries[1].payload, vec![0, 1, 9]);
}
