use bitcask_core::data::{LogRecord, LogRecordStatus};
use bitcask_core::data_file::DataFile;
use bitcask_core::errors::Errors;
use bitcask_core::io::{IoManager, MemIoManager};

fn record(key: &[u8], val: &[u8], status: LogRecordStatus) -> LogRecord {
    LogRecord { key: key.to_vec(), val: val.to_vec(), status }
}

#[test]
fn test_data_file() {
    let mut df = DataFile::new(666, MemIoManager::new());

    let lg = LogRecord {
        key: "key".into(),
        val: "val".into(),
        status: LogRecordStatus::Normal,
    };

    let write_size = df.write(&lg).unwrap_or_else(|e| {
        panic!("Write failed with error: {:?}", e);
    });

    let (read_lg, read_size) = df.read(0).unwrap_or_else(|e| {
        panic!("Read failed with error: {:?}", e);
    });
    assert_eq!(write_size, read_size);
    assert_eq!(lg, read_lg, "The written and read log records do not match");
}

#[test]
fn encode_k1_v1_is_eleven_bytes() {
    let lg = record(b"k1", b"v1", LogRecordStatus::Normal);
    let bytes = lg.encode();
    assert_eq!(bytes.len(), 11);
    assert_eq!(lg.encoded_length(), 11);
    assert_eq!(&bytes[4..], &[1u8, 2, 2, b'k', b'1', b'v', b'1'][..]);
    let crc = lg.crc();
    assert_eq!(crc, 0xed26_074e);
    assert_eq!(&bytes[0..4], &[0x4e, 0x07, 0x26, 0xed][..]);
}

#[test]
fn crc_is_crc32_of_the_body() {
    let lg = record(b"k1", b"v1", LogRecordStatus::Normal);
    let bytes = lg.encode();
    assert_eq!(record(b"key", b"value", LogRecordStatus::Normal).crc(), 0xa8de_bcef);
    let other = record(b"k1", b"v2", LogRecordStatus::Normal);
    assert_ne!(lg.crc(), other.crc());
    assert_eq!(u32::from_le_bytes([bytes[0], bytes[1], bytes[2], bytes[3]]), lg.crc());
}

#[test]
fn end_to_end_k1_v1() {
    let lg = record(b"k1", b"v1", LogRecordStatus::Normal);
    let mut df = DataFile::new(1, MemIoManager::new());
    assert_eq!(df.write_offset, 0);
    let n = df.write(&lg).unwrap();
    assert_eq!(n, 11);
    assert_eq!(df.write_offset, 11);
    let (back, used) = df.read(0).unwrap();
    assert_eq!(back, lg);
    assert_eq!(used, 11);
}

#[test]
fn round_trip_normal_and_deleted() {
    for status in [LogRecordStatus::Normal, LogRecordStatus::Deleted] {
        let lg = record(b"some key", b"some value", status);
        let bytes = lg.encode();
        let (back, used) = LogRecord::decode(&bytes).unwrap();
        assert_eq!(back, lg);
        assert_eq!(used, bytes.len());
    }
}

#[test]
fn round_trip_long_fields_use_multibyte_lengths() {
    let key = vec![7u8; 200];
    let val = vec![9u8; 20000];
    let lg = record(&key, &val, LogRecordStatus::Normal);
    let bytes = lg.encode();
    // 4 crc + 1 status + 2 (200) + 3 (20000)
    assert_eq!(bytes.len(), 10 + 200 + 20000);
    assert_eq!(&bytes[5..10], &[0xc8u8, 0x01, 0xa0, 0x9c, 0x01][..]);
    let (back, used) = LogRecord::decode(&bytes).unwrap();
    assert_eq!(back, lg);
    assert_eq!(used, bytes.len());
}

#[test]
fn decode_ignores_trailing_bytes() {
    let lg = record(b"a", b"b", LogRecordStatus::Deleted);
    let mut bytes = lg.encode();
    bytes.extend_from_slice(&[0xff; 20]);
    let (back, used) = LogRecord::decode(&bytes).unwrap();
    assert_eq!(back, lg);
    assert_eq!(used, 9);
}

#[test]
fn sequential_write_read() {
    let r1 = record(b"k1", b"v1", LogRecordStatus::Normal);
    let r2 = record(b"key-two", b"value two", LogRecordStatus::Deleted);
    let r3 = record(b"k3", &[0u8; 300], LogRecordStatus::Normal);
    let mut df = DataFile::new(7, MemIoManager::new());
    let o1 = df.write_offset;
    let n1 = df.write(&r1).unwrap();
    let o2 = df.write_offset;
    let n2 = df.write(&r2).unwrap();
    let o3 = df.write_offset;
    let n3 = df.write(&r3).unwrap();
    assert_eq!((o1, o2, o3), (0, n1 as u32, (n1 + n2) as u32));
    assert_eq!(df.read(o1 as u64).unwrap(), (r1, n1));
    assert_eq!(df.read(o2 as u64).unwrap(), (r2, n2));
    assert_eq!(df.read(o3 as u64).unwrap(), (r3, n3));
    assert_eq!(df.read((n1 + n2 + n3) as u64), Err(Errors::ReadDataFileEOF));
}

#[test]
fn zero_key_size_is_end_of_log() {
    // crc, status, key_size 0, val_size 2, then a body
    let bytes = vec![1u8, 2, 3, 4, 1, 0, 2, b'v', b'1', 9, 9, 9, 9, 9, 9, 9];
    assert_eq!(LogRecord::decode(&bytes), Err(Errors::ReadDataFileEOF));
    let df = DataFile::new(0, MemIoManager::from_bytes(bytes));
    assert_eq!(df.read(0), Err(Errors::ReadDataFileEOF));
}

#[test]
fn zero_val_size_is_end_of_log() {
    let bytes = vec![0u8, 0, 0, 0, 2, 2, 0, b'k', b'1'];
    assert_eq!(LogRecord::decode(&bytes), Err(Errors::ReadDataFileEOF));
}

#[test]
fn flipped_bits_in_key_value_or_crc_are_corruption() {
    let lg = record(b"key", b"value", LogRecordStatus::Normal);
    let bytes = lg.encode();
    let body_start = 7;
    for i in (0..4).chain(body_start..bytes.len()) {
        for bit in 0..8 {
            let mut bad = bytes.clone();
            bad[i] ^= 1 << bit;
            assert_eq!(LogRecord::decode(&bad), Err(Errors::InvalidLogRecordCRC), "byte {} bit {}", i, bit);
        }
    }
}

#[test]
fn flipped_status_bit_is_a_format_error() {
    let lg = record(b"key", b"value", LogRecordStatus::Normal);
    let mut bytes = lg.encode();
    bytes[4] ^= 0x02;
    assert_eq!(LogRecord::decode(&bytes), Err(Errors::InvalidLogRecordStatus));
}

#[test]
fn unknown_status_byte_is_rejected() {
    assert_eq!(LogRecordStatus::from_byte(1), Ok(LogRecordStatus::Normal));
    assert_eq!(LogRecordStatus::from_byte(2), Ok(LogRecordStatus::Deleted));
    assert_eq!(LogRecordStatus::from_byte(0), Err(Errors::InvalidLogRecordStatus));
    assert_eq!(LogRecordStatus::from_byte(3), Err(Errors::InvalidLogRecordStatus));
    assert_eq!(LogRecordStatus::Deleted.to_byte(), 2);
    assert_eq!(LogRecordStatus::default(), LogRecordStatus::Normal);
}

#[test]
fn truncated_body_is_out_of_bounds() {
    let lg = record(b"key", b"value", LogRecordStatus::Normal);
    let bytes = lg.encode();
    let cut = bytes[..bytes.len() - 1].to_vec();
    assert_eq!(LogRecord::decode(&cut), Err(Errors::OutOfBounds));
    let df = DataFile::new(0, MemIoManager::from_bytes(cut));
    assert_eq!(df.read(0), Err(Errors::OutOfBounds));
}

#[test]
fn short_header_near_end_is_end_of_log() {
    let df = DataFile::new(0, MemIoManager::from_bytes(vec![1, 2, 3]));
    assert_eq!(df.read(0), Err(Errors::ReadDataFileEOF));
    assert_eq!(df.read(3), Err(Errors::ReadDataFileEOF));
    assert_eq!(df.read(100), Err(Errors::ReadDataFileEOF));
    // a length field that the available bytes cut short
    assert_eq!(LogRecord::decode(&[0, 0, 0, 0, 1, 0x80]), Err(Errors::ReadDataFileEOF));
}

#[test]
fn malformed_length_field_is_rejected() {
    // a six-byte length field in a full-size header
    let bytes = vec![0u8, 0, 0, 0, 1, 0x80, 0x80, 0x80, 0x80, 0x80, 0x01, 1, 0, 0, 0];
    assert_eq!(LogRecord::decode(&bytes), Err(Errors::InvalidLogRecordLength));
    // a padded, non-minimal encoding of 1
    let bytes = vec![0u8, 0, 0, 0, 1, 0x81, 0x00, 1, 0, 0, 0, 0, 0, 0, 0];
    assert_eq!(LogRecord::decode(&bytes), Err(Errors::InvalidLogRecordLength));
}

#[test]
fn header_size_limit() {
    assert_eq!(LogRecord::max_log_record_header_size(), 15);
}

#[test]
fn memory_medium_reads_and_bounds() {
    let mut m = MemIoManager::new();
    assert_eq!(m.write(b"Hello, test!"), Ok(12));
    assert_eq!(m.size(), Ok(12));
    let mut buf = vec![0u8; 5];
    assert_eq!(m.read(&mut buf, 7), Ok(5));
    assert_eq!(buf, b"test!");
    assert_eq!(m.read(&mut buf, 8), Err(Errors::OutOfBounds));
    assert_eq!(m.sync(), Ok(()));
    assert_eq!(m.bytes(), b"Hello, test!");
}
