use bitcask_rs::batch::{log_record_key_parse, log_record_key_with_sequence, LogRecordKey};
use bitcask_rs::data_file::{generate_datafile_name, parse_datafile_name, sort_file_ids, DataFile};
use bitcask_rs::error::Errors;
use bitcask_rs::fio::{IOManager, MemoryIO};
use bitcask_rs::log_record::{log_record_max_size, LogRecord, LogRecordType};

fn get_test_key(i: usize) -> Vec<u8> {
    format!("bitcast-rs-test-key-{:09}", i).into_bytes()
}

#[test]
fn test_log_record_encode_and_crc() {
    let rec = LogRecord {
        key: "my-key".as_bytes().to_vec(),
        value: "my_value".as_bytes().to_vec(),
        record_type: LogRecordType::Normal,
    };
    let (vec, crc) = rec.encode_and_crc();
    assert_eq!(vec.len(), 21);
    assert_eq!(crc, 1579242186);

    let rec = LogRecord {
        key: "my-key-1".as_bytes().to_vec(),
        value: vec![],
        record_type: LogRecordType::Normal,
    };
    let (vec, crc) = rec.encode_and_crc();
    assert_eq!(vec.len(), 15);
    assert_eq!(crc, 4164702405);

    let rec = LogRecord {
        key: "my-key-1".as_bytes().to_vec(),
        value: vec![],
        record_type: LogRecordType::Deleted,
    };
    let (vec, crc) = rec.encode_and_crc();
    assert_eq!(vec.len(), 15);
    assert_eq!(crc, 1641952964);
}

#[test]
fn test_log_record_key_with_sequence() {
    let serialized_key = log_record_key_with_sequence(&get_test_key(101), &get_test_key(201), 89);
    assert_eq!(
        log_record_key_parse(&serialized_key),
        Ok(LogRecordKey { prefix: get_test_key(201), seq_id: 89, key: get_test_key(101) })
    );
}

#[test]
fn encoded_layout_is_exact() {
    let rec = LogRecord { key: b"ab".to_vec(), value: b"xyz".to_vec(), record_type: LogRecordType::Deleted };
    let (bytes, crc) = rec.encode_and_crc();
    assert_eq!(&bytes[..8], &[2u8, 2, 3, b'a', b'b', b'x', b'y', b'z'][..]);
    assert_eq!(&bytes[8..], &crc.to_le_bytes()[..]);
    assert_eq!(crc, crc32fast::hash(&bytes[..8]));
    assert_eq!(rec.get_crc(), crc);
    assert_eq!(rec.encode(), bytes);
    assert_eq!(rec.encoded_length(), bytes.len());
}

#[test]
fn long_lengths_use_multi_byte_varints() {
    let rec = LogRecord { key: vec![7u8; 300], value: vec![], record_type: LogRecordType::Normal };
    let bytes = rec.encode();
    assert_eq!(&bytes[..4], &[1u8, 0xac, 0x02, 0][..]);
    assert_eq!(bytes.len(), 1 + 2 + 1 + 300 + 4);
}

#[test]
fn max_header_size() {
    assert_eq!(log_record_max_size(), 15);
}

#[test]
fn malformed_key_framing_is_refused() {
    assert_eq!(log_record_key_parse(&[5u8, b'a']), Err(Errors::DecodingError));
    assert_eq!(log_record_key_parse(&[]), Err(Errors::DecodingError));
    assert_eq!(log_record_key_parse(&[0u8, 0x80]), Err(Errors::DecodingError));
}

fn file_with(records: &[LogRecord]) -> DataFile<MemoryIO> {
    let mut f: DataFile<MemoryIO> = DataFile::new("bitcast-rs", 3).expect("create");
    for r in records {
        let bytes = r.encode();
        assert_eq!(f.write(&bytes), Ok(bytes.len()));
    }
    f
}

#[test]
fn data_file_reads_back_records() {
    let a = LogRecord { key: b"\0sdaas".to_vec(), value: b"dasdsadsadea\0dsada\0".to_vec(), record_type: LogRecordType::Normal };
    let b = LogRecord { key: b"ssdda\0sdaas".to_vec(), value: vec![], record_type: LogRecordType::Deleted };
    let f = file_with(&[a, b]);
    assert_eq!(f.file_id(), 3);
    let r1 = f.read_log_record(0).expect("first record");
    assert_eq!(r1.record.key, b"\0sdaas".to_vec());
    assert_eq!(r1.record.value, b"dasdsadsadea\0dsada\0".to_vec());
    assert_eq!(r1.record.record_type, LogRecordType::Normal);
    let r2 = f.read_log_record(r1.size).expect("second record");
    assert_eq!(r2.record.key, b"ssdda\0sdaas".to_vec());
    assert_eq!(r2.record.record_type, LogRecordType::Deleted);
    assert_eq!(r1.size + r2.size, f.get_offset());
    assert!(matches!(f.read_log_record(f.get_offset()), Err(Errors::ReadEOF)));
}

#[test]
fn corrupted_byte_is_detected() {
    let rec = LogRecord { key: b"some key".to_vec(), value: b"some string".to_vec(), record_type: LogRecordType::Normal };
    let bytes = rec.encode();
    for i in (0..1).chain(3..bytes.len()) {
        let mut damaged = bytes.clone();
        damaged[i] ^= 0x01;
        let mut io = MemoryIO::new();
        assert_eq!(io.write(&damaged), Ok(damaged.len()));
        let f = DataFile::from_io(0, io);
        assert!(matches!(f.read_log_record(0), Err(Errors::DatabaseFileCorrupted)), "byte {}", i);
    }
}

#[test]
fn partial_record_reads_as_end() {
    let rec = LogRecord { key: b"some key".to_vec(), value: b"some string".to_vec(), record_type: LogRecordType::Normal };
    let bytes = rec.encode();
    let mut io = MemoryIO::new();
    assert_eq!(io.write(&bytes[..bytes.len() - 2]), Ok(bytes.len() - 2));
    let f = DataFile::from_io(0, io);
    assert!(matches!(f.read_log_record(0), Err(Errors::ReadEOF)));
}

#[test]
fn unknown_record_type_is_corruption() {
    let mut io = MemoryIO::new();
    assert_eq!(io.write(&[9u8, 1, 0, b'k', 0, 0, 0, 0]), Ok(8));
    let f = DataFile::from_io(0, io);
    assert!(matches!(f.read_log_record(0), Err(Errors::DatabaseFileCorrupted)));
}

#[test]
fn data_file_sync_and_truncate() {
    let rec = LogRecord { key: b"k".to_vec(), value: b"some string".to_vec(), record_type: LogRecordType::Normal };
    let mut f = file_with(&[rec]);
    let end = f.get_offset();
    assert_eq!(f.write(&[1, 2, 3]), Ok(3));
    assert_eq!(f.sync(), Ok(()));
    assert_eq!(f.get_offset(), end + 3);
    assert_eq!(f.set_offset(end), Ok(()));
    assert_eq!(f.get_offset(), end);
    assert!(matches!(f.read_log_record(end), Err(Errors::ReadEOF)));
}

#[test]
fn datafile_names() {
    assert_eq!(generate_datafile_name(0), b"000000000.bcdata".to_vec());
    assert_eq!(generate_datafile_name(42), b"000000042.bcdata".to_vec());
    assert_eq!(generate_datafile_name(4294967295), b"4294967295.bcdata".to_vec());
    assert_eq!(parse_datafile_name(b"000000042.bcdata"), Ok(Some(42)));
    assert_eq!(parse_datafile_name(b"4294967295.bcdata"), Ok(Some(4294967295)));
    assert_eq!(parse_datafile_name(b"4294967296.bcdata"), Err(Errors::DatabaseFileCorrupted));
    assert_eq!(parse_datafile_name(b"x1.bcdata"), Err(Errors::DatabaseFileCorrupted));
    assert_eq!(parse_datafile_name(b".bcdata"), Err(Errors::DatabaseFileCorrupted));
    assert_eq!(parse_datafile_name(b"000000001.hint"), Ok(None));
    assert_eq!(parse_datafile_name(b"_merge.flag"), Ok(None));
    assert_eq!(sort_file_ids(vec![3, 1, 2, 1]), vec![1, 1, 2, 3]);
    assert_eq!(sort_file_ids(vec![]), Vec::<u32>::new());
}
