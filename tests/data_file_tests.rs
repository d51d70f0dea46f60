use bitcask_rs::data_file::DataFile;
use bitcask_rs::fio::MemoryIO;
use bitcask_rs::log_record::{LogRecord, LogRecordType};

#[test]
fn test_datafile_new() {

    let datafile_0 = DataFile::<MemoryIO>::new("bitcast-rs", 0);
    assert!(datafile_0.is_ok());
    assert_eq!(datafile_0.unwrap().file_id(), 0);

    let datafile_1 = DataFile::<MemoryIO>::new("bitcast-rs", 1);
    assert!(datafile_1.is_ok());
    assert_eq!(datafile_1.unwrap().file_id(), 1);

    let datafile_2 = DataFile::<MemoryIO>::new("bitcast-rs", 0);
    assert!(datafile_2.is_ok());
    assert_eq!(datafile_2.unwrap().file_id(), 0);

    let datafile_3 = DataFile::<MemoryIO>::new("bitcast-rs", 1);
    assert!(datafile_3.is_ok());
    assert_eq!(datafile_3.unwrap().file_id(), 1);
}

#[test]
fn test_data_file_write() {

    let datafile_0 = DataFile::<MemoryIO>::new("bitcast-rs", 0);
    assert!(datafile_0.is_ok());

    let datafile_1 = DataFile::<MemoryIO>::new("bitcast-rs", 1);
    assert!(datafile_1.is_ok());

    let datafile_2 = DataFile::<MemoryIO>::new("bitcast-rs", 0);
    assert!(datafile_2.is_ok());

    let datafile_3 = DataFile::<MemoryIO>::new("bitcast-rs", 1);
    assert!(datafile_3.is_ok());

    let mut datafile_0 = datafile_0.unwrap();
    let mut datafile_1 = datafile_1.unwrap();
    let mut datafile_2 = datafile_2.unwrap();
    let mut datafile_3 = datafile_3.unwrap();
    assert!(datafile_0.write("some string".as_bytes()).is_ok());
    assert!(datafile_0.write("\0".as_bytes()).is_ok());
    assert!(datafile_0.write(&Vec::<u8>::new()).is_ok());

    assert!(datafile_1.write("some string".as_bytes()).is_ok());
    assert!(datafile_1.write("\0".as_bytes()).is_ok());
    assert!(datafile_1.write(&Vec::<u8>::new()).is_ok());

    assert!(datafile_2.write("some string".as_bytes()).is_ok());
    assert!(datafile_2.write("\0".as_bytes()).is_ok());
    assert!(datafile_2.write(&Vec::<u8>::new()).is_ok());

    assert!(datafile_3.write("some string".as_bytes()).is_ok());
    assert!(datafile_3.write("\0".as_bytes()).is_ok());
    assert!(datafile_3.write(&Vec::<u8>::new()).is_ok());
}

#[test]
fn test_data_file_read_record() {
    let mut offset: u64 = 0;

    let datafile = DataFile::<MemoryIO>::new("bitcast-rs", 0);
    assert!(datafile.is_ok());

    let mut datafile = datafile.unwrap();

    let rec1 = LogRecord {
        key: "\0".as_bytes().to_vec(),
        value: Default::default(),
        record_type: LogRecordType::Normal,
    };
    let (data, crc1) = (rec1.encode(), rec1.get_crc());
    let size = datafile.write(&data);
    assert!(size.is_ok());
    let pos1 = offset;
    offset += size.unwrap() as u64;

    let read_rec = datafile.read_log_record(pos1);
    assert!(read_rec.is_ok());
    let read_rec = read_rec.unwrap();
    assert_eq!(rec1, read_rec.record);
    assert_eq!(crc1, read_rec.record.get_crc());

    let rec2 = LogRecord {
        key: "\0sdaas".as_bytes().to_vec(),
        value: "dasdsadsadea\0dsada\0".as_bytes().to_vec(),
        record_type: LogRecordType::Normal,
    };
    let (data, crc2) = (rec2.encode(), rec2.get_crc());
    let size = datafile.write(&data);
    assert!(size.is_ok());
    let pos2 = offset;
    offset += size.unwrap() as u64;

    let read_rec = datafile.read_log_record(pos2);
    let read_rec = read_rec.unwrap();
    assert_eq!(rec2, read_rec.record);
    assert_eq!(crc2, read_rec.record.get_crc());

    let read_rec = datafile.read_log_record(pos1);
    assert!(read_rec.is_ok());
    let read_rec = read_rec.unwrap();
    assert_eq!(rec1, read_rec.record);
    assert_eq!(crc1, read_rec.record.get_crc());

    let rec3 = LogRecord {
        key: "ssdda\0sdaas".as_bytes().to_vec(),
        value: Default::default(),
        record_type: LogRecordType::Deleted,
    };
    let (data, crc3) = (rec3.encode(), rec3.get_crc());
    let size = datafile.write(&data);
    assert!(size.is_ok());
    let pos3 = offset;

    let read_rec = datafile.read_log_record(pos2);
    let read_rec = read_rec.unwrap();
    assert_eq!(rec2, read_rec.record);
    assert_eq!(crc2, read_rec.record.get_crc());

    let read_rec = datafile.read_log_record(pos1);
    assert!(read_rec.is_ok());
    let read_rec = read_rec.unwrap();
    assert_eq!(rec1, read_rec.record);
    assert_eq!(crc1, read_rec.record.get_crc());

    let read_rec = datafile.read_log_record(pos3);
    assert!(read_rec.is_ok());
    let read_rec = read_rec.unwrap();
    assert_eq!(rec3, read_rec.record);
    assert_eq!(crc3, read_rec.record.get_crc());
}

#[test]
fn data_file_test_file_sync() {

    let datafile_0 = DataFile::<MemoryIO>::new("bitcast-rs", 0);
    assert!(datafile_0.is_ok());

    let datafile_1 = DataFile::<MemoryIO>::new("bitcast-rs", 1);
    assert!(datafile_1.is_ok());

    let datafile_2 = DataFile::<MemoryIO>::new("bitcast-rs", 0);
    assert!(datafile_2.is_ok());

    let datafile_3 = DataFile::<MemoryIO>::new("bitcast-rs", 1);
    assert!(datafile_3.is_ok());

    let mut datafile_0 = datafile_0.unwrap();
    let mut datafile_1 = datafile_1.unwrap();
    let mut datafile_2 = datafile_2.unwrap();
    let mut datafile_3 = datafile_3.unwrap();
    assert!(datafile_0.write("some string".as_bytes()).is_ok());
    assert!(datafile_0.write("\0".as_bytes()).is_ok());
    assert!(datafile_0.write(&Vec::<u8>::new()).is_ok());

    assert!(datafile_1.write("some string".as_bytes()).is_ok());
    assert!(datafile_1.write("\0".as_bytes()).is_ok());
    assert!(datafile_1.write(&Vec::<u8>::new()).is_ok());

    assert!(datafile_2.write("some string".as_bytes()).is_ok());
    assert!(datafile_2.write("\0".as_bytes()).is_ok());
    assert!(datafile_2.write(&Vec::<u8>::new()).is_ok());

    assert!(datafile_3.write("some string".as_bytes()).is_ok());
    assert!(datafile_3.write("\0".as_bytes()).is_ok());
    assert!(datafile_3.write(&Vec::<u8>::new()).is_ok());

    assert!(datafile_0.sync().is_ok());
    assert!(datafile_0.sync().is_ok());
    assert!(datafile_1.sync().is_ok());
    assert!(datafile_2.sync().is_ok());
    assert!(datafile_3.sync().is_ok());
}
