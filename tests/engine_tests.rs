use std::collections::HashMap;

use bitcask_rs::db::Engine;
use bitcask_rs::error::Errors;
use bitcask_rs::fio::MemoryIO;
use bitcask_rs::log_record::{LogRecord, LogRecordType};
use bitcask_rs::options::{IndexIteratorOptions, Options, WriteBatchOptions};

fn get_test_key(i: usize) -> Vec<u8> {
    format!("bitcast-rs-test-key-{:09}", i).into_bytes()
}

fn get_test_value(i: usize) -> Vec<u8> {
    format!(
        "bitcast-rs-test-value-value-value-value-value-value-value-value-value-value-value-{:09}",
        i
    )
    .into_bytes()
}

fn test_options(datafile_size: u64) -> Options {
    let mut opts = Options::default();
    opts.dir_path = "bitcast-rs".to_string();
    opts.datafile_size = datafile_size;
    opts
}

fn new_engine() -> Engine<MemoryIO> {
    Engine::open(test_options(64 * 1024 * 1024), Vec::new(), b"session-1".to_vec())
        .expect("failed to open engine")
}

fn reopen(engine: Engine<MemoryIO>, prefix: &[u8]) -> Engine<MemoryIO> {
    let opts = engine.options.clone();
    Engine::open(opts, engine.into_data_files(), prefix.to_vec()).expect("failed to open engine")
}

fn kv(k: &str, v: &str) -> Option<(Vec<u8>, Vec<u8>)> {
    Some((k.as_bytes().to_vec(), v.as_bytes().to_vec()))
}

#[test]
fn simple_round_trip() {
    let mut engine = new_engine();
    assert_eq!(engine.put(b"key1", b"value1"), Ok(()));
    assert_eq!(engine.put(b"key2", b"value2"), Ok(()));
    assert_eq!(engine.get(b"key1"), Ok(b"value1".to_vec()));
    assert_eq!(engine.delete(b"key1"), Ok(()));
    assert_eq!(engine.get(b"key1"), Err(Errors::KeyNotFound));
    assert_eq!(engine.close(), Ok(()));
    let engine = reopen(engine, b"session-2");
    assert_eq!(engine.get(b"key1"), Err(Errors::KeyNotFound));
    assert_eq!(engine.get(b"key2"), Ok(b"value2".to_vec()));
}

#[test]
fn overwrite_keeps_latest() {
    let mut engine = new_engine();
    assert_eq!(engine.put(b"k", b"a"), Ok(()));
    assert_eq!(engine.put(b"k", b"b"), Ok(()));
    assert_eq!(engine.get(b"k"), Ok(b"b".to_vec()));
    assert_eq!(engine.close(), Ok(()));
    let engine = reopen(engine, b"session-2");
    assert_eq!(engine.get(b"k"), Ok(b"b".to_vec()));
}

#[test]
fn rotation_keeps_every_record() {
    let mut engine =
        Engine::open(test_options(4096), Vec::new(), b"session-1".to_vec()).expect("failed to open engine");
    for i in 0..2000 {
        assert_eq!(engine.put(&get_test_key(i), &get_test_value(i)), Ok(()));
    }
    assert!(engine.old_files.len() > 10);
    for i in 0..2000 {
        assert_eq!(engine.get(&get_test_key(i)), Ok(get_test_value(i)));
    }
    assert_eq!(engine.close(), Ok(()));
    let engine = reopen(engine, b"session-2");
    for i in 0..2000 {
        assert_eq!(engine.get(&get_test_key(i)), Ok(get_test_value(i)));
    }
}

#[test]
fn batch_commit_is_atomic() {
    let mut engine = new_engine();
    assert_eq!(engine.put(b"c", b"3"), Ok(()));
    let mut batch = engine.write_batch(&WriteBatchOptions::default()).expect("failed to create write batch");
    assert_eq!(batch.put(b"a", b"1"), Ok(()));
    assert_eq!(batch.put(b"a", b"2"), Ok(()));
    assert_eq!(batch.put(b"a", b"3"), Ok(()));
    assert_eq!(batch.put(b"b", b"10"), Ok(()));
    assert_eq!(batch.delete(&engine, b"c"), Ok(()));
    assert_eq!(batch.commit(&mut engine), Ok(()));
    assert_eq!(engine.get(b"a"), Ok(b"3".to_vec()));
    assert_eq!(engine.get(b"b"), Ok(b"10".to_vec()));
    assert_eq!(engine.get(b"c"), Err(Errors::KeyNotFound));
    assert_eq!(engine.close(), Ok(()));
    let engine = reopen(engine, b"session-2");
    assert_eq!(engine.get(b"a"), Ok(b"3".to_vec()));
    assert_eq!(engine.get(b"b"), Ok(b"10".to_vec()));
    assert_eq!(engine.get(b"c"), Err(Errors::KeyNotFound));
}

#[test]
fn batch_writes_visible_only_inside() {
    let mut engine = new_engine();
    assert_eq!(engine.put(b"j", b"v0"), Ok(()));
    let mut batch = engine.write_batch(&WriteBatchOptions::default()).expect("failed to create write batch");
    assert_eq!(batch.put(b"k", b"v1"), Ok(()));
    assert_eq!(batch.put(b"j", b"v2"), Ok(()));
    assert_eq!(batch.get(&engine, b"k"), Ok(b"v1".to_vec()));
    assert_eq!(batch.get(&engine, b"j"), Ok(b"v2".to_vec()));
    assert_eq!(engine.get(b"k"), Err(Errors::KeyNotFound));
    assert_eq!(engine.get(b"j"), Ok(b"v0".to_vec()));
    drop(batch);
    assert_eq!(engine.get(b"k"), Err(Errors::KeyNotFound));
    assert_eq!(engine.get(b"j"), Ok(b"v0".to_vec()));
    let engine = reopen(engine, b"session-2");
    assert_eq!(engine.get(b"k"), Err(Errors::KeyNotFound));
    assert_eq!(engine.get(b"j"), Ok(b"v0".to_vec()));
}

#[test]
fn prefix_iterator_scenario() {
    let mut engine = new_engine();
    assert_eq!(engine.put(b"key", b"v"), Ok(()));
    assert_eq!(engine.put(b"key1", b"v1"), Ok(()));
    assert_eq!(engine.put(b"prefix_key", b"v"), Ok(()));
    assert_eq!(engine.put(b"prefix_key1", b"v1"), Ok(()));
    let opts = IndexIteratorOptions { prefix: b"prefix_".to_vec(), reverse: false };
    let mut it = engine.iterator(opts);
    assert_eq!(it.next(), Ok(kv("prefix_key", "v")));
    assert_eq!(it.next(), Ok(kv("prefix_key1", "v1")));
    assert_eq!(it.next(), Ok(None));
    it.seek(b"prefix_key1");
    assert_eq!(it.next(), Ok(kv("prefix_key1", "v1")));
    assert_eq!(it.next(), Ok(None));
    let opts = IndexIteratorOptions { prefix: b"prefix_".to_vec(), reverse: true };
    let mut it = engine.iterator(opts);
    it.seek(b"prefix_key2");
    assert_eq!(it.next(), Ok(kv("prefix_key1", "v1")));
    assert_eq!(it.next(), Ok(kv("prefix_key", "v")));
    assert_eq!(it.next(), Ok(None));
}

#[test]
fn test_new_write_batch() {
    let engine = new_engine();
    assert_eq!(engine.write_batch(&Default::default()).is_ok(), true);
}

#[test]
fn test_write_batch_not_commit() {
    let engine = new_engine();
    assert_eq!(engine.get(&get_test_key(101)), Err(Errors::KeyNotFound));
    let mut write_batch = engine.write_batch(&Default::default()).expect("failed to create write batch");
    (0..10000).for_each(|i| {
        assert_eq!(write_batch.put(&get_test_key(i), &get_test_value(i)), Ok(()));
        assert_eq!(engine.get(&get_test_key(i)), Err(Errors::KeyNotFound));
        assert_eq!(write_batch.get(&engine, &get_test_key(i)), Ok(get_test_value(i)));
    });
    drop(write_batch);
    (0..10000).for_each(|i| {
        assert_eq!(engine.get(&get_test_key(i)), Err(Errors::KeyNotFound));
    });
    let engine = reopen(engine, b"session-2");
    (0..10000).for_each(|i| {
        assert_eq!(engine.get(&get_test_key(i)), Err(Errors::KeyNotFound));
    });
}

#[test]
fn test_write_batch_put() {
    let mut engine = new_engine();
    assert_eq!(engine.get(&get_test_key(101)), Err(Errors::KeyNotFound));
    let mut write_batch = engine.write_batch(&Default::default()).expect("failed to create write batch");
    assert_eq!(write_batch.put(&get_test_key(101), &get_test_value(101)), Ok(()));
    assert_eq!(engine.get(&get_test_key(101)), Err(Errors::KeyNotFound));
    assert_eq!(write_batch.get(&engine, &get_test_key(101)), Ok(get_test_value(101)));
    assert_eq!(
        write_batch.pending_batch,
        (101..102)
            .map(|x: usize| LogRecord {
                key: get_test_key(x),
                value: get_test_value(x),
                record_type: LogRecordType::Normal,
            })
            .collect::<Vec<_>>()
    );
    assert_eq!(engine.get(&get_test_key(101)), Err(Errors::KeyNotFound));
    assert_eq!(write_batch.get(&engine, &get_test_key(101)), Ok(get_test_value(101)));
    assert_eq!(write_batch.commit(&mut engine), Ok(()));
    assert_eq!(write_batch.get(&engine, &get_test_key(101)), Ok(get_test_value(101)));
    assert_eq!(engine.get(&get_test_key(101)), Ok(get_test_value(101)));
    assert_eq!(engine.close(), Ok(()));
    let engine = reopen(engine, b"session-2");
    assert_eq!(engine.get(&get_test_key(101)), Ok(get_test_value(101)));
}

#[test]
fn batch_over_limit_is_refused() {
    let mut engine = new_engine();
    let opts = WriteBatchOptions { sync_on_write: false, max_batch_size: 2 };
    let mut batch = engine.write_batch(&opts).expect("failed to create write batch");
    for i in 0..3 {
        assert_eq!(batch.put(&get_test_key(i), &get_test_value(i)), Ok(()));
    }
    assert_eq!(batch.commit(&mut engine), Err(Errors::ExceedBatchMaxSize));
    assert_eq!(engine.get(&get_test_key(0)), Err(Errors::KeyNotFound));
    assert_eq!(batch.pending_batch.len(), 3);
}

#[test]
fn batch_put_then_delete_cancels() {
    let mut engine = new_engine();
    let mut batch = engine.write_batch(&Default::default()).expect("failed to create write batch");
    assert_eq!(batch.put(b"x", b"1"), Ok(()));
    assert_eq!(batch.delete(&engine, b"x"), Ok(()));
    assert_eq!(batch.pending_batch.len(), 0);
    assert_eq!(batch.get(&engine, b"x"), Err(Errors::KeyNotFound));
    assert_eq!(batch.commit(&mut engine), Ok(()));
    assert_eq!(engine.get(b"x"), Err(Errors::KeyNotFound));
}

#[test]
fn empty_keys_are_refused() {
    let mut engine = new_engine();
    assert_eq!(engine.put(b"", b"v"), Err(Errors::EmptyKey));
    assert_eq!(engine.get(b""), Err(Errors::EmptyKey));
    assert_eq!(engine.delete(b""), Err(Errors::EmptyKey));
    let mut batch = engine.write_batch(&Default::default()).expect("failed to create write batch");
    assert_eq!(batch.put(b"", b"v"), Err(Errors::EmptyKey));
    assert_eq!(batch.delete(&engine, b""), Err(Errors::EmptyKey));
    assert_eq!(batch.get(&engine, b""), Err(Errors::EmptyKey));
}

#[test]
fn delete_of_missing_key_is_a_no_op() {
    let mut engine = new_engine();
    assert_eq!(engine.delete(b"nothing"), Ok(()));
    assert_eq!(engine.active_file.write_offset, 0);
}

#[test]
fn empty_value_round_trips() {
    let mut engine = new_engine();
    assert_eq!(engine.put(&get_test_key(102), b""), Ok(()));
    assert_eq!(engine.get(&get_test_key(102)), Ok(Vec::new()));
    let engine = reopen(engine, b"session-2");
    assert_eq!(engine.get(&get_test_key(102)), Ok(Vec::new()));
}

#[test]
fn open_checks_options() {
    let mut opts = test_options(1024);
    opts.dir_path = String::new();
    assert!(matches!(
        Engine::<MemoryIO>::open(opts, Vec::new(), b"p".to_vec()),
        Err(Errors::InvalidDatabasePath)
    ));
    assert!(matches!(
        Engine::<MemoryIO>::open(test_options(0), Vec::new(), b"p".to_vec()),
        Err(Errors::DatafileSizeTooSmall)
    ));
}

#[test]
fn open_refuses_unordered_segments() {
    let engine: Engine<MemoryIO> =
        Engine::open(test_options(64), Vec::new(), b"p".to_vec()).expect("failed to open engine");
    let mut engine = engine;
    for i in 0..10 {
        assert_eq!(engine.put(&get_test_key(i), &get_test_value(i)), Ok(()));
    }
    let mut files = engine.into_data_files();
    assert!(files.len() > 2);
    files.swap(0, 1);
    assert!(matches!(
        Engine::open(test_options(64), files, b"q".to_vec()),
        Err(Errors::DatabaseFileCorrupted)
    ));
}

#[test]
fn uncommitted_batch_is_dropped_on_recovery() {
    let mut engine = new_engine();
    assert_eq!(engine.put(b"a", b"0"), Ok(()));
    let mut batch = engine.write_batch(&Default::default()).expect("failed to create write batch");
    assert_eq!(batch.put(b"a", b"1"), Ok(()));
    assert_eq!(batch.put(b"b", b"2"), Ok(()));
    assert_eq!(batch.commit(&mut engine), Ok(()));
    let size_after_commit = engine.active_file.write_offset;
    let mut batch = engine.write_batch(&Default::default()).expect("failed to create write batch");
    assert_eq!(batch.put(b"a", b"9"), Ok(()));
    assert_eq!(batch.put(b"c", b"9"), Ok(()));
    assert_eq!(batch.commit(&mut engine), Ok(()));
    // cut the log just before the second batch's terminator
    let mut files = engine.into_data_files();
    let last = files.len() - 1;
    let full = files[last].write_offset;
    assert!(full > size_after_commit);
    let terminator_len = 1 + 1 + 1 + 1 + 9 + 1 + 7 + 4;
    assert_eq!(files[last].set_offset(full - terminator_len), Ok(()));
    let engine = Engine::open(test_options(64 * 1024 * 1024), files, b"session-2".to_vec())
        .expect("failed to open engine");
    assert_eq!(engine.get(b"a"), Ok(b"1".to_vec()));
    assert_eq!(engine.get(b"b"), Ok(b"2".to_vec()));
    assert_eq!(engine.get(b"c"), Err(Errors::KeyNotFound));
}

#[test]
fn list_keys_ascending() {
    let mut engine = new_engine();
    for k in ["key2", "key0", "key1", "a", "key10"] {
        assert_eq!(engine.put(k.as_bytes(), b"v"), Ok(()));
    }
    assert_eq!(engine.delete(b"key1"), Ok(()));
    let keys = engine.list_keys();
    let expected: Vec<Vec<u8>> =
        ["a", "key0", "key10", "key2"].iter().map(|k| k.as_bytes().to_vec()).collect();
    assert_eq!(keys, expected);
    let engine = reopen(engine, b"session-2");
    assert_eq!(engine.list_keys(), expected);
}

#[test]
fn recovery_is_deterministic() {
    let mut engine = new_engine();
    for i in (0..50).rev() {
        assert_eq!(engine.put(&get_test_key(i), &get_test_value(i)), Ok(()));
    }
    let first = engine.list_keys();
    let engine = reopen(engine, b"session-2");
    let second = engine.list_keys();
    let engine = reopen(engine, b"session-3");
    assert_eq!(first, second);
    assert_eq!(second, engine.list_keys());
}

#[test]
fn fold_visits_in_order_and_stops() {
    let mut engine = new_engine();
    assert_eq!(
        engine.fold(|_, _| -> bool {
            assert!(false);
            true
        }),
        Ok(())
    );
    for i in 0..10 {
        assert_eq!(engine.put(&get_test_key(i), &get_test_value(i)), Ok(()));
    }
    let mut seen = Vec::new();
    assert_eq!(
        engine.fold(|k, v| {
            seen.push((k, v));
            seen.len() < 4
        }),
        Ok(())
    );
    assert_eq!(seen.len(), 4);
    for (i, (k, v)) in seen.into_iter().enumerate() {
        assert_eq!(k, get_test_key(i));
        assert_eq!(v, get_test_value(i));
    }
}

#[test]
fn test_list_keys_add_and_delete() {
    let mut engine = new_engine();
    assert_eq!(engine.list_keys(), Vec::<Vec<u8>>::default());
    assert_eq!(engine.put(b"key0", b"value0"), Ok(()));
    assert_eq!(engine.list_keys(), vec![b"key0".to_vec()]);
    assert_eq!(engine.put(b"key1", b"value1"), Ok(()));
    assert_eq!(engine.list_keys(), vec![b"key0".to_vec(), b"key1".to_vec()]);
    assert_eq!(engine.put(b"key2", b"value2"), Ok(()));
    assert_eq!(
        engine.list_keys(),
        vec![b"key0".to_vec(), b"key1".to_vec(), b"key2".to_vec()]
    );
    assert_eq!(engine.delete(b"key1"), Ok(()));
    assert_eq!(engine.list_keys(), vec![b"key0".to_vec(), b"key2".to_vec()]);
}

#[test]
fn test_iterator_rewind() {
    let mut engine = new_engine();
    {
        let mut iterator = engine.iterator(IndexIteratorOptions::default());
        assert_eq!(iterator.next(), Ok(None));
        iterator.rewind();
        assert_eq!(iterator.next(), Ok(None));
    }
    assert_eq!(engine.put(b"key", b"value"), Ok(()));
    let mut iterator = engine.iterator(IndexIteratorOptions::default());
    assert_eq!(iterator.next(), Ok(kv("key", "value")));
    assert_eq!(iterator.next(), Ok(None));
    iterator.rewind();
    assert_eq!(iterator.next(), Ok(kv("key", "value")));
    assert_eq!(iterator.next(), Ok(None));
}

#[test]
fn test_iterator_seek_next() {
    let mut engine = new_engine();
    {
        let mut iterator = engine.iterator(IndexIteratorOptions::default());
        assert_eq!(iterator.next(), Ok(None));
        iterator.rewind();
        assert_eq!(iterator.next(), Ok(None));
    }
    assert_eq!(engine.put(b"key", b"value"), Ok(()));
    assert_eq!(engine.put(b"key1", b"value1"), Ok(()));
    let mut iterator = engine.iterator(IndexIteratorOptions::default());
    assert_eq!(iterator.next(), Ok(kv("key", "value")));
    assert_eq!(iterator.next(), Ok(kv("key1", "value1")));
    assert_eq!(iterator.next(), Ok(None));
    iterator.seek(b"kex");
    assert_eq!(iterator.next(), Ok(kv("key", "value")));
    assert_eq!(iterator.next(), Ok(kv("key1", "value1")));
    assert_eq!(iterator.next(), Ok(None));
    iterator.seek(b"key");
    assert_eq!(iterator.next(), Ok(kv("key", "value")));
    assert_eq!(iterator.next(), Ok(kv("key1", "value1")));
    assert_eq!(iterator.next(), Ok(None));
    iterator.seek(b"key1");
    assert_eq!(iterator.next(), Ok(kv("key1", "value1")));
    assert_eq!(iterator.next(), Ok(None));
    iterator.seek(b"key2");
    assert_eq!(iterator.next(), Ok(None));

    let mut iterator = engine.iterator(IndexIteratorOptions { prefix: Vec::new(), reverse: true });
    assert_eq!(iterator.next(), Ok(kv("key1", "value1")));
    assert_eq!(iterator.next(), Ok(kv("key", "value")));
    assert_eq!(iterator.next(), Ok(None));
    iterator.rewind();
    assert_eq!(iterator.next(), Ok(kv("key1", "value1")));
    assert_eq!(iterator.next(), Ok(kv("key", "value")));
    assert_eq!(iterator.next(), Ok(None));
    iterator.seek(b"key2");
    assert_eq!(iterator.next(), Ok(kv("key1", "value1")));
    assert_eq!(iterator.next(), Ok(kv("key", "value")));
    assert_eq!(iterator.next(), Ok(None));
    iterator.seek(b"key1");
    assert_eq!(iterator.next(), Ok(kv("key1", "value1")));
    assert_eq!(iterator.next(), Ok(kv("key", "value")));
    assert_eq!(iterator.next(), Ok(None));
    iterator.seek(b"key0");
    assert_eq!(iterator.next(), Ok(kv("key", "value")));
    assert_eq!(iterator.next(), Ok(None));
    iterator.seek(b"key");
    assert_eq!(iterator.next(), Ok(kv("key", "value")));
    assert_eq!(iterator.next(), Ok(None));
    iterator.seek(b"kex");
    assert_eq!(iterator.next(), Ok(None));
}

#[test]
fn test_iterator_seek_prefix_next() {
    let mut engine = new_engine();
    let iterator_options = IndexIteratorOptions {
        prefix: b"prefix_".to_vec(),
        reverse: false,
    };
    {
        let mut iterator = engine.iterator(iterator_options.clone());
        assert_eq!(iterator.next(), Ok(None));
        iterator.rewind();
        assert_eq!(iterator.next(), Ok(None));
    }

    assert_eq!(engine.put(b"key", b"value"), Ok(()));
    assert_eq!(engine.put(b"key1", b"value1"), Ok(()));
    assert_eq!(engine.put(b"prefix_key", b"value"), Ok(()));
    assert_eq!(engine.put(b"prefix_key1", b"value1"), Ok(()));

    let mut iterator = engine.iterator(iterator_options.clone());
    assert_eq!(
        iterator.next(),
        Ok(kv("prefix_key", "value"))
    );
    assert_eq!(
        iterator.next(),
        Ok(kv("prefix_key1", "value1"))
    );
    assert_eq!(iterator.next(), Ok(None));
    iterator.seek(b"prefix_kex");
    assert_eq!(
        iterator.next(),
        Ok(kv("prefix_key", "value"))
    );
    assert_eq!(
        iterator.next(),
        Ok(kv("prefix_key1", "value1"))
    );
    assert_eq!(iterator.next(), Ok(None));
    iterator.seek(b"prefix_key");
    assert_eq!(
        iterator.next(),
        Ok(kv("prefix_key", "value"))
    );
    assert_eq!(
        iterator.next(),
        Ok(kv("prefix_key1", "value1"))
    );
    assert_eq!(iterator.next(), Ok(None));
    iterator.seek(b"prefix_key1");
    assert_eq!(
        iterator.next(),
        Ok(kv("prefix_key1", "value1"))
    );
    assert_eq!(iterator.next(), Ok(None));
    iterator.seek(b"prefix_key2");
    assert_eq!(iterator.next(), Ok(None));

    let iterator_options = IndexIteratorOptions {
        prefix: b"prefix_".to_vec(),
        reverse: true,
    };
    let mut iterator = engine.iterator(iterator_options);
    assert_eq!(
        iterator.next(),
        Ok(kv("prefix_key1", "value1"))
    );
    assert_eq!(
        iterator.next(),
        Ok(kv("prefix_key", "value"))
    );
    assert_eq!(iterator.next(), Ok(None));

    iterator.rewind();
    assert_eq!(
        iterator.next(),
        Ok(kv("prefix_key1", "value1"))
    );
    assert_eq!(
        iterator.next(),
        Ok(kv("prefix_key", "value"))
    );
    assert_eq!(iterator.next(), Ok(None));

    iterator.seek(b"prefix_key2");
    assert_eq!(
        iterator.next(),
        Ok(kv("prefix_key1", "value1"))
    );
    assert_eq!(
        iterator.next(),
        Ok(kv("prefix_key", "value"))
    );
    assert_eq!(iterator.next(), Ok(None));

    iterator.seek(b"prefix_key1");
    assert_eq!(
        iterator.next(),
        Ok(kv("prefix_key1", "value1"))
    );
    assert_eq!(
        iterator.next(),
        Ok(kv("prefix_key", "value"))
    );
    assert_eq!(iterator.next(), Ok(None));

    iterator.seek(b"prefix_key0");
    assert_eq!(
        iterator.next(),
        Ok(kv("prefix_key", "value"))
    );
    assert_eq!(iterator.next(), Ok(None));

    iterator.seek(b"prefix_key");
    assert_eq!(
        iterator.next(),
        Ok(kv("prefix_key", "value"))
    );
    assert_eq!(iterator.next(), Ok(None));

    iterator.seek(b"prefix_kex");
    assert_eq!(iterator.next(), Ok(None));
}

/// A file whose writes can be made to fail.
struct FlakyIO {
    data: Vec<u8>,
    fail_writes: bool,
}

impl bitcask_rs::fio::IOManager for FlakyIO {
    fn read(&self, len: usize, offset: u64) -> Result<Vec<u8>, Errors> {
        let start = (offset as usize).min(self.data.len());
        let end = start.saturating_add(len).min(self.data.len());
        Ok(self.data[start..end].to_vec())
    }

    fn write(&mut self, buf: &[u8]) -> Result<usize, Errors> {
        if self.fail_writes {
            return Err(Errors::FailToWriteToDataFile("disk full".to_string()));
        }
        self.data.extend_from_slice(buf);
        Ok(buf.len())
    }

    fn sync(&mut self) -> Result<(), Errors> {
        Ok(())
    }

    fn set_len(&mut self, len: u64) -> Result<(), Errors> {
        self.data.truncate(len as usize);
        Ok(())
    }

    fn create(_dir: &str, _file_id: u32) -> Result<FlakyIO, Errors> {
        Ok(FlakyIO { data: Vec::new(), fail_writes: false })
    }
}

#[test]
fn failed_write_leaves_contents_unchanged() {
    let mut engine: Engine<FlakyIO> =
        Engine::open(test_options(1024), Vec::new(), b"p".to_vec()).expect("failed to open engine");
    assert_eq!(engine.put(b"a", b"1"), Ok(()));
    engine.active_file.io_manager.fail_writes = true;
    assert!(matches!(engine.put(b"b", b"2"), Err(Errors::FailToWriteToDataFile(_))));
    assert!(matches!(engine.delete(b"a"), Err(Errors::FailToWriteToDataFile(_))));
    assert_eq!(engine.get(b"a"), Ok(b"1".to_vec()));
    assert_eq!(engine.get(b"b"), Err(Errors::KeyNotFound));
    let mut batch = engine.write_batch(&Default::default()).expect("failed to create write batch");
    assert_eq!(batch.put(b"c", b"3"), Ok(()));
    assert!(matches!(batch.commit(&mut engine), Err(Errors::FailToWriteToDataFile(_))));
    assert_eq!(engine.get(b"c"), Err(Errors::KeyNotFound));
    assert_eq!(batch.pending_batch.len(), 1);
}

#[test]
fn missing_segment_is_reported() {
    let engine = new_engine();
    let pos = bitcask_rs::log_record::LogRecordPos { file_id: 99, offset: 0 };
    assert_eq!(engine.get_by_position(&pos), Err(Errors::DataFileNotFound));
}

#[test]
fn test_simple_batch_commit_retrieve() {
    let mut engine = new_engine();
    assert_eq!(engine.get(&get_test_key(101)), Err(Errors::KeyNotFound));
    assert_eq!(engine.put(&get_test_key(103), &get_test_value(103)), Ok(()));

    let mut write_batch = engine.write_batch(&Default::default()).expect("failed to create write batch");
    assert_eq!(write_batch.put(&get_test_key(100), &get_test_value(1000)), Ok(()));
    assert_eq!(write_batch.put(&get_test_key(100), &get_test_value(1001)), Ok(()));
    assert_eq!(write_batch.put(&get_test_key(100), &get_test_value(1002)), Ok(()));
    assert_eq!(write_batch.put(&get_test_key(101), &get_test_value(1010)), Ok(()));
    assert_eq!(write_batch.delete(&engine, &get_test_key(103)), Ok(()));
    assert_eq!(write_batch.commit(&mut engine), Ok(()));

    let mut write_batch = engine.write_batch(&Default::default()).expect("failed to create write batch");
    assert_eq!(write_batch.put(&get_test_key(110), &get_test_value(1100)), Ok(()));
    assert_eq!(write_batch.put(&get_test_key(100), &get_test_value(1011)), Ok(()));
    assert_eq!(write_batch.commit(&mut engine), Ok(()));

    assert_eq!(engine.get(&get_test_key(100)), Ok(get_test_value(1011)));
    assert_eq!(engine.get(&get_test_key(101)), Ok(get_test_value(1010)));

    assert_eq!(engine.close(), Ok(()));
    let engine = reopen(engine, b"session-2");
    assert_eq!(engine.get(&get_test_key(100)), Ok(get_test_value(1011)));
    assert_eq!(engine.get(&get_test_key(101)), Ok(get_test_value(1010)));
}

fn staged_map(staged: &[LogRecord]) -> HashMap<Vec<u8>, LogRecord> {
    staged
        .iter()
        .map(|r| {
            (
                r.key.clone(),
                LogRecord { key: r.key.clone(), value: r.value.clone(), record_type: r.record_type },
            )
        })
        .collect()
}

#[test]
fn test_write_batch_put_and_update() {
    let mut engine = new_engine();

    assert_eq!(
        engine.get(&get_test_key(101)),
        Err(Errors::KeyNotFound)
    );

    let mut write_batch = engine
        .write_batch(&Default::default())
        .expect("failed to create write batch");
    assert_eq!(
        write_batch.put(&get_test_key(101), &get_test_value(101)),
        Ok(())
    );
    assert_eq!(
        engine.get(&get_test_key(101)),
        Err(Errors::KeyNotFound)
    );
    assert_eq!(
        write_batch.get(&engine, &get_test_key(101)),
        Ok(get_test_value(101))
    );

    assert_eq!(
        staged_map(&write_batch.pending_batch),
        (101..102)
            .map(|x: usize| {
                (
                    get_test_key(x),
                    LogRecord {
                        key: get_test_key(x),
                        value: get_test_value(x),
                        record_type: LogRecordType::Normal,
                    },
                )
            })
            .collect::<HashMap<Vec<u8>, LogRecord>>()
    );

    assert_eq!(
        engine.get(&get_test_key(101)),
        Err(Errors::KeyNotFound)
    );
    assert_eq!(
        write_batch.get(&engine, &get_test_key(101)),
        Ok(get_test_value(101))
    );
    assert_eq!(write_batch.commit(&mut engine), Ok(()));
    assert_eq!(
        engine.get(&get_test_key(101)),
        Ok(get_test_value(101))
    );
    assert_eq!(
        write_batch.get(&engine, &get_test_key(101)),
        Ok(get_test_value(101))
    );

    let mut write_batch = engine
        .write_batch(&Default::default())
        .expect("failed to create write batch");
    assert_eq!(
        write_batch.put(&get_test_key(101), &get_test_value(102)),
        Ok(())
    );
    assert_eq!(
        engine.get(&get_test_key(101)),
        Ok(get_test_value(101)),
    );
    assert_eq!(
        write_batch.get(&engine, &get_test_key(101)),
        Ok(get_test_value(102))
    );

    assert_eq!(
        write_batch.put(&get_test_key(101), &get_test_value(103)),
        Ok(())
    );
    assert_eq!(
        write_batch.get(&engine, &get_test_key(101)),
        Ok(get_test_value(103))
    );

    assert_eq!(
        engine.get(&get_test_key(101)),
        Ok(get_test_value(101)),
    );

    assert_eq!(write_batch.commit(&mut engine), Ok(()));

    assert_eq!(
        engine.get(&get_test_key(101)),
        Ok(get_test_value(103))
    );
    assert_eq!(
        write_batch.get(&engine, &get_test_key(101)),
        Ok(get_test_value(103))
    );

    assert_eq!(engine.close(), Ok(()));
    let engine = reopen(engine, b"session-2");
    assert_eq!(
        engine.get(&get_test_key(101)),
        Ok(get_test_value(103))
    );
}

#[test]
fn test_write_batch_put_and_delete() {
    let mut engine = new_engine();

    assert_eq!(
        engine.get(&get_test_key(101)),
        Err(Errors::KeyNotFound)
    );

    let mut write_batch = engine
        .write_batch(&Default::default())
        .expect("failed to create write batch");
    assert_eq!(
        write_batch.get(&engine, &get_test_key(101)),
        Err(Errors::KeyNotFound)
    );
    assert_eq!(
        write_batch.put(&get_test_key(101), &get_test_value(101)),
        Ok(())
    );
    assert_eq!(
        engine.get(&get_test_key(101)),
        Err(Errors::KeyNotFound)
    );
    assert_eq!(
        write_batch.get(&engine, &get_test_key(101)),
        Ok(get_test_value(101))
    );

    assert_eq!(
        staged_map(&write_batch.pending_batch),
        (101..102)
            .map(|x: usize| {
                (
                    get_test_key(x),
                    LogRecord {
                        key: get_test_key(x),
                        value: get_test_value(x),
                        record_type: LogRecordType::Normal,
                    },
                )
            })
            .collect::<HashMap<Vec<u8>, LogRecord>>()
    );

    assert_eq!(
        engine.get(&get_test_key(101)),
        Err(Errors::KeyNotFound)
    );
    assert_eq!(
        write_batch.get(&engine, &get_test_key(101)),
        Ok(get_test_value(101))
    );
    assert_eq!(write_batch.commit(&mut engine), Ok(()));
    assert_eq!(
        engine.get(&get_test_key(101)),
        Ok(get_test_value(101))
    );
    assert_eq!(
        write_batch.get(&engine, &get_test_key(101)),
        Ok(get_test_value(101))
    );

    let mut write_batch = engine
        .write_batch(&Default::default())
        .expect("failed to create write batch");
    assert_eq!(
        write_batch.get(&engine, &get_test_key(101)),
        Ok(get_test_value(101))
    );
    assert_eq!(
        write_batch.put(&get_test_key(101), &get_test_value(102)),
        Ok(())
    );
    assert_eq!(
        engine.get(&get_test_key(101)),
        Ok(get_test_value(101)),
    );
    assert_eq!(
        write_batch.get(&engine, &get_test_key(101)),
        Ok(get_test_value(102))
    );

    assert_eq!(
        write_batch.put(&get_test_key(101), &get_test_value(103)),
        Ok(())
    );
    assert_eq!(
        write_batch.get(&engine, &get_test_key(101)),
        Ok(get_test_value(103))
    );

    assert_eq!(write_batch.delete(&engine, &get_test_key(101)), Ok(()));
    assert_eq!(
        write_batch.get(&engine, &get_test_key(101)),
        Err(Errors::KeyNotFound)
    );

    assert_eq!(
        engine.get(&get_test_key(101)),
        Ok(get_test_value(101)),
    );

    assert_eq!(write_batch.commit(&mut engine), Ok(()));

    assert_eq!(
        engine.get(&get_test_key(101)),
        Err(Errors::KeyNotFound)
    );
    assert_eq!(
        write_batch.get(&engine, &get_test_key(101)),
        Err(Errors::KeyNotFound)
    );

    assert_eq!(engine.close(), Ok(()));
    let engine = reopen(engine, b"session-2");
    assert_eq!(
        engine.get(&get_test_key(101)),
        Err(Errors::KeyNotFound)
    );
}

#[test]
fn test_write_batch_put_and_delete_with_no_batch_add() {
    let mut engine = new_engine();

    assert_eq!(
        engine.get(&get_test_key(101)),
        Err(Errors::KeyNotFound)
    );

    let mut write_batch = engine
        .write_batch(&Default::default())
        .expect("failed to create write batch");
    assert_eq!(
        write_batch.get(&engine, &get_test_key(101)),
        Err(Errors::KeyNotFound)
    );
    assert_eq!(
        write_batch.put(&get_test_key(101), &get_test_value(101)),
        Ok(())
    );
    assert_eq!(
        engine.get(&get_test_key(101)),
        Err(Errors::KeyNotFound)
    );
    assert_eq!(
        write_batch.get(&engine, &get_test_key(101)),
        Ok(get_test_value(101)),
    );

    assert_eq!(
        engine.put(&get_test_key(101), &get_test_value(201)),
        Ok(())
    );
    assert_eq!(
        engine.get(&get_test_key(101)),
        Ok(get_test_value(201)),
    );
    assert_eq!(
        write_batch.get(&engine, &get_test_key(101)),
        Ok(get_test_value(101)),
    );

    assert_eq!(
        staged_map(&write_batch.pending_batch),
        (101..102)
            .map(|x: usize| {
                (
                    get_test_key(x),
                    LogRecord {
                        key: get_test_key(x),
                        value: get_test_value(x),
                        record_type: LogRecordType::Normal,
                    },
                )
            })
            .collect::<HashMap<Vec<u8>, LogRecord>>()
    );

    assert_eq!(
        engine.get(&get_test_key(101)),
        Ok(get_test_value(201)),
    );
    assert_eq!(
        write_batch.get(&engine, &get_test_key(101)),
        Ok(get_test_value(101)),
    );
    assert_eq!(write_batch.commit(&mut engine), Ok(()));
    assert_eq!(
        engine.get(&get_test_key(101)),
        Ok(get_test_value(101))
    );
    assert_eq!(
        write_batch.get(&engine, &get_test_key(101)),
        Ok(get_test_value(101)),
    );
    assert_eq!(
        engine.get(&get_test_key(101)),
        Ok(get_test_value(101))
    );
    assert_eq!(
        write_batch.get(&engine, &get_test_key(101)),
        Ok(get_test_value(101)),
    );

    assert_eq!(engine.delete(&get_test_key(101)), Ok(()));
    assert_eq!(
        engine.get(&get_test_key(101)),
        Err(Errors::KeyNotFound)
    );
    assert_eq!(
        write_batch.get(&engine, &get_test_key(101)),
        Err(Errors::KeyNotFound),
    );

    let mut write_batch = engine
        .write_batch(&Default::default())
        .expect("failed to create write batch");
    assert_eq!(
        write_batch.get(&engine, &get_test_key(101)),
        Err(Errors::KeyNotFound),
    );
    assert_eq!(
        write_batch.put(&get_test_key(101), &get_test_value(102)),
        Ok(())
    );
    assert_eq!(
        engine.get(&get_test_key(101)),
        Err(Errors::KeyNotFound)
    );
    assert_eq!(
        write_batch.get(&engine, &get_test_key(101)),
        Ok(get_test_value(102)),
    );
    assert_eq!(engine.delete(&get_test_key(101)), Ok(()));
    assert_eq!(
        write_batch.get(&engine, &get_test_key(101)),
        Ok(get_test_value(102)),
    );

    assert_eq!(
        engine.get(&get_test_key(101)),
        Err(Errors::KeyNotFound),
    );

    assert_eq!(
        write_batch.put(&get_test_key(101), &get_test_value(202)),
        Ok(())
    );

    assert_eq!(
        engine.get(&get_test_key(101)),
        Err(Errors::KeyNotFound),
    );
    assert_eq!(
        write_batch.get(&engine, &get_test_key(101)),
        Ok(get_test_value(202)),
    );

    assert_eq!(write_batch.delete(&engine, &get_test_key(101)), Ok(()));
    assert_eq!(
        engine.get(&get_test_key(101)),
        Err(Errors::KeyNotFound),
    );

    assert_eq!(
        write_batch.get(&engine, &get_test_key(101)),
        Err(Errors::KeyNotFound),
    );

    assert_eq!(write_batch.commit(&mut engine), Ok(()));

    assert_eq!(
        engine.get(&get_test_key(101)),
        Err(Errors::KeyNotFound)
    );
    assert_eq!(
        write_batch.get(&engine, &get_test_key(101)),
        Err(Errors::KeyNotFound),
    );

    assert_eq!(engine.close(), Ok(()));
    let mut engine = reopen(engine, b"session-2");
    assert_eq!(
        engine.get(&get_test_key(101)),
        Err(Errors::KeyNotFound)
    );
}

#[test]
fn test_complex_batch_commit_retrieve() {
    let mut engine = new_engine();
    assert_eq!(
        engine.get(&get_test_key(101)),
        Err(Errors::KeyNotFound)
    );

    (200..10000).for_each(|x| {
        assert_eq!(engine.put(&get_test_key(x), &get_test_value(x)), Ok(()));
    });

    let mut write_batch = engine
        .write_batch(&Default::default())
        .expect("failed to create write batch");

    assert_eq!(
        write_batch.put(&get_test_key(100), &get_test_value(1000)),
        Ok(())
    );
    assert_eq!(
        write_batch.put(&get_test_key(100), &get_test_value(1001)),
        Ok(())
    );
    assert_eq!(
        write_batch.put(&get_test_key(100), &get_test_value(1002)),
        Ok(())
    );
    assert_eq!(
        write_batch.put(&get_test_key(101), &get_test_value(1010)),
        Ok(())
    );
    assert_eq!(
        write_batch.put(&get_test_key(102), &get_test_value(1020)),
        Ok(())
    );
    assert_eq!(write_batch.delete(&engine, &get_test_key(203)), Ok(()));
    assert_eq!(write_batch.commit(&mut engine), Ok(()));

    let mut write_batch = engine
        .write_batch(&Default::default())
        .expect("failed to create write batch");

    assert_eq!(
        write_batch.put(&get_test_key(110), &get_test_value(1100)),
        Ok(())
    );
    assert_eq!(
        write_batch.put(&get_test_key(100), &get_test_value(1011)),
        Ok(())
    );

    assert_eq!(write_batch.delete(&engine, &get_test_key(280)), Ok(()));
    assert_eq!(write_batch.delete(&engine, &get_test_key(102)), Ok(()));
    assert_eq!(write_batch.commit(&mut engine), Ok(()));

    assert_eq!(
        engine.get(&get_test_key(100)),
        Ok(get_test_value(1011))
    );
    assert_eq!(
        engine.get(&get_test_key(101)),
        Ok(get_test_value(1010))
    );
    assert_eq!(
        engine.get(&get_test_key(102)),
        Err(Errors::KeyNotFound)
    );
    assert_eq!(
        engine.get(&get_test_key(110)),
        Ok(get_test_value(1100))
    );
    assert_eq!(
        engine.get(&get_test_key(280)),
        Err(Errors::KeyNotFound)
    );

    assert_eq!(engine.close(), Ok(()));
    let engine = reopen(engine, b"session-2");
    assert_eq!(
        engine.get(&get_test_key(100)),
        Ok(get_test_value(1011))
    );
    assert_eq!(
        engine.get(&get_test_key(101)),
        Ok(get_test_value(1010))
    );
    assert_eq!(
        engine.get(&get_test_key(102)),
        Err(Errors::KeyNotFound)
    );
    assert_eq!(
        engine.get(&get_test_key(110)),
        Ok(get_test_value(1100))
    );
    assert_eq!(
        engine.get(&get_test_key(280)),
        Err(Errors::KeyNotFound)
    );
}


#[test]
fn batch_keeps_staged_tombstone() {
    let mut engine = new_engine();
    assert_eq!(engine.put(b"x", b"1"), Ok(()));
    let mut batch = engine.write_batch(&Default::default()).expect("failed to create write batch");
    assert_eq!(batch.delete(&engine, b"x"), Ok(()));
    assert_eq!(batch.pending_batch.len(), 1);
    assert_eq!(engine.delete(b"x"), Ok(()));
    assert_eq!(batch.delete(&engine, b"x"), Ok(()));
    assert_eq!(batch.pending_batch.len(), 1);
    assert_eq!(batch.pending_batch[0].record_type, LogRecordType::Deleted);
    assert_eq!(batch.delete(&engine, b"never"), Ok(()));
    assert_eq!(batch.pending_batch.len(), 1);
}

#[test]
fn pairs_lists_contents_in_order() {
    let mut engine = new_engine();
    assert_eq!(engine.pairs(), Ok(Vec::new()));
    for k in ["b", "a", "c"] {
        assert_eq!(engine.put(k.as_bytes(), k.to_uppercase().as_bytes()), Ok(()));
    }
    assert_eq!(engine.delete(b"c"), Ok(()));
    assert_eq!(
        engine.pairs(),
        Ok(vec![(b"a".to_vec(), b"A".to_vec()), (b"b".to_vec(), b"B".to_vec())])
    );
}

#[test]
fn put_records_are_framed_with_sequence_zero() {
    let mut engine = new_engine();
    assert_eq!(engine.put(b"k", b"v"), Ok(()));
    let rec = engine.active_file.read_log_record(0).expect("record");
    assert_eq!(rec.record.record_type, LogRecordType::Normal);
    let parsed = bitcask_rs::batch::log_record_key_parse(&rec.record.key).expect("framed key");
    assert_eq!(parsed.seq_id, 0);
    assert_eq!(parsed.key, b"k".to_vec());
    assert_eq!(parsed.prefix, b"non_txn".to_vec());
}
