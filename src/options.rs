use vstd::prelude::*;

use crate::error::{Errors, Result};

verus! {

/// How an engine is set up.
#[derive(Clone, Debug)]
pub struct Options {
    /// the directory that holds the segments
    pub dir_path: String,
    /// the size past which the active segment is sealed and a new one begun
    pub datafile_size: u64,
    /// sync the active segment after every append
    pub sync_in_write: bool,
    pub index_type: IndexType,
}

impl Default for Options {
    fn default() -> (r: Options)
        ensures
            r.datafile_size == 256 * 1024 * 1024,
            !r.sync_in_write,
            r.index_type == IndexType::BtreeMap,
    {
        Options {
            dir_path: "/tmp/bitcask-rs-engine".to_owned(),
            datafile_size: 256 * 1024 * 1024,
            sync_in_write: false,
            index_type: IndexType::BtreeMap,
        }
    }
}

/// The kinds of index; the ordered map is the one provided.
#[derive(Clone, Copy, Debug, PartialEq, Eq, Structural)]
pub enum IndexType {
    BtreeMap,
    SkipList,
}

/// How an iterator walks the keydir.
#[derive(Clone, Debug)]
pub struct IndexIteratorOptions {
    /// only keys that begin with it are visible
    pub prefix: Vec<u8>,
    /// descending key order
    pub reverse: bool,
}

impl Default for IndexIteratorOptions {
    fn default() -> (r: IndexIteratorOptions)
        ensures
            r.prefix@ == Seq::<u8>::empty(),
            !r.reverse,
    {
        IndexIteratorOptions { prefix: Vec::new(), reverse: false }
    }
}

/// How a write batch commits.
#[derive(Clone, Copy, Debug)]
pub struct WriteBatchOptions {
    /// sync the active segment once the batch is written
    pub sync_on_write: bool,
    /// the most entries that one batch may stage
    pub max_batch_size: usize,
}

impl Default for WriteBatchOptions {
    fn default() -> (r: WriteBatchOptions)
        ensures
            r.sync_on_write,
            r.max_batch_size == 10000,
    {
        WriteBatchOptions { sync_on_write: true, max_batch_size: 10000 }
    }
}

/// The options that an engine can be opened with: a directory is named and
/// segments have room.
pub open spec fn options_valid(o: &Options) -> bool {
    o.dir_path@.len() > 0 && o.datafile_size > 0
}

/// Rejects an empty directory path and a zero segment size.
pub fn check_options(option: &Options) -> (r: Result<()>)
    ensures
        option.dir_path@.len() == 0 ==> r is Err && r->Err_0 is InvalidDatabasePath,
        option.dir_path@.len() > 0 && option.datafile_size == 0 ==> r is Err
            && r->Err_0 is DatafileSizeTooSmall,
        options_valid(option) ==> r is Ok,
{
    if option.dir_path.as_str().is_empty() {
        return Err(Errors::InvalidDatabasePath);
    }
    if option.datafile_size == 0 {
        return Err(Errors::DatafileSizeTooSmall);
    }
    Ok(())
}

} // verus!
