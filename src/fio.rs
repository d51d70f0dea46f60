use vstd::prelude::*;

use crate::error::{Errors, Result};
use crate::log_record::{append_bytes, window};

verus! {

/// An error of the file layer: a failed read, write, sync or open.
pub open spec fn is_io_error(e: Errors) -> bool {
    ||| e is FailToReadFromDataFile
    ||| e is FailToWriteToDataFile
    ||| e is FailToSyncDataFile
    ||| e is FailToOpenDataFile
}

/// A file of bytes that the engine reads at any offset and appends to.
pub trait IOManager: Sized {
    /// The bytes that the file holds. Each verified implementation states
    /// its own; the default lets code outside the verifier implement the trait.
    closed spec fn bytes(&self) -> Seq<u8> {
        Seq::empty()
    }

    /// Reads up to `len` bytes at `offset`; fewer only where the file ends.
    fn read(&self, len: usize, offset: u64) -> (r: Result<Vec<u8>>)
        ensures
            r is Ok ==> r->Ok_0@ == window(self.bytes(), offset as int, len as int),
            r is Err ==> r->Err_0 is FailToReadFromDataFile,
    ;

    /// Appends a prefix of `buf` to the file and says how long it was.
    fn write(&mut self, buf: &[u8]) -> (r: Result<usize>)
        ensures
            r is Ok ==> r->Ok_0 <= buf@.len() && final(self).bytes() == old(self).bytes()
                + buf@.take(r->Ok_0 as int),
            r is Err ==> final(self).bytes() == old(self).bytes() && r->Err_0 is FailToWriteToDataFile,
    ;

    /// Flushes the file to stable storage.
    fn sync(&mut self) -> (r: Result<()>)
        ensures
            final(self).bytes() == old(self).bytes(),
            r is Err ==> r->Err_0 is FailToSyncDataFile,
    ;

    /// Cuts the file down to its first `len` bytes.
    fn set_len(&mut self, len: u64) -> (r: Result<()>)
        requires
            len <= old(self).bytes().len(),
        ensures
            r is Ok ==> final(self).bytes() == old(self).bytes().take(len as int),
            r is Err ==> final(self).bytes() == old(self).bytes() && r->Err_0 is FailToWriteToDataFile,
    ;

    /// Creates the empty segment file `file_id` in the directory `dir`.
    fn create(dir: &str, file_id: u32) -> (r: Result<Self>)
        ensures
            r is Ok ==> r->Ok_0.bytes() == Seq::<u8>::empty(),
            r is Err ==> r->Err_0 is FailToOpenDataFile,
    ;
}

/// A file held in memory.
pub struct MemoryIO {
    data: Vec<u8>,
}

impl MemoryIO {
    pub fn new() -> (r: MemoryIO)
        ensures
            r.bytes() == Seq::<u8>::empty(),
    {
        MemoryIO { data: Vec::new() }
    }
}

impl IOManager for MemoryIO {
    closed spec fn bytes(&self) -> Seq<u8> {
        self.data@
    }

    fn read(&self, len: usize, offset: u64) -> (r: Result<Vec<u8>>) {
        let mut out: Vec<u8> = Vec::new();
        if offset >= self.data.len() as u64 {
            return Ok(out);
        }
        let start = offset as usize;
        let end: usize = if len >= self.data.len() - start {
            self.data.len()
        } else {
            start + len
        };
        let mut i: usize = start;
        while i < end
            invariant
                start <= i <= end <= self.data@.len(),
                out@ == self.data@.subrange(start as int, i as int),
            decreases end - i,
        {
            out.push(self.data[i]);
            i = i + 1;
            assert(out@ =~= self.data@.subrange(start as int, i as int));
        }
        Ok(out)
    }

    fn write(&mut self, buf: &[u8]) -> (r: Result<usize>) {
        append_bytes(&mut self.data, buf);
        assert(buf@.take(buf@.len() as int) =~= buf@);
        Ok(buf.len())
    }

    fn sync(&mut self) -> (r: Result<()>) {
        Ok(())
    }

    fn set_len(&mut self, len: u64) -> (r: Result<()>) {
        self.data.truncate(len as usize);
        assert(self.data@ =~= old(self).data@.take(len as int));
        Ok(())
    }

    fn create(dir: &str, file_id: u32) -> (r: Result<Self>) {
        Ok(MemoryIO::new())
    }
}

} // verus!
