use vstd::prelude::*;

use crate::db::Engine;
use crate::error::Result;
use crate::fio::IOManager;
use crate::index::{bytes_lt, has_prefix, snapshot, BtreeIndexIterator};
use crate::log_record::copy_bytes;
use crate::options::IndexIteratorOptions;

verus! {

/// Walks a snapshot of the keydir and reads each value from the engine.
pub struct Iterator<'a, F> {
    pub index_iterator: BtreeIndexIterator,
    pub engine: &'a Engine<F>,
}

impl<'a, F: IOManager> Iterator<'a, F> {
    /// The snapshot is ordered and holds exactly the engine's keys with the prefix.
    pub open spec fn wf(&self) -> bool {
        &&& self.index_iterator.wf()
        &&& self.engine.wf()
        &&& self.index_iterator.snapshot_of(self.engine.indexer.view())
    }

    /// Back to the first entry.
    pub fn rewind(&mut self)
        requires
            old(self).wf(),
        ensures
            final(self).wf(),
            final(self).engine == old(self).engine,
            final(self).index_iterator.items@ == old(self).index_iterator.items@,
            final(self).index_iterator.options == old(self).index_iterator.options,
            final(self).index_iterator.pos == 0,
    {
        self.index_iterator.rewind();
    }

    /// Moves to the first key at or after `key` in the iterator's direction.
    pub fn seek(&mut self, key: &[u8])
        requires
            old(self).wf(),
        ensures
            final(self).wf(),
            final(self).engine == old(self).engine,
            final(self).index_iterator.items@ == old(self).index_iterator.items@,
            final(self).index_iterator.options == old(self).index_iterator.options,
            forall|i: int|
                0 <= i < final(self).index_iterator.pos
                    ==> #[trigger] final(self).index_iterator.before(i, key@),
            forall|i: int|
                final(self).index_iterator.pos <= i < final(self).index_iterator.entries().len()
                    ==> !(#[trigger] final(self).index_iterator.before(i, key@)),
    {
        self.index_iterator.seek(key);
    }

    /// The key and value under the cursor, which then moves on; `None` at the end.
    pub fn next(&mut self) -> (r: Result<Option<(Vec<u8>, Vec<u8>)>>)
        requires
            old(self).wf(),
        ensures
            final(self).wf(),
            final(self).engine == old(self).engine,
            final(self).index_iterator.items@ == old(self).index_iterator.items@,
            final(self).index_iterator.options == old(self).index_iterator.options,
            old(self).index_iterator.pos >= old(self).index_iterator.entries().len() ==> r is Ok
                && r->Ok_0 is None,
            old(self).index_iterator.pos < old(self).index_iterator.entries().len() ==> (
            final(self).index_iterator.pos == old(self).index_iterator.pos + 1) && ((r is Ok
                && r->Ok_0 is Some && r->Ok_0.unwrap().0@ == old(
            self).index_iterator.entries()[old(self).index_iterator.pos as int].0
                && r->Ok_0.unwrap().1@ == old(self).engine.view()[r->Ok_0.unwrap().0@]) || (r is Err
                && r->Err_0 is FailToReadFromDataFile)),
    {
        let (key, pos) = match self.index_iterator.next() {
            Some(e) => e,
            None => return Ok(None),
        };
        proof {
            let i = old(self).index_iterator.pos as int;
            assert(self.index_iterator.entries()[i].0 == key@);
            assert(self.engine.indexer.view().contains_key(key@));
            assert(self.engine.live_at(key@, pos));
        }
        match self.engine.get_by_position(&pos) {
            Ok(value) => Ok(Some((key, value))),
            Err(e) => Err(e),
        }
    }
}

impl<F: IOManager> Engine<F> {
    /// An iterator over a snapshot of the keydir taken now.
    pub fn iterator(&self, options: IndexIteratorOptions) -> (r: Iterator<'_, F>)
        requires
            self.wf(),
        ensures
            r.wf(),
            r.engine == self,
            r.index_iterator.pos == 0,
            r.index_iterator.options == options,
            r.index_iterator.entries() == snapshot(
                self.indexer.entries(),
                options.prefix@,
                options.reverse,
            ),
    {
        Iterator { index_iterator: self.indexer.iterator(options), engine: self }
    }
}

impl<F: IOManager> Engine<F> {
    /// Every key with its value, in ascending key order.
    pub fn pairs(&self) -> (r: Result<Vec<(Vec<u8>, Vec<u8>)>>)
        requires
            self.wf(),
        ensures
            r is Err ==> r->Err_0 is FailToReadFromDataFile,
            r is Ok ==> self.all_pairs(r->Ok_0@),
    {
        let mut it = self.iterator(IndexIteratorOptions { prefix: Vec::new(), reverse: false });
        let ghost e = it.index_iterator.entries();
        let mut out: Vec<(Vec<u8>, Vec<u8>)> = Vec::new();
        proof {
            assert forall|k: Seq<u8>| has_prefix(k, Seq::<u8>::empty()) by {
                assert(k.take(0) =~= Seq::<u8>::empty());
            }
        }
        while it.index_iterator.pos < it.index_iterator.items.len()
            invariant
                it.wf(),
                it.engine == self,
                e == it.index_iterator.entries(),
                !it.index_iterator.options.reverse,
                it.index_iterator.options.prefix@ == Seq::<u8>::empty(),
                out@.len() == it.index_iterator.pos,
                forall|i: int|
                    0 <= i < out@.len() ==> (#[trigger] out@[i]).0@ == e[i].0 && out@[i].1@
                        == self.view()[e[i].0],
            decreases e.len() - it.index_iterator.pos,
        {
            match it.next() {
                Ok(Some(kv)) => {
                    out.push(kv);
                },
                Ok(None) => {
                    assert(false);
                    return Ok(out);
                },
                Err(err) => {
                    return Err(err);
                },
            }
        }
        proof {
            let ps = out@;
            assert(ps.len() == e.len());
            assert(self.view().dom() == self.indexer.view().dom());
            assert forall|i: int, j: int| 0 <= i < j < ps.len() implies bytes_lt(
                #[trigger] ps[i].0@,
                #[trigger] ps[j].0@,
            ) by {
                assert(ps[i].0@ == e[i].0 && ps[j].0@ == e[j].0);
            }
            assert forall|i: int| 0 <= i < ps.len() implies self.view().contains_key(
                #[trigger] ps[i].0@,
            ) && ps[i].1@ == self.view()[ps[i].0@] by {
                assert(ps[i].0@ == e[i].0);
            }
            assert forall|k: Seq<u8>| #[trigger] self.view().contains_key(k) implies exists|i: int|
                0 <= i < ps.len() && ps[i].0@ == k by {
                assert(has_prefix(k, Seq::<u8>::empty()));
                assert(self.indexer.view().contains_key(k));
                let i = choose|i: int| 0 <= i < e.len() && e[i].0 == k;
                assert(ps[i].0@ == k);
            }
        }
        assert(self.all_pairs(out@));
        Ok(out)
    }

    /// The pairs hold every key with its value, in ascending key order.
    pub open spec fn all_pairs(&self, ps: Seq<(Vec<u8>, Vec<u8>)>) -> bool {
        &&& forall|i: int, j: int|
            0 <= i < j < ps.len() ==> bytes_lt(#[trigger] ps[i].0@, #[trigger] ps[j].0@)
        &&& forall|i: int|
            0 <= i < ps.len() ==> self.view().contains_key(#[trigger] ps[i].0@) && ps[i].1@
                == self.view()[ps[i].0@]
        &&& forall|k: Seq<u8>| #[trigger]
            self.view().contains_key(k) ==> exists|i: int| 0 <= i < ps.len() && ps[i].0@ == k
    }

    /// Hands the key-value pairs of `pairs` to `f`, in ascending key order,
    /// until `f` returns false.
    pub fn fold<G: FnMut(Vec<u8>, Vec<u8>) -> bool>(&self, mut f: G) -> (r: Result<()>)
        requires
            self.wf(),
            forall|k: Vec<u8>, v: Vec<u8>| f.requires((k, v)),
        ensures
            r is Err ==> r->Err_0 is FailToReadFromDataFile,
    {
        let ps = match self.pairs() {
            Ok(ps) => ps,
            Err(e) => return Err(e),
        };
        let mut i: usize = 0;
        while i < ps.len()
            invariant
                i <= ps@.len(),
                forall|k: Vec<u8>, v: Vec<u8>| f.requires((k, v)),
            decreases ps@.len() - i,
        {
            let key = copy_bytes(ps[i].0.as_slice());
            let value = copy_bytes(ps[i].1.as_slice());
            if !f(key, value) {
                return Ok(());
            }
            i = i + 1;
        }
        Ok(())
    }
}

} // verus!
