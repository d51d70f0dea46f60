use vstd::prelude::*;

use crate::log_record::{copy_bytes, LogRecordPos};
use crate::options::IndexIteratorOptions;

verus! {

/// Lexicographic order on byte strings, bytes compared unsigned; a proper
/// prefix comes first.
#[verifier::opaque]
pub open spec fn bytes_lt(a: Seq<u8>, b: Seq<u8>) -> bool
    decreases a.len(),
{
    if a.len() == 0 {
        b.len() > 0
    } else if b.len() == 0 {
        false
    } else if a[0] != b[0] {
        a[0] < b[0]
    } else {
        bytes_lt(a.drop_first(), b.drop_first())
    }
}

pub proof fn lemma_bytes_lt_irreflexive(a: Seq<u8>)
    ensures
        !bytes_lt(a, a),
    decreases a.len(),
{
    reveal(bytes_lt);
    if a.len() > 0 {
        lemma_bytes_lt_irreflexive(a.drop_first());
    }
}

/// Of two different byte strings, exactly one comes first.
pub proof fn lemma_bytes_lt_total(a: Seq<u8>, b: Seq<u8>)
    ensures
        a != b ==> (bytes_lt(a, b) || bytes_lt(b, a)),
        !(bytes_lt(a, b) && bytes_lt(b, a)),
        bytes_lt(a, b) ==> a != b,
    decreases a.len(),
{
    reveal(bytes_lt);
    lemma_bytes_lt_irreflexive(a);
    if a.len() > 0 && b.len() > 0 && a[0] == b[0] {
        lemma_bytes_lt_total(a.drop_first(), b.drop_first());
        if a != b {
            assert(a =~= seq![a[0]] + a.drop_first());
            assert(b =~= seq![b[0]] + b.drop_first());
        }
    } else if a.len() == 0 && b.len() == 0 {
        assert(a =~= b);
    }
}

pub proof fn lemma_bytes_lt_transitive(a: Seq<u8>, b: Seq<u8>, c: Seq<u8>)
    requires
        bytes_lt(a, b),
        bytes_lt(b, c),
    ensures
        bytes_lt(a, c),
    decreases a.len(),
{
    reveal(bytes_lt);
    if a.len() > 0 && b.len() > 0 && c.len() > 0 && a[0] == b[0] && b[0] == c[0] {
        lemma_bytes_lt_transitive(a.drop_first(), b.drop_first(), c.drop_first());
    }
}

pub proof fn lemma_bytes_lt_unfold(a: Seq<u8>, b: Seq<u8>)
    ensures
        bytes_lt(a, b) == (if a.len() == 0 {
            b.len() > 0
        } else if b.len() == 0 {
            false
        } else if a[0] != b[0] {
            a[0] < b[0]
        } else {
            bytes_lt(a.drop_first(), b.drop_first())
        }),
{
    reveal(bytes_lt);
}

/// Compares two byte strings in the order above.
pub fn compare_bytes(a: &[u8], b: &[u8]) -> (r: core::cmp::Ordering)
    ensures
        (r is Less) == bytes_lt(a@, b@),
        (r is Equal) == (a@ == b@),
        (r is Greater) == bytes_lt(b@, a@),
{
    proof {
        lemma_bytes_lt_total(a@, b@);
    }
    assert(a@.skip(0) =~= a@);
    assert(b@.skip(0) =~= b@);
    assert(a@.take(0) =~= b@.take(0));
    let mut i: usize = 0;
    while i < a.len() && i < b.len()
        invariant
            i <= a@.len(),
            i <= b@.len(),
            a@.take(i as int) == b@.take(i as int),
            bytes_lt(a@, b@) == bytes_lt(a@.skip(i as int), b@.skip(i as int)),
            bytes_lt(b@, a@) == bytes_lt(b@.skip(i as int), a@.skip(i as int)),
        decreases a@.len() - i,
    {
        proof {
            lemma_bytes_lt_unfold(a@.skip(i as int), b@.skip(i as int));
            lemma_bytes_lt_unfold(b@.skip(i as int), a@.skip(i as int));
        }
        if a[i] < b[i] {
            return core::cmp::Ordering::Less;
        }
        if a[i] > b[i] {
            return core::cmp::Ordering::Greater;
        }
        assert(a@.skip(i as int).drop_first() =~= a@.skip(i + 1));
        assert(b@.skip(i as int).drop_first() =~= b@.skip(i + 1));
        proof {
            lemma_bytes_lt_unfold(a@.skip(i as int), b@.skip(i as int));
            lemma_bytes_lt_unfold(b@.skip(i as int), a@.skip(i as int));
        }
        assert(a@.take(i + 1) =~= a@.take(i as int).push(a@[i as int]));
        assert(b@.take(i + 1) =~= b@.take(i as int).push(b@[i as int]));
        i = i + 1;
    }
    proof {
        lemma_bytes_lt_unfold(a@.skip(i as int), b@.skip(i as int));
        lemma_bytes_lt_unfold(b@.skip(i as int), a@.skip(i as int));
    }
    if a.len() < b.len() {
        core::cmp::Ordering::Less
    } else if a.len() > b.len() {
        core::cmp::Ordering::Greater
    } else {
        assert(a@ =~= a@.take(i as int));
        assert(b@ =~= b@.take(i as int));
        core::cmp::Ordering::Equal
    }
}

/// `key` begins with `prefix`.
pub open spec fn has_prefix(key: Seq<u8>, prefix: Seq<u8>) -> bool {
    prefix.len() <= key.len() && key.take(prefix.len() as int) == prefix
}

pub fn starts_with(key: &[u8], prefix: &[u8]) -> (r: bool)
    ensures
        r == has_prefix(key@, prefix@),
{
    if prefix.len() > key.len() {
        return false;
    }
    let mut i: usize = 0;
    while i < prefix.len()
        invariant
            prefix@.len() <= key@.len(),
            i <= prefix@.len(),
            key@.take(i as int) == prefix@.take(i as int),
        decreases prefix@.len() - i,
    {
        if key[i] != prefix[i] {
            assert(key@.take(prefix@.len() as int)[i as int] != prefix@[i as int]);
            return false;
        }
        assert(key@.take(i + 1) =~= key@.take(i as int).push(key@[i as int]));
        assert(prefix@.take(i + 1) =~= prefix@.take(i as int).push(prefix@[i as int]));
        i = i + 1;
    }
    assert(prefix@.take(i as int) =~= prefix@);
    true
}

/// The entries' keys and locations, keys as byte strings.
pub open spec fn entries_view(items: Seq<(Vec<u8>, LogRecordPos)>) -> Seq<(Seq<u8>, LogRecordPos)> {
    items.map_values(|e: (Vec<u8>, LogRecordPos)| (e.0@, e.1))
}

/// Keys strictly ascending.
pub open spec fn ascending(s: Seq<(Seq<u8>, LogRecordPos)>) -> bool {
    forall|i: int, j: int| 0 <= i < j < s.len() ==> bytes_lt(#[trigger] s[i].0, #[trigger] s[j].0)
}

/// Keys strictly descending.
pub open spec fn descending(s: Seq<(Seq<u8>, LogRecordPos)>) -> bool {
    forall|i: int, j: int| 0 <= i < j < s.len() ==> bytes_lt(#[trigger] s[j].0, #[trigger] s[i].0)
}

/// The map that a sequence of entries with distinct keys stands for.
pub open spec fn map_of(s: Seq<(Seq<u8>, LogRecordPos)>) -> Map<Seq<u8>, LogRecordPos> {
    Map::new(|k: Seq<u8>| exists|i: int| 0 <= i < s.len() && s[i].0 == k, |k: Seq<u8>| s[key_index(s, k)].1)
}

/// An index at which `k` stands, if any does.
pub open spec fn key_index(s: Seq<(Seq<u8>, LogRecordPos)>, k: Seq<u8>) -> int {
    choose|i: int| 0 <= i < s.len() && s[i].0 == k
}

/// In an ascending sequence the entry with a given key is the one at its index.
pub proof fn lemma_map_of_at(s: Seq<(Seq<u8>, LogRecordPos)>, i: int)
    requires
        ascending(s),
        0 <= i < s.len(),
    ensures
        map_of(s).contains_key(s[i].0),
        map_of(s)[s[i].0] == s[i].1,
{
    let k = s[i].0;
    assert(exists|j: int| 0 <= j < s.len() && s[j].0 == k);
    let j = key_index(s, k);
    if j != i {
        lemma_bytes_lt_irreflexive(k);
        if j < i {
            assert(bytes_lt(s[j].0, s[i].0));
        } else {
            assert(bytes_lt(s[i].0, s[j].0));
        }
    }
    assert(map_of(s)[k] == s[j].1);
}

/// The keydir: an ordered map from user key to the location of its record,
/// held as a vector of entries in ascending key order.
pub struct BTreeIndexer {
    pub items: Vec<(Vec<u8>, LogRecordPos)>,
}

impl Default for BTreeIndexer {
    fn default() -> (r: BTreeIndexer)
        ensures
            r.wf(),
            r.view() == Map::<Seq<u8>, LogRecordPos>::empty(),
    {
        BTreeIndexer::new()
    }
}

/// What an index offers the engine.
pub trait Indexer {
    spec fn index_view(&self) -> Map<Seq<u8>, LogRecordPos>;

    spec fn index_wf(&self) -> bool;

    /// Maps `key` to `pos`, replacing what it mapped to.
    fn put(&mut self, key: Vec<u8>, pos: LogRecordPos) -> (r: bool)
        requires
            old(self).index_wf(),
        ensures
            final(self).index_wf(),
            r,
            final(self).index_view() == old(self).index_view().insert(key@, pos),
    ;

    /// Removes `key`; says whether it was there.
    fn delete(&mut self, key: &[u8]) -> (r: bool)
        requires
            old(self).index_wf(),
        ensures
            final(self).index_wf(),
            r == old(self).index_view().contains_key(key@),
            final(self).index_view() == old(self).index_view().remove(key@),
    ;

    /// Where the record of `key` is.
    fn get(&self, key: &[u8]) -> (r: Option<LogRecordPos>)
        requires
            self.index_wf(),
        ensures
            r == (if self.index_view().contains_key(key@) {
                Some(self.index_view()[key@])
            } else {
                None
            }),
    ;
}

impl BTreeIndexer {
    pub open spec fn entries(&self) -> Seq<(Seq<u8>, LogRecordPos)> {
        entries_view(self.items@)
    }

    pub open spec fn wf(&self) -> bool {
        ascending(self.entries())
    }

    pub open spec fn view(&self) -> Map<Seq<u8>, LogRecordPos> {
        map_of(self.entries())
    }

    pub fn new() -> (r: BTreeIndexer)
        ensures
            r.wf(),
            r.view() == Map::<Seq<u8>, LogRecordPos>::empty(),
    {
        let r = BTreeIndexer { items: Vec::new() };
        assert(r.view() =~= Map::<Seq<u8>, LogRecordPos>::empty());
        r
    }

    /// Binary search: whether `key` is present, and its index or the index
    /// where it would go.
    fn search(&self, key: &[u8]) -> (r: (bool, usize))
        requires
            self.wf(),
        ensures
            r.1 <= self.entries().len(),
            r.0 ==> r.1 < self.entries().len() && self.entries()[r.1 as int].0 == key@,
            !r.0 ==> forall|i: int|
                0 <= i < self.entries().len() ==> (i < r.1 ==> bytes_lt(
                    #[trigger] self.entries()[i].0,
                    key@,
                )) && (i >= r.1 ==> bytes_lt(key@, self.entries()[i].0)),
    {
        let ghost e = self.entries();
        let mut lo: usize = 0;
        let mut hi: usize = self.items.len();
        while lo < hi
            invariant
                e == self.entries(),
                self.wf(),
                e.len() == self.items@.len(),
                lo <= hi <= e.len(),
                forall|i: int| 0 <= i < lo ==> bytes_lt(#[trigger] e[i].0, key@),
                forall|i: int| hi <= i < e.len() ==> bytes_lt(key@, #[trigger] e[i].0),
            decreases hi - lo,
        {
            let mid = lo + (hi - lo) / 2;
            let c = compare_bytes(self.items[mid].0.as_slice(), key);
            assert(e[mid as int].0 == self.items@[mid as int].0@);
            match c {
                core::cmp::Ordering::Equal => {
                    return (true, mid);
                },
                core::cmp::Ordering::Less => {
                    assert forall|i: int| 0 <= i < mid + 1 implies bytes_lt(
                        #[trigger] e[i].0,
                        key@,
                    ) by {
                        if i < mid {
                            lemma_bytes_lt_transitive(e[i].0, e[mid as int].0, key@);
                        }
                    }
                    lo = mid + 1;
                },
                core::cmp::Ordering::Greater => {
                    assert forall|i: int| mid <= i < e.len() implies bytes_lt(
                        key@,
                        #[trigger] e[i].0,
                    ) by {
                        if i > mid {
                            lemma_bytes_lt_transitive(key@, e[mid as int].0, e[i].0);
                        }
                    }
                    hi = mid;
                },
            }
        }
        (false, lo)
    }

    /// The keys in ascending order.
    pub fn list_keys(&self) -> (r: Vec<Vec<u8>>)
        requires
            self.wf(),
        ensures
            r@.len() == self.entries().len(),
            forall|i: int| 0 <= i < r@.len() ==> (#[trigger] r@[i])@ == self.entries()[i].0,
    {
        let mut r: Vec<Vec<u8>> = Vec::new();
        let mut i: usize = 0;
        while i < self.items.len()
            invariant
                i <= self.items@.len(),
                r@.len() == i,
                forall|j: int| 0 <= j < i ==> (#[trigger] r@[j])@ == self.entries()[j].0,
            decreases self.items@.len() - i,
        {
            r.push(copy_bytes(self.items[i].0.as_slice()));
            i = i + 1;
        }
        r
    }

    /// A snapshot of the entries whose key begins with the options' prefix,
    /// in ascending key order, or descending where the options say reverse.
    pub fn iterator(&self, options: IndexIteratorOptions) -> (r: BtreeIndexIterator)
        requires
            self.wf(),
        ensures
            r.wf(),
            r.pos == 0,
            r.options == options,
            r.entries() == snapshot(self.entries(), options.prefix@, options.reverse),
            r.snapshot_of(self.view()),
    {
        let mut items: Vec<(Vec<u8>, LogRecordPos)> = Vec::new();
        let n = self.items.len();
        let ghost e = self.entries();
        let mut i: usize = 0;
        while i < n
            invariant
                e == self.entries(),
                n == e.len(),
                i <= n,
                entries_view(items@) == prefix_filter(e.take(i as int), options.prefix@),
            decreases n - i,
        {
            let ghost before = entries_view(items@);
            assert(e.take(i + 1).drop_last() =~= e.take(i as int));
            if starts_with(self.items[i].0.as_slice(), options.prefix.as_slice()) {
                let key = copy_bytes(self.items[i].0.as_slice());
                items.push((key, self.items[i].1));
                assert(entries_view(items@) =~= before.push(e[i as int]));
            }
            i = i + 1;
        }
        assert(e.take(n as int) =~= e);
        let ghost fwd = entries_view(items@);
        if options.reverse {
            let mut out: Vec<(Vec<u8>, LogRecordPos)> = Vec::new();
            let m = items.len();
            let mut j: usize = 0;
            while j < m
                invariant
                    m == items@.len(),
                    fwd == entries_view(items@),
                    j <= m,
                    entries_view(out@) == reversed(fwd).take(j as int),
                decreases m - j,
            {
                let ghost before = entries_view(out@);
                let key = copy_bytes(items[m - 1 - j].0.as_slice());
                assert(fwd[m - 1 - j] == (items@[m - 1 - j].0@, items@[m - 1 - j].1));
                out.push((key, items[m - 1 - j].1));
                assert(entries_view(out@) =~= before.push(fwd[m - 1 - j]));
                assert(entries_view(out@) =~= reversed(fwd).take(j + 1));
                j = j + 1;
            }
            assert(reversed(fwd).take(m as int) =~= reversed(fwd));
            items = out;
        }
        let r = BtreeIndexIterator { items, pos: 0, options };
        proof {
            lemma_snapshot(e, options.prefix@, options.reverse);
        }
        r
    }
}

/// The entries whose key begins with `pre`, in their order.
pub open spec fn prefix_filter(s: Seq<(Seq<u8>, LogRecordPos)>, pre: Seq<u8>) -> Seq<
    (Seq<u8>, LogRecordPos),
>
    decreases s.len(),
{
    if s.len() == 0 {
        s
    } else {
        let r = prefix_filter(s.drop_last(), pre);
        if has_prefix(s.last().0, pre) {
            r.push(s.last())
        } else {
            r
        }
    }
}

/// `s` back to front.
pub open spec fn reversed(s: Seq<(Seq<u8>, LogRecordPos)>) -> Seq<(Seq<u8>, LogRecordPos)> {
    Seq::new(s.len(), |t: int| s[s.len() - 1 - t])
}

/// What an iterator over entries `e` holds: those with the prefix, ascending,
/// or descending for a reverse iterator.
pub open spec fn snapshot(e: Seq<(Seq<u8>, LogRecordPos)>, pre: Seq<u8>, rev: bool) -> Seq<
    (Seq<u8>, LogRecordPos),
> {
    if rev {
        reversed(prefix_filter(e, pre))
    } else {
        prefix_filter(e, pre)
    }
}

/// Filtering keeps the order and keeps exactly the entries with the prefix.
pub proof fn lemma_prefix_filter(s: Seq<(Seq<u8>, LogRecordPos)>, pre: Seq<u8>)
    requires
        ascending(s),
    ensures
        ascending(prefix_filter(s, pre)),
        forall|a: int|
            0 <= a < prefix_filter(s, pre).len() ==> has_prefix(
                #[trigger] prefix_filter(s, pre)[a].0,
                pre,
            ) && exists|j: int| 0 <= j < s.len() && s[j] == prefix_filter(s, pre)[a],
        forall|j: int|
            0 <= j < s.len() && has_prefix(#[trigger] s[j].0, pre) ==> exists|a: int|
                0 <= a < prefix_filter(s, pre).len() && prefix_filter(s, pre)[a] == s[j],
{
    lemma_filter_sound(s, pre);
    lemma_filter_complete(s, pre);
    lemma_filter_order(s, pre);
}

proof fn lemma_filter_sound(s: Seq<(Seq<u8>, LogRecordPos)>, pre: Seq<u8>)
    ensures
        forall|a: int|
            0 <= a < prefix_filter(s, pre).len() ==> has_prefix(
                #[trigger] prefix_filter(s, pre)[a].0,
                pre,
            ) && exists|j: int| 0 <= j < s.len() && s[j] == prefix_filter(s, pre)[a],
    decreases s.len(),
{
    if s.len() > 0 {
        let s0 = s.drop_last();
        lemma_filter_sound(s0, pre);
        let r = prefix_filter(s0, pre);
        let f = prefix_filter(s, pre);
        assert forall|a: int| 0 <= a < f.len() implies has_prefix(#[trigger] f[a].0, pre)
            && exists|j: int| 0 <= j < s.len() && s[j] == f[a] by {
            if a < r.len() {
                assert(f[a] == r[a]);
                assert(has_prefix(r[a].0, pre));
                let j = choose|j: int| 0 <= j < s0.len() && s0[j] == r[a];
                assert(s[j] == s0[j]);
            } else {
                assert(s[s.len() - 1] == f[a]);
            }
        }
    }
}

proof fn lemma_filter_complete(s: Seq<(Seq<u8>, LogRecordPos)>, pre: Seq<u8>)
    ensures
        forall|j: int|
            0 <= j < s.len() && has_prefix(#[trigger] s[j].0, pre) ==> exists|a: int|
                0 <= a < prefix_filter(s, pre).len() && prefix_filter(s, pre)[a] == s[j],
    decreases s.len(),
{
    if s.len() > 0 {
        let s0 = s.drop_last();
        lemma_filter_complete(s0, pre);
        let r = prefix_filter(s0, pre);
        let f = prefix_filter(s, pre);
        assert forall|j: int| 0 <= j < s.len() && has_prefix(#[trigger] s[j].0, pre) implies exists|
            a: int,
        | 0 <= a < f.len() && f[a] == s[j] by {
            if j < s.len() - 1 {
                assert(s0[j] == s[j]);
                let a = choose|a: int| 0 <= a < r.len() && r[a] == s0[j];
                assert(f[a] == r[a]);
            } else {
                assert(f[f.len() - 1] == s[j]);
            }
        }
    }
}

proof fn lemma_filter_order(s: Seq<(Seq<u8>, LogRecordPos)>, pre: Seq<u8>)
    requires
        ascending(s),
    ensures
        ascending(prefix_filter(s, pre)),
    decreases s.len(),
{
    if s.len() > 0 {
        let s0 = s.drop_last();
        assert(ascending(s0));
        lemma_filter_order(s0, pre);
        lemma_filter_sound(s0, pre);
        let r = prefix_filter(s0, pre);
        let f = prefix_filter(s, pre);
        if has_prefix(s.last().0, pre) {
            assert forall|a: int, b: int| 0 <= a < b < f.len() implies bytes_lt(
                #[trigger] f[a].0,
                #[trigger] f[b].0,
            ) by {
                if b == f.len() - 1 {
                    assert(has_prefix(r[a].0, pre));
                    let j = choose|j: int| 0 <= j < s0.len() && s0[j] == r[a];
                    assert(s[j] == s0[j]);
                    assert(bytes_lt(s[j].0, s[s.len() - 1].0));
                } else {
                    assert(f[a] == r[a] && f[b] == r[b]);
                }
            }
        }
    }
}

/// A snapshot of an ascending sequence of entries is ordered in its
/// direction and holds exactly the entries of the map with the prefix.
pub proof fn lemma_snapshot(e: Seq<(Seq<u8>, LogRecordPos)>, pre: Seq<u8>, rev: bool)
    requires
        ascending(e),
    ensures
        rev ==> descending(snapshot(e, pre, rev)),
        !rev ==> ascending(snapshot(e, pre, rev)),
        snapshot_members(snapshot(e, pre, rev), map_of(e), pre),
{
    lemma_prefix_filter(e, pre);
    lemma_snapshot_sound(e, pre, rev);
    lemma_snapshot_complete(e, pre, rev);
    let f = prefix_filter(e, pre);
    let sn = snapshot(e, pre, rev);
    if rev {
        assert forall|a: int, b: int| 0 <= a < b < sn.len() implies bytes_lt(
            #[trigger] sn[b].0,
            #[trigger] sn[a].0,
        ) by {
            assert(sn[b] == f[f.len() - 1 - b]);
            assert(sn[a] == f[f.len() - 1 - a]);
        }
    }
}

/// A sequence of entries holds exactly the entries of `m` whose key begins
/// with `pre`.
pub open spec fn snapshot_members(
    sn: Seq<(Seq<u8>, LogRecordPos)>,
    m: Map<Seq<u8>, LogRecordPos>,
    pre: Seq<u8>,
) -> bool {
    &&& forall|i: int|
        0 <= i < sn.len() ==> has_prefix(#[trigger] sn[i].0, pre) && m.contains_key(sn[i].0)
            && m[sn[i].0] == sn[i].1
    &&& forall|k: Seq<u8>|
        #[trigger] m.contains_key(k) && has_prefix(k, pre) ==> exists|i: int|
            0 <= i < sn.len() && sn[i].0 == k
}

proof fn lemma_snapshot_sound(e: Seq<(Seq<u8>, LogRecordPos)>, pre: Seq<u8>, rev: bool)
    requires
        ascending(e),
        forall|a: int|
            0 <= a < prefix_filter(e, pre).len() ==> has_prefix(
                #[trigger] prefix_filter(e, pre)[a].0,
                pre,
            ) && exists|j: int| 0 <= j < e.len() && e[j] == prefix_filter(e, pre)[a],
    ensures
        forall|i: int|
            0 <= i < snapshot(e, pre, rev).len() ==> has_prefix(
                #[trigger] snapshot(e, pre, rev)[i].0,
                pre,
            ) && map_of(e).contains_key(snapshot(e, pre, rev)[i].0) && map_of(e)[snapshot(
                e,
                pre,
                rev,
            )[i].0] == snapshot(e, pre, rev)[i].1,
{
    let f = prefix_filter(e, pre);
    let sn = snapshot(e, pre, rev);
    assert forall|i: int| 0 <= i < sn.len() implies has_prefix(#[trigger] sn[i].0, pre)
        && map_of(e).contains_key(sn[i].0) && map_of(e)[sn[i].0] == sn[i].1 by {
        let a = if rev {
            f.len() - 1 - i
        } else {
            i
        };
        assert(sn[i] == f[a]);
        assert(has_prefix(f[a].0, pre));
        let j = choose|j: int| 0 <= j < e.len() && e[j] == f[a];
        lemma_map_of_at(e, j);
    }
}

proof fn lemma_snapshot_complete(e: Seq<(Seq<u8>, LogRecordPos)>, pre: Seq<u8>, rev: bool)
    requires
        forall|j: int|
            0 <= j < e.len() && has_prefix(#[trigger] e[j].0, pre) ==> exists|a: int|
                0 <= a < prefix_filter(e, pre).len() && prefix_filter(e, pre)[a] == e[j],
    ensures
        forall|k: Seq<u8>|
            #[trigger] map_of(e).contains_key(k) && has_prefix(k, pre) ==> exists|i: int|
                0 <= i < snapshot(e, pre, rev).len() && snapshot(e, pre, rev)[i].0 == k,
{
    let f = prefix_filter(e, pre);
    let sn = snapshot(e, pre, rev);
    assert forall|k: Seq<u8>| #[trigger]
        map_of(e).contains_key(k) && has_prefix(k, pre) implies exists|i: int|
        0 <= i < sn.len() && sn[i].0 == k by {
        let j = key_index(e, k);
        assert(has_prefix(e[j].0, pre));
        let a = choose|a: int| 0 <= a < f.len() && f[a] == e[j];
        if rev {
            assert(sn[f.len() - 1 - a] == f[a]);
        } else {
            assert(sn[a] == f[a]);
        }
    }
}

impl Indexer for BTreeIndexer {
    open spec fn index_view(&self) -> Map<Seq<u8>, LogRecordPos> {
        self.view()
    }

    open spec fn index_wf(&self) -> bool {
        self.wf()
    }

    fn put(&mut self, key: Vec<u8>, pos: LogRecordPos) -> (r: bool) {
        let (found, i) = self.search(key.as_slice());
        let ghost e = self.entries();
        let ghost k = key@;
        if found {
            self.items.set(i, (key, pos));
            let ghost e_new = self.entries();
            assert(e_new =~= e.update(i as int, (k, pos)));
            assert(self.view() =~= map_of(e).insert(k, pos)) by {
                assert forall|x: Seq<u8>| #[trigger] map_of(e_new).contains_key(x) <==> map_of(
                    e,
                ).insert(k, pos).contains_key(x) by {
                    if map_of(e_new).contains_key(x) {
                        let j = choose|j: int| 0 <= j < e_new.len() && e_new[j].0 == x;
                        if j != i {
                            assert(e[j].0 == x);
                        }
                    }
                    if map_of(e).contains_key(x) {
                        let j = choose|j: int| 0 <= j < e.len() && e[j].0 == x;
                        assert(e_new[j].0 == x);
                    }
                    if x == k {
                        assert(e_new[i as int].0 == x);
                    }
                }
                assert forall|x: Seq<u8>| #[trigger]
                    map_of(e_new).contains_key(x) implies map_of(e_new)[x] == map_of(e).insert(k, pos)[x] by {
                    let j = choose|j: int| 0 <= j < e_new.len() && e_new[j].0 == x;
                    lemma_map_of_at(e_new, j);
                    if j != i {
                        lemma_map_of_at(e, j);
                        lemma_bytes_lt_irreflexive(x);
                        if j < i {
                            assert(bytes_lt(e[j].0, e[i as int].0));
                        } else {
                            assert(bytes_lt(e[i as int].0, e[j].0));
                        }
                    }
                }
            }
        } else {
            self.items.insert(i, (key, pos));
            let ghost e_new = self.entries();
            assert(e_new =~= e.insert(i as int, (k, pos)));
            assert forall|a: int, b: int| 0 <= a < b < e_new.len() implies bytes_lt(
                #[trigger] e_new[a].0,
                #[trigger] e_new[b].0,
            ) by {
                if a < i && b == i {
                } else if a == i && b > i {
                } else if a < i && b > i {
                    lemma_bytes_lt_transitive(e_new[a].0, k, e_new[b].0);
                } else if b < i {
                    assert(e_new[a] == e[a] && e_new[b] == e[b]);
                } else {
                    assert(e_new[a] == e[a - 1] && e_new[b] == e[b - 1]);
                }
            }
            assert(self.view() =~= map_of(e).insert(k, pos)) by {
                assert forall|x: Seq<u8>| #[trigger] map_of(e_new).contains_key(x) <==> map_of(
                    e,
                ).insert(k, pos).contains_key(x) by {
                    if map_of(e_new).contains_key(x) {
                        let j = choose|j: int| 0 <= j < e_new.len() && e_new[j].0 == x;
                        if j < i {
                            assert(e[j].0 == x);
                        } else if j > i {
                            assert(e[j - 1].0 == x);
                        }
                    }
                    if map_of(e).contains_key(x) {
                        let j = choose|j: int| 0 <= j < e.len() && e[j].0 == x;
                        if j < i {
                            assert(e_new[j].0 == x);
                        } else {
                            assert(e_new[j + 1].0 == x);
                        }
                    }
                    if x == k {
                        assert(e_new[i as int].0 == x);
                    }
                }
                assert forall|x: Seq<u8>| #[trigger]
                    map_of(e_new).contains_key(x) implies map_of(e_new)[x] == map_of(e).insert(k, pos)[x] by {
                    let j = choose|j: int| 0 <= j < e_new.len() && e_new[j].0 == x;
                    lemma_map_of_at(e_new, j);
                    if j < i {
                        lemma_map_of_at(e, j);
                        lemma_bytes_lt_total(x, k);
                    } else if j > i {
                        lemma_map_of_at(e, j - 1);
                        lemma_bytes_lt_total(x, k);
                    }
                }
            }
        }
        true
    }

    fn delete(&mut self, key: &[u8]) -> (r: bool) {
        let (found, i) = self.search(key);
        let ghost e = self.entries();
        let ghost k = key@;
        if found {
            self.items.remove(i);
            let ghost e_new = self.entries();
            assert(e_new =~= e.remove(i as int));
            assert forall|a: int, b: int| 0 <= a < b < e_new.len() implies bytes_lt(
                #[trigger] e_new[a].0,
                #[trigger] e_new[b].0,
            ) by {
                if b < i {
                    assert(e_new[a] == e[a] && e_new[b] == e[b]);
                } else if a < i {
                    assert(e_new[a] == e[a] && e_new[b] == e[b + 1]);
                } else {
                    assert(e_new[a] == e[a + 1] && e_new[b] == e[b + 1]);
                }
            }
            proof {
                lemma_map_of_at(e, i as int);
            }
            assert(self.view() =~= map_of(e).remove(k)) by {
                assert forall|x: Seq<u8>| #[trigger] map_of(e_new).contains_key(x) <==> map_of(
                    e,
                ).remove(k).contains_key(x) by {
                    if map_of(e_new).contains_key(x) {
                        let j = choose|j: int| 0 <= j < e_new.len() && e_new[j].0 == x;
                        let j0 = if j < i {
                            j
                        } else {
                            j + 1
                        };
                        assert(e[j0].0 == x);
                        lemma_bytes_lt_irreflexive(x);
                        if j0 < i {
                            assert(bytes_lt(e[j0].0, e[i as int].0));
                        } else {
                            assert(bytes_lt(e[i as int].0, e[j0].0));
                        }
                    }
                    if map_of(e).contains_key(x) && x != k {
                        let j = choose|j: int| 0 <= j < e.len() && e[j].0 == x;
                        if j < i {
                            assert(e_new[j].0 == x);
                        } else {
                            assert(j != i);
                            assert(e_new[j - 1].0 == x);
                        }
                    }
                }
                assert forall|x: Seq<u8>| #[trigger]
                    map_of(e_new).contains_key(x) implies map_of(e_new)[x] == map_of(e).remove(k)[x] by {
                    let j = choose|j: int| 0 <= j < e_new.len() && e_new[j].0 == x;
                    lemma_map_of_at(e_new, j);
                    if j < i {
                        lemma_map_of_at(e, j);
                    } else {
                        lemma_map_of_at(e, j + 1);
                    }
                }
            }
            true
        } else {
            proof {
                lemma_not_found(e, k, i as int);
            }
            assert(map_of(e).remove(k) =~= map_of(e));
            false
        }
    }

    fn get(&self, key: &[u8]) -> (r: Option<LogRecordPos>) {
        let (found, i) = self.search(key);
        if found {
            proof {
                lemma_map_of_at(self.entries(), i as int);
            }
            Some(self.items[i].1)
        } else {
            proof {
                lemma_not_found(self.entries(), key@, i as int);
            }
            None
        }
    }
}

/// A key that sorts strictly between the entries is none of them.
proof fn lemma_not_found(e: Seq<(Seq<u8>, LogRecordPos)>, k: Seq<u8>, p: int)
    requires
        forall|i: int|
            0 <= i < e.len() ==> (i < p ==> bytes_lt(#[trigger] e[i].0, k)) && (i >= p
                ==> bytes_lt(k, e[i].0)),
    ensures
        !map_of(e).contains_key(k),
{
    if map_of(e).contains_key(k) {
        let j = choose|j: int| 0 <= j < e.len() && e[j].0 == k;
        lemma_bytes_lt_irreflexive(k);
    }
}

/// A snapshot of index entries with a cursor.
pub struct BtreeIndexIterator {
    pub items: Vec<(Vec<u8>, LogRecordPos)>,
    pub pos: usize,
    pub options: IndexIteratorOptions,
}

impl BtreeIndexIterator {
    pub open spec fn entries(&self) -> Seq<(Seq<u8>, LogRecordPos)> {
        entries_view(self.items@)
    }

    /// Keys ascending, or descending for a reverse iterator.
    pub open spec fn wf(&self) -> bool {
        &&& self.pos <= self.entries().len()
        &&& self.options.reverse ==> descending(self.entries())
        &&& !self.options.reverse ==> ascending(self.entries())
    }

    /// The snapshot holds exactly the entries of `m` whose key begins with the prefix.
    pub open spec fn snapshot_of(&self, m: Map<Seq<u8>, LogRecordPos>) -> bool {
        snapshot_members(self.entries(), m, self.options.prefix@)
    }

    /// The entry at `i` comes before `key` in the iterator's direction.
    pub open spec fn before(&self, i: int, key: Seq<u8>) -> bool {
        if self.options.reverse {
            bytes_lt(key, self.entries()[i].0)
        } else {
            bytes_lt(self.entries()[i].0, key)
        }
    }

    /// Back to the first entry.
    pub fn rewind(&mut self)
        requires
            old(self).wf(),
        ensures
            final(self).wf(),
            final(self).pos == 0,
            final(self).items@ == old(self).items@,
            final(self).options == old(self).options,
    {
        self.pos = 0;
    }

    /// Moves to the first entry at or after `key` in the iterator's
    /// direction: the first key `>= key`, or `<= key` in reverse.
    pub fn seek(&mut self, key: &[u8])
        requires
            old(self).wf(),
        ensures
            final(self).wf(),
            final(self).items@ == old(self).items@,
            final(self).options == old(self).options,
            forall|i: int| 0 <= i < final(self).pos ==> #[trigger] final(self).before(i, key@),
            forall|i: int|
                final(self).pos <= i < final(self).entries().len()
                    ==> !(#[trigger] final(self).before(i, key@)),
    {
        let ghost e = self.entries();
        let mut lo: usize = 0;
        let mut hi: usize = self.items.len();
        while lo < hi
            invariant
                self.wf(),
                e == self.entries(),
                lo <= hi <= e.len(),
                forall|i: int| 0 <= i < lo ==> #[trigger] self.before(i, key@),
                forall|i: int| hi <= i < e.len() ==> !(#[trigger] self.before(i, key@)),
            decreases hi - lo,
        {
            let mid = lo + (hi - lo) / 2;
            let c = compare_bytes(self.items[mid].0.as_slice(), key);
            assert(e[mid as int].0 == self.items@[mid as int].0@);
            let b = match c {
                core::cmp::Ordering::Less => !self.options.reverse,
                core::cmp::Ordering::Equal => false,
                core::cmp::Ordering::Greater => self.options.reverse,
            };
            proof {
                lemma_bytes_lt_total(e[mid as int].0, key@);
                lemma_bytes_lt_irreflexive(key@);
            }
            if b {
                assert forall|i: int| 0 <= i < mid + 1 implies #[trigger] self.before(i, key@) by {
                    if i < mid {
                        if self.options.reverse {
                            lemma_bytes_lt_transitive(key@, e[mid as int].0, e[i].0);
                        } else {
                            lemma_bytes_lt_transitive(e[i].0, e[mid as int].0, key@);
                        }
                    }
                }
                lo = mid + 1;
            } else {
                assert forall|i: int| mid <= i < e.len() implies !(#[trigger] self.before(
                    i,
                    key@,
                )) by {
                    if i > mid {
                        lemma_bytes_lt_total(e[i].0, key@);
                        if self.options.reverse {
                            assert(bytes_lt(e[i].0, e[mid as int].0));
                            if bytes_lt(key@, e[i].0) {
                                lemma_bytes_lt_transitive(key@, e[i].0, e[mid as int].0);
                            }
                        } else {
                            assert(bytes_lt(e[mid as int].0, e[i].0));
                            if bytes_lt(e[i].0, key@) {
                                lemma_bytes_lt_transitive(e[mid as int].0, e[i].0, key@);
                            }
                        }
                    }
                }
                hi = mid;
            }
        }
        let ghost prev = *self;
        self.pos = lo;
        assert(self.entries() == prev.entries());
        assert forall|i: int| 0 <= i < e.len() implies #[trigger] self.before(i, key@) == prev.before(
            i,
            key@,
        ) by {}
    }

    /// The entry under the cursor, which then moves on; `None` at the end.
    pub fn next(&mut self) -> (r: Option<(Vec<u8>, LogRecordPos)>)
        requires
            old(self).wf(),
        ensures
            final(self).wf(),
            final(self).items@ == old(self).items@,
            final(self).options == old(self).options,
            old(self).pos < old(self).entries().len() ==> r is Some
                && final(self).pos == old(self).pos + 1
                && r.unwrap().0@ == old(self).entries()[old(self).pos as int].0
                && r.unwrap().1 == old(self).entries()[old(self).pos as int].1,
            old(self).pos >= old(self).entries().len() ==> r is None
                && final(self).pos == old(self).pos,
    {
        if self.pos >= self.items.len() {
            return None;
        }
        let key = copy_bytes(self.items[self.pos].0.as_slice());
        let pos = self.items[self.pos].1;
        self.pos = self.pos + 1;
        Some((key, pos))
    }
}

/// Two strictly ascending key lists that hold the same keys are the same list.
pub proof fn lemma_sorted_keys_unique(a: Seq<Seq<u8>>, b: Seq<Seq<u8>>)
    requires
        forall|i: int, j: int| 0 <= i < j < a.len() ==> bytes_lt(#[trigger] a[i], #[trigger] a[j]),
        forall|i: int, j: int| 0 <= i < j < b.len() ==> bytes_lt(#[trigger] b[i], #[trigger] b[j]),
        forall|x: Seq<u8>| a.contains(x) <==> b.contains(x),
    ensures
        a == b,
    decreases a.len(),
{
    if a.len() == 0 {
        if b.len() > 0 {
            assert(b.contains(b[0]));
        }
        assert(a =~= b);
    } else if b.len() == 0 {
        assert(a.contains(a[0]));
    } else {
        assert(a.contains(a[0]));
        assert(b.contains(b[0]));
        let i = choose|i: int| 0 <= i < b.len() && b[i] == a[0];
        let j = choose|j: int| 0 <= j < a.len() && a[j] == b[0];
        lemma_bytes_lt_total(a[0], b[0]);
        if i > 0 {
            assert(bytes_lt(b[0], b[i]));
            if j > 0 {
                assert(bytes_lt(a[0], a[j]));
            }
        }
        if j > 0 {
            assert(bytes_lt(a[0], a[j]));
        }
        assert(a[0] == b[0]);
        let a1 = a.drop_first();
        let b1 = b.drop_first();
        assert forall|x: Seq<u8>| a1.contains(x) <==> b1.contains(x) by {
            if a1.contains(x) {
                let k = choose|k: int| 0 <= k < a1.len() && a1[k] == x;
                assert(a.contains(x));
                assert(bytes_lt(a[0], a[k + 1]));
                lemma_bytes_lt_irreflexive(x);
                let m = choose|m: int| 0 <= m < b.len() && b[m] == x;
                if m == 0 {
                    assert(false);
                }
                assert(b1[m - 1] == x);
            }
            if b1.contains(x) {
                let k = choose|k: int| 0 <= k < b1.len() && b1[k] == x;
                assert(b.contains(x));
                assert(bytes_lt(b[0], b[k + 1]));
                lemma_bytes_lt_irreflexive(x);
                let m = choose|m: int| 0 <= m < a.len() && a[m] == x;
                if m == 0 {
                    assert(false);
                }
                assert(a1[m - 1] == x);
            }
        }
        lemma_sorted_keys_unique(a1, b1);
        assert(a =~= seq![a[0]] + a1);
        assert(b =~= seq![b[0]] + b1);
    }
}

/// A cursor over an ordered snapshot of index entries.
pub trait IndexIterator {
    spec fn iter_wf(&self) -> bool;

    spec fn iter_entries(&self) -> Seq<(Seq<u8>, LogRecordPos)>;

    spec fn iter_pos(&self) -> nat;

    /// The entry at `i` comes before `key` in the iterator's direction.
    spec fn iter_before(&self, i: int, key: Seq<u8>) -> bool;

    /// Back to the first entry.
    fn rewind(&mut self)
        requires
            old(self).iter_wf(),
        ensures
            final(self).iter_wf(),
            final(self).iter_entries() == old(self).iter_entries(),
            final(self).iter_pos() == 0,
    ;

    /// Moves to the first entry at or after `key` in the iterator's direction.
    fn seek(&mut self, key: &[u8])
        requires
            old(self).iter_wf(),
        ensures
            final(self).iter_wf(),
            final(self).iter_entries() == old(self).iter_entries(),
            forall|i: int| 0 <= i < final(self).iter_pos() ==> #[trigger] final(self).iter_before(i, key@),
            forall|i: int|
                final(self).iter_pos() <= i < final(self).iter_entries().len()
                    ==> !(#[trigger] final(self).iter_before(i, key@)),
    ;

    /// The entry under the cursor, which then moves on; `None` at the end.
    fn next(&mut self) -> (r: Option<(Vec<u8>, LogRecordPos)>)
        requires
            old(self).iter_wf(),
        ensures
            final(self).iter_wf(),
            final(self).iter_entries() == old(self).iter_entries(),
            old(self).iter_pos() < old(self).iter_entries().len() ==> r is Some
                && final(self).iter_pos() == old(self).iter_pos() + 1
                && r.unwrap().0@ == old(self).iter_entries()[old(self).iter_pos() as int].0
                && r.unwrap().1 == old(self).iter_entries()[old(self).iter_pos() as int].1,
            old(self).iter_pos() >= old(self).iter_entries().len() ==> r is None
                && final(self).iter_pos() == old(self).iter_pos(),
    ;
}

impl IndexIterator for BtreeIndexIterator {
    open spec fn iter_wf(&self) -> bool {
        self.wf()
    }

    open spec fn iter_entries(&self) -> Seq<(Seq<u8>, LogRecordPos)> {
        self.entries()
    }

    open spec fn iter_pos(&self) -> nat {
        self.pos as nat
    }

    open spec fn iter_before(&self, i: int, key: Seq<u8>) -> bool {
        self.before(i, key)
    }

    fn rewind(&mut self) {
        BtreeIndexIterator::rewind(self);
    }

    fn seek(&mut self, key: &[u8]) {
        BtreeIndexIterator::seek(self, key);
    }

    fn next(&mut self) -> (r: Option<(Vec<u8>, LogRecordPos)>) {
        BtreeIndexIterator::next(self)
    }
}

/// What a seek yields: after seeking `key`, the entry under the cursor is
/// the first key of the map with the prefix at or after `key` in the
/// iterator's direction, and every later entry follows it in that direction.
pub proof fn lemma_seek_yields_first(
    it: BtreeIndexIterator,
    m: Map<Seq<u8>, LogRecordPos>,
    key: Seq<u8>,
)
    requires
        it.wf(),
        it.snapshot_of(m),
        forall|i: int| 0 <= i < it.pos ==> #[trigger] it.before(i, key),
        forall|i: int| it.pos <= i < it.entries().len() ==> !(#[trigger] it.before(i, key)),
    ensures
        forall|k: Seq<u8>|
            #[trigger] m.contains_key(k) && has_prefix(k, it.options.prefix@) && (if it.options.reverse {
                !bytes_lt(key, k)
            } else {
                !bytes_lt(k, key)
            }) ==> it.pos < it.entries().len() && (k == it.entries()[it.pos as int].0 || (
            if it.options.reverse {
                bytes_lt(k, it.entries()[it.pos as int].0)
            } else {
                bytes_lt(it.entries()[it.pos as int].0, k)
            })),
        forall|i: int|
            it.pos <= i < it.entries().len() ==> has_prefix(#[trigger] it.entries()[i].0, it.options.prefix@)
                && m.contains_key(it.entries()[i].0) && (if it.options.reverse {
                !bytes_lt(key, it.entries()[i].0)
            } else {
                !bytes_lt(it.entries()[i].0, key)
            }),
{
    let e = it.entries();
    assert forall|k: Seq<u8>|
        #[trigger] m.contains_key(k) && has_prefix(k, it.options.prefix@) && (if it.options.reverse {
            !bytes_lt(key, k)
        } else {
            !bytes_lt(k, key)
        }) implies it.pos < e.len() && (k == e[it.pos as int].0 || (if it.options.reverse {
        bytes_lt(k, e[it.pos as int].0)
    } else {
        bytes_lt(e[it.pos as int].0, k)
    })) by {
        let j = choose|j: int| 0 <= j < e.len() && e[j].0 == k;
        assert(!it.before(j, key));
        if j > it.pos {
            assert(it.before(it.pos as int, key) || !it.before(it.pos as int, key));
        }
    }
    assert forall|i: int| it.pos <= i < e.len() implies has_prefix(
        #[trigger] e[i].0,
        it.options.prefix@,
    ) && m.contains_key(e[i].0) && (if it.options.reverse {
        !bytes_lt(key, e[i].0)
    } else {
        !bytes_lt(e[i].0, key)
    }) by {
        assert(!it.before(i, key));
    }
}

} // verus!
