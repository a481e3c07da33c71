//! The B+-tree index: sorted leaf pages holding tuple pointers, internal
//! pages whose entries pair the largest key below a child with that child.

use vstd::prelude::*;
use crate::error::StorageError;
use crate::files::{page_offset_of, IndexFile};
use crate::layout::{PageId, TuplePointer};
use crate::page::{
    is_insertion_point, keys_sorted, page_in, IndexEntry, IndexPage, IndexPageView, MAX_ENTRIES,
};

verus! {

/// Most levels a search walks down before it gives up on a malformed tree.
pub const MAX_TREE_DEPTH: usize = 64;

/// The page with raw id `raw` in the index file contents `f`, if it is a valid page.
pub open spec fn page_at(f: Seq<u8>, raw: int) -> Option<IndexPageView> {
    if 0 <= page_offset_of(raw) && page_offset_of(raw) + 4096 <= f.len() {
        page_in(f.subrange(page_offset_of(raw), page_offset_of(raw) + 4096))
    } else {
        None
    }
}

/// The root page of `t` in the file contents `f`, when it is a valid leaf.
pub open spec fn root_leaf(t: BTree, f: Seq<u8>) -> Option<IndexPageView> {
    match t.root_page_id {
        Some(root) => match page_at(f, root.0 as int) {
            Some(v) => if v.is_leaf { Some(v) } else { None },
            None => None,
        },
        None => None,
    }
}

/// The pointer stored under `k` in the entries, if any.
pub open spec fn lookup(es: Seq<IndexEntry>, k: u64) -> Option<TuplePointer> {
    if has_key(es, k) {
        Some(es[choose|i: int| 0 <= i < es.len() && es[i].key == k].pointer())
    } else {
        None
    }
}

/// How a split root leaf lies in the index file contents `f`: its lower
/// entries `l` in page `left`, its upper entries `u` in page `right`, the two
/// linked as siblings, and the root an internal page over both, each child
/// under its largest key.
pub open spec fn split_layout(
    f: Seq<u8>,
    root: int,
    left: int,
    right: int,
    l: Seq<IndexEntry>,
    u: Seq<IndexEntry>,
    is_leaf: bool,
) -> bool {
    &&& page_at(f, left) == Some(IndexPageView { is_leaf, prev_page_id: 0, next_page_id: right as u32, entries: l })
    &&& page_at(f, right) == Some(IndexPageView { is_leaf, prev_page_id: left as u32, next_page_id: 0, entries: u })
    &&& page_at(f, root) == Some(
        IndexPageView {
            is_leaf: false,
            prev_page_id: 0,
            next_page_id: 0,
            entries: seq![
                IndexEntry { key: l.last().key, segment_id: left as u32, block_id: 0, slot_id: 0 },
                IndexEntry { key: u.last().key, segment_id: right as u32, block_id: 0, slot_id: 0 },
            ],
        },
    )
}

/// Whether entry `c` of an internal page is the one to follow for `key`:
/// the first whose key is at least `key`, else the last.
pub open spec fn is_child_pos(es: Seq<IndexEntry>, key: u64, c: int) -> bool {
    ||| (0 <= c < es.len() && es[c].key >= key && forall|j: int| 0 <= j < c ==> #[trigger] es[j].key < key)
    ||| (c == es.len() - 1 && es.len() > 0 && forall|j: int| 0 <= j < es.len() ==> #[trigger] es[j].key < key)
}

/// The leaf that a search for `key` reaches in a tree of two levels: the
/// root is a sorted internal page, and the child it names for `key` is a
/// leaf. Gives that leaf's page id and contents.
pub open spec fn leaf_under_root(t: BTree, f: Seq<u8>, key: u64) -> Option<(u32, IndexPageView)> {
    match t.root_page_id {
        Some(root) => match page_at(f, root.0 as int) {
            Some(w) => if !w.is_leaf && keys_sorted(w.entries) && w.entries.len() > 0 {
                let c = choose|c: int| is_child_pos(w.entries, key, c);
                let id = w.entries[c].segment_id;
                match page_at(f, id as int) {
                    Some(v) => if v.is_leaf { Some((id, v)) } else { None },
                    None => None,
                }
            } else {
                None
            },
            None => None,
        },
        None => None,
    }
}

proof fn lemma_child_pos_unique(es: Seq<IndexEntry>, key: u64, c: int, d: int)
    requires
        keys_sorted(es),
        is_child_pos(es, key, c),
        is_child_pos(es, key, d),
    ensures
        c == d,
{
    if c < d {
        assert(es[c].key < key || es[c].key >= key);
        if d == es.len() - 1 && es[c].key >= key {
            assert(es[c].key < key);
        }
    } else if d < c {
        if c == es.len() - 1 && es[d].key >= key {
            assert(es[d].key < key);
        }
    }
}

/// Whether some entry has key `k`.
pub open spec fn has_key(es: Seq<IndexEntry>, k: u64) -> bool {
    exists|i: int| 0 <= i < es.len() && es[i].key == k
}

/// The entries after storing `e`: it replaces the entry with its key, or
/// goes where its key belongs.
pub open spec fn upsert(es: Seq<IndexEntry>, e: IndexEntry) -> Seq<IndexEntry> {
    if has_key(es, e.key) {
        es.update(choose|i: int| 0 <= i < es.len() && es[i].key == e.key, e)
    } else {
        es.insert(choose|p: int| is_insertion_point(es, e.key, p), e)
    }
}

/// The entries whose keys lie in `[lo, hi]`, in order, as key and pointer.
pub open spec fn entries_in_range(es: Seq<IndexEntry>, lo: u64, hi: u64) -> Seq<(u64, TuplePointer)>
    decreases es.len(),
{
    if es.len() == 0 {
        Seq::empty()
    } else {
        entries_in_range(es.drop_last(), lo, hi) + if lo <= es.last().key <= hi {
            seq![(es.last().key, es.last().pointer())]
        } else {
            Seq::empty()
        }
    }
}

/// All entries, in order, as key and pointer.
pub open spec fn pairs_of(es: Seq<IndexEntry>) -> Seq<(u64, TuplePointer)> {
    es.map_values(|e: IndexEntry| (e.key, e.pointer()))
}

proof fn lemma_sorted_unique(es: Seq<IndexEntry>, i: int, j: int)
    requires
        keys_sorted(es),
        0 <= i < es.len(),
        0 <= j < es.len(),
        es[i].key == es[j].key,
    ensures
        i == j,
{
    if i < j {
        assert(es[i].key < es[j].key);
    } else if j < i {
        assert(es[j].key < es[i].key);
    }
}

proof fn lemma_insertion_point_unique(es: Seq<IndexEntry>, k: u64, p: int, q: int)
    requires
        is_insertion_point(es, k, p),
        is_insertion_point(es, k, q),
    ensures
        p == q,
{
    if p < q {
        assert(es[p].key > k);
    } else if q < p {
        assert(es[q].key > k);
    }
}

/// Storing into sorted entries keeps them sorted.
pub proof fn lemma_upsert_sorted(es: Seq<IndexEntry>, e: IndexEntry)
    requires
        keys_sorted(es),
        !has_key(es, e.key) ==> exists|p: int| is_insertion_point(es, e.key, p),
    ensures
        keys_sorted(upsert(es, e)),
        has_key(upsert(es, e), e.key),
{
    if has_key(es, e.key) {
        let i = choose|i: int| 0 <= i < es.len() && es[i].key == e.key;
        let t = es.update(i, e);
        assert(t[i].key == e.key);
    } else {
        let p = choose|p: int| is_insertion_point(es, e.key, p);
        crate::page::lemma_insert_keeps_sorted(es, e, p);
        assert(es.insert(p, e)[p].key == e.key);
    }
}

/// Every key has an insertion point in sorted entries that lack it.
pub proof fn lemma_insertion_point_exists(es: Seq<IndexEntry>, k: u64)
    requires
        keys_sorted(es),
        !has_key(es, k),
    ensures
        exists|p: int| is_insertion_point(es, k, p),
    decreases es.len(),
{
    if es.len() == 0 {
        assert(is_insertion_point(es, k, 0));
    } else {
        let d = es.drop_last();
        assert(keys_sorted(d));
        assert(!has_key(d, k)) by {
            if has_key(d, k) {
                let i = choose|i: int| 0 <= i < d.len() && d[i].key == k;
                assert(es[i].key == k);
            }
        }
        lemma_insertion_point_exists(d, k);
        let p = choose|p: int| is_insertion_point(d, k, p);
        assert(es[es.len() - 1].key != k);
        if es.last().key < k {
            assert(is_insertion_point(es, k, es.len() as int));
        } else {
            assert forall|i: int| p <= i < es.len() implies es[i].key > k by {
                if i < d.len() {
                    assert(es[i] == d[i]);
                }
            }
            assert forall|i: int| 0 <= i < p implies es[i].key < k by {
                assert(es[i] == d[i]);
            }
            assert(is_insertion_point(es, k, p));
        }
    }
}

/// B+-tree upsert idempotence: storing the same key and pointer twice leaves
/// the entries as storing it once did, with exactly one entry for the key,
/// and that entry holds the pointer.
pub proof fn lemma_upsert_idempotent(es: Seq<IndexEntry>, e: IndexEntry)
    requires
        keys_sorted(es),
    ensures
        upsert(upsert(es, e), e) == upsert(es, e),
        keys_sorted(upsert(es, e)),
        exists|i: int| 0 <= i < upsert(es, e).len() && upsert(es, e)[i] == e,
        forall|i: int| 0 <= i < upsert(es, e).len() && #[trigger] upsert(es, e)[i].key == e.key ==> upsert(es, e)[i] == e,
{
    if !has_key(es, e.key) {
        lemma_insertion_point_exists(es, e.key);
    }
    lemma_upsert_sorted(es, e);
    let t = upsert(es, e);
    if has_key(es, e.key) {
        let i = choose|i: int| 0 <= i < es.len() && es[i].key == e.key;
        assert(t[i] == e);
        assert forall|j: int| 0 <= j < t.len() && #[trigger] t[j].key == e.key implies t[j] == e by {
            lemma_sorted_unique(t, i, j);
        }
    } else {
        let p = choose|p: int| is_insertion_point(es, e.key, p);
        assert(t[p] == e);
        assert forall|j: int| 0 <= j < t.len() && #[trigger] t[j].key == e.key implies t[j] == e by {
            lemma_sorted_unique(t, p, j);
        }
    }
    let j = choose|j: int| 0 <= j < t.len() && t[j].key == e.key;
    assert(t[j] == e);
    assert(t.update(j, e) =~= t);
}

/// What a leaf split produced: the key that goes up and the right half.
pub struct SplitResult {
    pub promoted_key: u64,
    pub right_page: IndexPage,
}

/// A B+-tree whose root page the database keeps; the root's page id stays
/// the same when the tree grows a level.
#[derive(Debug, Clone, Copy, PartialEq, Eq, Structural)]
pub struct BTree {
    pub root_page_id: Option<PageId>,
}

impl BTree {
    pub fn new(root_page_id: Option<PageId>) -> (r: Self)
        ensures
            r.root_page_id == root_page_id,
    {
        BTree { root_page_id }
    }

    pub fn root_page_id(&self) -> (r: Option<PageId>)
        ensures
            r == self.root_page_id,
    {
        self.root_page_id
    }

    /// Stores `key` and `tuple_ptr` in a sorted page: an existing entry with
    /// the key is overwritten, else the entry goes where its key belongs. A
    /// full page splits at its midpoint; the left half stays in `page`.
    pub fn insert_into_page(page: &mut IndexPage, key: u64, tuple_ptr: TuplePointer) -> (r: Result<
        Option<SplitResult>,
        StorageError,
    >)
        requires
            old(page).wf(),
            keys_sorted(old(page).entries@),
        ensures
            final(page).wf(),
            keys_sorted(final(page).entries@),
            r is Ok,
            match r {
                Ok(None) => final(page)@ == (IndexPageView {
                    entries: upsert(old(page).entries@, IndexEntry::new_spec(key, tuple_ptr)),
                    ..old(page)@
                }),
                Ok(Some(s)) => {
                    let all = upsert(old(page).entries@, IndexEntry::new_spec(key, tuple_ptr));
                    &&& old(page).entries@.len() == MAX_ENTRIES
                    &&& !has_key(old(page).entries@, key)
                    &&& all.len() == MAX_ENTRIES + 1
                    &&& s.right_page.wf()
                    &&& final(page)@ == (IndexPageView {
                        is_leaf: old(page).is_leaf,
                        prev_page_id: 0,
                        next_page_id: 0,
                        entries: all.subrange(0, 126),
                    })
                    &&& s.right_page@ == (IndexPageView {
                        is_leaf: old(page).is_leaf,
                        prev_page_id: 0,
                        next_page_id: 0,
                        entries: all.subrange(126, all.len() as int),
                    })
                    &&& s.promoted_key == all[126].key
                    &&& keys_sorted(s.right_page.entries@)
                },
                Err(_) => false,
            },
    {
        let (found, pos) = page.binary_search(key);
        let entry = IndexEntry::new(key, tuple_ptr);
        let ghost es = page.entries@;
        if found {
            proof {
                lemma_sorted_unique(es, pos as int, choose|i: int| 0 <= i < es.len() && es[i].key == key);
                lemma_upsert_sorted(es, entry);
            }
            let _ = page.update_entry(pos, entry);
            return Ok(None);
        }
        proof {
            lemma_insertion_point_exists(es, key);
            let p = choose|p: int| is_insertion_point(es, key, p);
            lemma_insertion_point_unique(es, key, p, pos as int);
            lemma_upsert_sorted(es, entry);
        }
        if page.num_keys() < MAX_ENTRIES {
            let _ = page.insert_at(pos, entry);
            return Ok(None);
        }
        Self::split_page(page, pos, entry)
    }

    /// Splits a full page around a new entry at `insert_pos`: the lower half
    /// stays, the upper half goes to a new page, and its first key goes up.
    fn split_page(page: &mut IndexPage, insert_pos: usize, new_entry: IndexEntry) -> (r: Result<
        Option<SplitResult>,
        StorageError,
    >)
        requires
            old(page).wf(),
            old(page).entries@.len() == MAX_ENTRIES,
            insert_pos <= old(page).entries@.len(),
            keys_sorted(old(page).entries@.insert(insert_pos as int, new_entry)),
        ensures
            final(page).wf(),
            match r {
                Ok(Some(s)) => {
                    let all = old(page).entries@.insert(insert_pos as int, new_entry);
                    &&& s.right_page.wf()
                    &&& final(page)@ == (IndexPageView {
                        is_leaf: old(page).is_leaf,
                        prev_page_id: 0,
                        next_page_id: 0,
                        entries: all.subrange(0, 126),
                    })
                    &&& s.right_page@ == (IndexPageView {
                        is_leaf: old(page).is_leaf,
                        prev_page_id: 0,
                        next_page_id: 0,
                        entries: all.subrange(126, all.len() as int),
                    })
                    &&& s.promoted_key == all[126].key
                    &&& keys_sorted(final(page).entries@)
                    &&& keys_sorted(s.right_page.entries@)
                },
                _ => false,
            },
    {
        let mut entries = page.entries();
        entries.insert(insert_pos, new_entry);
        let ghost all = entries@;
        let is_leaf = page.is_leaf;
        let split_point = entries.len() / 2;
        let right_entries = entries.split_off(split_point);
        let promoted_key = right_entries[0].key;
        let _ = page.set_entries(is_leaf, entries);
        let mut right_page = IndexPage::new(is_leaf);
        let _ = right_page.set_entries(is_leaf, right_entries);
        proof {
            assert(page.entries@ =~= all.subrange(0, 126));
            assert(right_page.entries@ =~= all.subrange(126, all.len() as int));
        }
        Ok(Some(SplitResult { promoted_key, right_page }))
    }

    /// The pointer stored under `key` in a page, if any.
    pub fn search_page(page: &IndexPage, key: u64) -> (r: Option<TuplePointer>)
        ensures
            r matches Some(p) ==> exists|i: int|
                0 <= i < page.entries@.len() && page.entries@[i].key == key && page.entries@[i].pointer() == p,
            keys_sorted(page.entries@) ==> (r is Some <==> has_key(page.entries@, key)),
            keys_sorted(page.entries@) ==> r == lookup(page.entries@, key),
    {
        let (found, pos) = page.binary_search(key);
        if !found {
            return None;
        }
        proof {
            let es = page.entries@;
            if keys_sorted(es) {
                let i = choose|i: int| 0 <= i < es.len() && es[i].key == key;
                lemma_sorted_unique(es, i, pos as int);
            }
        }
        Some(page.entries[pos].as_tuple_pointer())
    }

    /// The entries of a page whose keys lie in `[start_key, end_key]`.
    pub fn range_scan_page(page: &IndexPage, start_key: u64, end_key: u64) -> (r: Vec<(u64, TuplePointer)>)
        ensures
            r@ == entries_in_range(page.entries@, start_key, end_key),
    {
        let mut results: Vec<(u64, TuplePointer)> = Vec::new();
        let mut i: usize = 0;
        while i < page.entries.len()
            invariant
                i <= page.entries@.len(),
                results@ == entries_in_range(page.entries@.take(i as int), start_key, end_key),
            decreases page.entries@.len() - i,
        {
            let e = page.entries[i];
            if e.key >= start_key && e.key <= end_key {
                results.push((e.key, e.as_tuple_pointer()));
            }
            proof {
                assert(page.entries@.take(i + 1).drop_last() =~= page.entries@.take(i as int));
            }
            i = i + 1;
        }
        assert(page.entries@.take(i as int) =~= page.entries@);
        results
    }

    /// All entries of a page, as key and pointer.
    pub fn scan_page(page: &IndexPage) -> (r: Vec<(u64, TuplePointer)>)
        ensures
            r@ == pairs_of(page.entries@),
    {
        let mut results: Vec<(u64, TuplePointer)> = Vec::new();
        let mut i: usize = 0;
        while i < page.entries.len()
            invariant
                i <= page.entries@.len(),
                results@ == pairs_of(page.entries@.take(i as int)),
            decreases page.entries@.len() - i,
        {
            let e = page.entries[i];
            results.push((e.key, e.as_tuple_pointer()));
            i = i + 1;
            assert(results@ =~= pairs_of(page.entries@.take(i as int)));
        }
        assert(page.entries@.take(i as int) =~= page.entries@);
        results
    }

    /// Reads and checks one page.
    pub(crate) fn load_page(file: &IndexFile, id: PageId) -> (r: Result<IndexPage, StorageError>)
        ensures
            match r {
                Ok(p) => page_at(file.disk@, id.0 as int) == Some(p@) && p.wf(),
                Err(_) => page_at(file.disk@, id.0 as int) is None,
            },
    {
        let data = match file.read_page(id) {
            Ok(d) => d,
            Err(e) => return Err(e),
        };
        IndexPage::from_bytes(data.as_slice())
    }

    /// The internal entry to follow for `key`: the first whose key is at
    /// least `key`, else the last.
    fn child_for(page: &IndexPage, key: u64) -> (r: Option<usize>)
        requires
            page.wf(),
        ensures
            match r {
                Some(i) => i < page.entries@.len() && (keys_sorted(page.entries@) ==> is_child_pos(
                    page.entries@,
                    key,
                    i as int,
                )),
                None => page.entries@.len() == 0,
            },
    {
        let (_found, pos) = page.binary_search(key);
        if pos < page.entries.len() {
            Some(pos)
        } else if page.entries.len() == 0 {
            None
        } else {
            Some(page.entries.len() - 1)
        }
    }

    /// Walks from the root to the leaf where `key` belongs; returns the
    /// leaf's id, the leaf, and the path of internal pages with the entry
    /// followed in each.
    fn find_leaf(&self, key: u64, file: &IndexFile) -> (r: Result<(PageId, IndexPage, Vec<(PageId, usize)>), StorageError>)
        ensures
            match r {
                Ok((id, p, path)) => {
                    &&& p.wf()
                    &&& p.is_leaf
                    &&& page_at(file.disk@, id.0 as int) == Some(p@)
                    &&& path@.len() == 0 ==> self.root_page_id == Some(id)
                },
                Err(_) => true,
            },
            self.root_page_id is None ==> r is Err,
            root_leaf(*self, file.disk@) matches Some(v) ==> (r matches Ok((id, p, path)) && Some(id)
                == self.root_page_id && p@ == v && path@.len() == 0),
            leaf_under_root(*self, file.disk@, key) matches Some((lid, v)) ==> (r matches Ok((id, p, path)) && id.0
                == lid && p@ == v && path@.len() == 1),
    {
        let mut current = match self.root_page_id {
            None => return Err(StorageError::NotFound),
            Some(id) => id,
        };
        let mut path: Vec<(PageId, usize)> = Vec::new();
        let mut depth: usize = 0;
        while depth < MAX_TREE_DEPTH
            invariant
                self.root_page_id is Some,
                path@.len() == 0 ==> self.root_page_id == Some(current),
                root_leaf(*self, file.disk@) is Some ==> depth == 0,
                leaf_under_root(*self, file.disk@, key) matches Some((lid, v)) ==> (depth <= 1 && (depth == 1
                    ==> current.0 == lid)),
                depth == path@.len(),
                depth <= MAX_TREE_DEPTH,
            decreases MAX_TREE_DEPTH - depth,
        {
            let page = match Self::load_page(file, current) {
                Ok(p) => p,
                Err(e) => return Err(e),
            };
            if page.is_leaf {
                return Ok((current, page, path));
            }
            let child = match Self::child_for(&page, key) {
                Some(i) => i,
                None => return Err(StorageError::CorruptData("internal index page has no keys")),
            };
            proof {
                if leaf_under_root(*self, file.disk@, key) is Some {
                    let w = page@;
                    let c = choose|c: int| is_child_pos(w.entries, key, c);
                    lemma_child_pos_unique(w.entries, key, c, child as int);
                }
            }
            path.push((current, child));
            current = page.entries[child].as_child_page_id();
            depth = depth + 1;
        }
        Err(StorageError::CorruptData("index tree too deep"))
    }

    /// Writes a page back to its place.
    pub(crate) fn store_page(file: &mut IndexFile, id: PageId, page: &IndexPage) -> (r: Result<(), StorageError>)
        requires
            page.wf(),
        ensures
            final(file).next_page_id == old(file).next_page_id,
            r is Ok ==> page_at(final(file).disk@, id.0 as int) == Some(page@),
            page_offset_of(id.0 as int) + 4096 <= usize::MAX ==> r is Ok,
            forall|raw: int|
                0 <= raw && raw != id.0 && page_offset_of(raw) + 4096 <= old(file).disk@.len() ==> #[trigger] page_at(
                    final(file).disk@,
                    raw,
                ) == page_at(old(file).disk@, raw),
    {
        let bytes = page.to_bytes();
        let r = file.write_page(id, bytes.as_slice());
        proof {
            if r is Ok {
                let o = page_offset_of(id.0 as int);
                assert(final(file).disk@.subrange(o, o + 4096) =~= bytes@);
                assert forall|raw: int|
                    0 <= raw && raw != id.0 && page_offset_of(raw) + 4096 <= old(file).disk@.len() implies #[trigger] page_at(
                        final(file).disk@,
                        raw,
                    ) == page_at(old(file).disk@, raw) by {
                    let q = page_offset_of(raw);
                    assert(final(file).disk@.subrange(q, q + 4096) =~= old(file).disk@.subrange(q, q + 4096));
                }
            }
        }
        r
    }

    /// Stores `key` with `pointer` in the tree. A leaf that overflows splits
    /// in two: a root leaf turns into an internal root over both halves, any
    /// other leaf gains a sibling in its parent. A split that would need a
    /// full parent to split too is handed back to the caller.
    pub fn insert(&mut self, key: u64, pointer: TuplePointer, file: &mut IndexFile) -> (r: Result<
        Option<IndexSplit>,
        StorageError,
    >)
        ensures
            *final(self) == *old(self),
            root_leaf(*old(self), old(file).disk@) matches Some(v) ==> (keys_sorted(v.entries) && (
                v.entries.len() < MAX_ENTRIES || has_key(v.entries, key)) ==> r == Ok::<Option<IndexSplit>, StorageError>(
                None,
            )),
            root_leaf(*old(self), old(file).disk@) matches Some(v) ==> (keys_sorted(v.entries) && v.entries.len()
                == MAX_ENTRIES && !has_key(v.entries, key) && old(file).next_page_id + 1 < 65536 ==> (r matches Ok(
                Some(sp),
            ) && sp.promoted_key == upsert(v.entries, IndexEntry::new_spec(key, pointer))[126].key)),
            root_leaf(*old(self), old(file).disk@) matches Some(v) ==> (keys_sorted(v.entries) && v.entries.len()
                == MAX_ENTRIES && !has_key(v.entries, key) && old(self).root_page_id.unwrap().0 < old(file).next_page_id
                ==> (r matches Ok(Some(sp)) ==> {
                let all = upsert(v.entries, IndexEntry::new_spec(key, pointer));
                &&& split_layout(
                    final(file).disk@,
                    old(self).root_page_id.unwrap().0 as int,
                    old(file).next_page_id as int,
                    old(file).next_page_id + 1,
                    all.subrange(0, 126),
                    all.subrange(126, all.len() as int),
                    v.is_leaf,
                )
                &&& page_in(sp.right_sibling_data@) == Some(
                    IndexPageView {
                        is_leaf: v.is_leaf,
                        prev_page_id: old(file).next_page_id,
                        next_page_id: 0,
                        entries: all.subrange(126, all.len() as int),
                    },
                )
            })),
            root_leaf(*old(self), old(file).disk@) matches Some(v) ==> (keys_sorted(v.entries) && (
                v.entries.len() < MAX_ENTRIES || has_key(v.entries, key)) && r
                == Ok::<Option<IndexSplit>, StorageError>(None) ==> page_at(
                final(file).disk@,
                old(self).root_page_id.unwrap().0 as int,
            ) == Some(IndexPageView { entries: upsert(v.entries, IndexEntry::new_spec(key, pointer)), ..v })),
    {
        let _len = file.disk.bytes.len(); // the file's length bounds its page offsets
        let (leaf_id, mut leaf, path) = match self.find_leaf(key, file) {
            Ok(t) => t,
            Err(e) => return Err(e),
        };
        let old_prev = leaf.prev_page_id;
        let old_next = leaf.next_page_id;
        if !Self::sorted(&leaf) {
            return Err(StorageError::CorruptData("index page keys out of order"));
        }
        let ghost before = leaf@;
        let split = match Self::insert_into_page(&mut leaf, key, pointer) {
            Ok(s) => s,
            Err(e) => return Err(e),
        };
        match split {
            None => {
                proof {
                    if !has_key(before.entries, key) {
                        lemma_insertion_point_exists(before.entries, key);
                    }
                }
                match Self::store_page(file, leaf_id, &leaf) {
                    Ok(()) => Ok(None),
                    Err(e) => Err(e),
                }
            },
            Some(s) => {
                let right_page = s.right_page;
                let promoted_key = s.promoted_key;
                if path.len() == 0 {
                    self.split_root(file, leaf_id, leaf, right_page, promoted_key)
                } else {
                    let (parent_id, child_pos) = path[path.len() - 1];
                    self.split_child(file, parent_id, child_pos, leaf_id, leaf, right_page, promoted_key, old_prev, old_next)
                }
            },
        }
    }

    /// Whether the keys of a page strictly increase.
    fn sorted(page: &IndexPage) -> (r: bool)
        ensures
            r == keys_sorted(page.entries@),
    {
        let n = page.entries.len();
        if n == 0 {
            return true;
        }
        let mut i: usize = 1;
        while i < n
            invariant
                n == page.entries@.len(),
                1 <= i <= n,
                forall|a: int, b: int| 0 <= a < b < i ==> page.entries@[a].key < page.entries@[b].key,
            decreases n - i,
        {
            if page.entries[i - 1].key >= page.entries[i].key {
                return false;
            }
            i = i + 1;
        }
        true
    }

    /// A root leaf that split: both halves move to new pages and the root
    /// becomes an internal page over them. The split is reported to the
    /// caller, though nothing is left for it to do.
    fn split_root(
        &mut self,
        file: &mut IndexFile,
        root_id: PageId,
        left: IndexPage,
        right: IndexPage,
        promoted_key: u64,
    ) -> (r: Result<
        Option<IndexSplit>,
        StorageError,
    >)
        requires
            left.wf(),
            right.wf(),
        ensures
            *final(self) == *old(self),
            r matches Ok(Some(sp)) ==> sp.promoted_key == promoted_key,
            r matches Ok(Some(sp)) ==> (root_id.0 < old(file).next_page_id && left.prev_page_id == 0 && left.next_page_id
                == 0 && right.prev_page_id == 0 && right.next_page_id == 0 && right.is_leaf == left.is_leaf ==> (split_layout(
                final(file).disk@,
                root_id.0 as int,
                old(file).next_page_id as int,
                old(file).next_page_id + 1,
                left.entries@,
                right.entries@,
                left.is_leaf,
            ) && page_in(sp.right_sibling_data@) == Some(
                IndexPageView {
                    is_leaf: right.is_leaf,
                    prev_page_id: old(file).next_page_id,
                    next_page_id: 0,
                    entries: right.entries@,
                },
            ))),
            left.entries@.len() > 0 && right.entries@.len() > 0 && old(file).next_page_id + 1 < 65536
                && page_offset_of(root_id.0 as int) + 4096 <= usize::MAX ==> r is Ok && r->Ok_0 is Some,
    {
        let mut left = left;
        let mut right = right;
        if left.entries.len() == 0 || right.entries.len() == 0 {
            return Err(StorageError::CorruptData("empty half after split"));
        }
        let left_id = match file.allocate_page() {
            Ok(p) => p,
            Err(e) => return Err(e),
        };
        let right_id = match file.allocate_page() {
            Ok(p) => p,
            Err(e) => return Err(e),
        };
        left.set_next_sibling(Some(right_id));
        right.set_prev_sibling(Some(left_id));
        let left_last = left.entries[left.entries.len() - 1].key;
        let right_last = right.entries[right.entries.len() - 1].key;
        if let Err(e) = Self::store_page(file, left_id, &left) {
            return Err(e);
        }
        if let Err(e) = Self::store_page(file, right_id, &right) {
            return Err(e);
        }
        let mut root = IndexPage::new(false);
        let _ = root.insert_at(0, IndexEntry::new_internal(left_last, left_id));
        let _ = root.insert_at(1, IndexEntry::new_internal(right_last, right_id));
        match Self::store_page(file, root_id, &root) {
            Ok(()) => {
                proof {
                    assert(root@.entries =~= seq![
                        IndexEntry { key: left_last, segment_id: left_id.0, block_id: 0, slot_id: 0 },
                        IndexEntry { key: right_last, segment_id: right_id.0, block_id: 0, slot_id: 0 },
                    ]);
                }
                Ok(Some(IndexSplit { promoted_key, right_sibling_data: right.to_bytes() }))
            },
            Err(e) => Err(e),
        }
    }

    /// A leaf under an internal parent that split: the left half stays in
    /// place with its old left neighbour, the right half goes to a new page
    /// that takes the old right neighbour and joins the parent after it.
    /// When the parent is full the split goes back to the caller.
    fn split_child(
        &mut self,
        file: &mut IndexFile,
        parent_id: PageId,
        child_pos: usize,
        leaf_id: PageId,
        left: IndexPage,
        right: IndexPage,
        promoted_key: u64,
        old_prev: u32,
        old_next: u32,
    ) -> (r: Result<Option<IndexSplit>, StorageError>)
        requires
            left.wf(),
            right.wf(),
        ensures
            *final(self) == *old(self),
    {
        let mut left = left;
        let mut right = right;
        let mut parent = match Self::load_page(file, parent_id) {
            Ok(p) => p,
            Err(e) => return Err(e),
        };
        if left.entries.len() == 0 || child_pos >= parent.entries.len() {
            return Err(StorageError::CorruptData("index parent does not match its child"));
        }
        let right_id = match file.allocate_page() {
            Ok(p) => p,
            Err(e) => return Err(e),
        };
        right.next_page_id = old_next;
        right.set_prev_sibling(Some(leaf_id));
        left.set_next_sibling(Some(right_id));
        left.prev_page_id = old_prev;
        if let Err(e) = Self::store_page(file, right_id, &right) {
            return Err(e);
        }
        if let Err(e) = Self::store_page(file, leaf_id, &left) {
            return Err(e);
        }
        if parent.entries.len() >= MAX_ENTRIES {
            return Ok(Some(IndexSplit { promoted_key, right_sibling_data: right.to_bytes() }));
        }
        let bound = parent.entries[child_pos].key;
        let left_last = left.entries[left.entries.len() - 1].key;
        let _ = parent.update_entry(child_pos, IndexEntry::new_internal(left_last, leaf_id));
        let _ = parent.insert_at(child_pos + 1, IndexEntry::new_internal(bound, right_id));
        match Self::store_page(file, parent_id, &parent) {
            Ok(()) => Ok(None),
            Err(e) => Err(e),
        }
    }

    /// The pointer stored under `key`, if any.
    pub fn search(&self, key: u64, file: &IndexFile) -> (r: Result<Option<TuplePointer>, StorageError>)
        ensures
            root_leaf(*self, file.disk@) matches Some(v) ==> (keys_sorted(v.entries) ==> r == Ok::<
                Option<TuplePointer>,
                StorageError,
            >(lookup(v.entries, key))),
            leaf_under_root(*self, file.disk@, key) matches Some((_, v)) ==> (keys_sorted(v.entries) ==> r == Ok::<
                Option<TuplePointer>,
                StorageError,
            >(lookup(v.entries, key))),
    {
        let (_leaf_id, leaf, _path) = match self.find_leaf(key, file) {
            Ok(t) => t,
            Err(e) => return Err(e),
        };
        Ok(Self::search_page(&leaf, key))
    }

    /// The entries with keys in `[start_key, end_key]`: from the leaf where
    /// `start_key` belongs, along the chain of right siblings.
    pub fn range_scan(&self, start_key: u64, end_key: u64, file: &IndexFile) -> (r: Result<Vec<(u64, TuplePointer)>, StorageError>)
        ensures
            root_leaf(*self, file.disk@) matches Some(v) ==> (v.next_page_id == 0 ==> (r matches Ok(s)
                && s@ == entries_in_range(v.entries, start_key, end_key))),
    {
        let (_id, leaf, _path) = match self.find_leaf(start_key, file) {
            Ok(t) => t,
            Err(e) => return Err(e),
        };
        let mut results = Self::range_scan_page(&leaf, start_key, end_key);
        let mut current = leaf;
        let mut fuel: u32 = file.next_page_id();
        let ghost first = results@;
        while fuel > 0
            invariant
                current.wf(),
                root_leaf(*self, file.disk@) matches Some(v) ==> (v.next_page_id == 0 ==> (current@ == v
                    && results@ == first)),
            ensures
                root_leaf(*self, file.disk@) matches Some(v) ==> (v.next_page_id == 0 ==> results@ == first),
            decreases fuel,
        {
            let n = current.entries.len();
            if n == 0 || current.entries[n - 1].key > end_key {
                break;
            }
            let next = match current.next_sibling() {
                Some(id) => id,
                None => break,
            };
            current = match Self::load_page(file, next) {
                Ok(p) => p,
                Err(e) => return Err(e),
            };
            let more = Self::range_scan_page(&current, start_key, end_key);
            let mut k: usize = 0;
            while k < more.len()
                decreases more@.len() - k,
            {
                results.push(more[k]);
                k = k + 1;
            }
            fuel = fuel - 1;
        }
        Ok(results)
    }

    /// Every entry of the tree, leaf by leaf from the leftmost.
    pub fn full_scan(&self, file: &IndexFile) -> (r: Result<Vec<(u64, TuplePointer)>, StorageError>)
        ensures
            root_leaf(*self, file.disk@) matches Some(v) ==> (v.next_page_id == 0 ==> (r matches Ok(s)
                && s@ == entries_in_range(v.entries, 0, u64::MAX))),
    {
        self.range_scan(0, u64::MAX, file)
    }
}

/// Search after a root split: when a sorted leaf of 253 entries has been
/// split into halves under an internal root, a search for any key reaches
/// the half that holds it and finds there what the whole leaf held.
pub proof fn lemma_search_after_root_split(
    f: Seq<u8>,
    root: u32,
    left: u32,
    right: u32,
    all: Seq<IndexEntry>,
    key: u64,
)
    requires
        all.len() == MAX_ENTRIES + 1,
        keys_sorted(all),
        split_layout(f, root as int, left as int, right as int, all.subrange(0, 126), all.subrange(126, all.len() as int), true),
    ensures
        leaf_under_root(BTree { root_page_id: Some(PageId(root)) }, f, key) matches Some((_, v)) && lookup(v.entries, key)
            == lookup(all, key),
{
    let l = all.subrange(0, 126);
    let u = all.subrange(126, all.len() as int);
    let w = page_at(f, root as int).unwrap();
    let es = w.entries;
    assert(es[0].key == all[125].key);
    assert(es[1].key == all[252].key);
    assert(keys_sorted(es)) by {
        assert(all[125].key < all[252].key);
    }
    let c = choose|c: int| is_child_pos(es, key, c);
    if key <= all[125].key {
        assert(is_child_pos(es, key, 0));
        lemma_child_pos_unique(es, key, c, 0);
        assert(keys_sorted(l));
        if has_key(all, key) {
            let i = choose|i: int| 0 <= i < all.len() && all[i].key == key;
            if i >= 126 {
                assert(all[125].key < all[i].key);
            }
            assert(l[i].key == key);
            let j = choose|j: int| 0 <= j < l.len() && l[j].key == key;
            lemma_sorted_unique(all, i, j);
        } else {
            if has_key(l, key) {
                let j = choose|j: int| 0 <= j < l.len() && l[j].key == key;
                assert(all[j].key == key);
            }
        }
    } else {
        if key <= all[252].key {
            assert(is_child_pos(es, key, 1));
            lemma_child_pos_unique(es, key, c, 1);
        } else {
            assert(is_child_pos(es, key, 1));
            lemma_child_pos_unique(es, key, c, 1);
        }
        assert(keys_sorted(u));
        if has_key(all, key) {
            let i = choose|i: int| 0 <= i < all.len() && all[i].key == key;
            if i < 126 {
                assert(all[i].key <= all[125].key);
            }
            assert(u[i - 126].key == key);
            let j = choose|j: int| 0 <= j < u.len() && u[j].key == key;
            lemma_sorted_unique(all, i, j + 126);
        } else {
            if has_key(u, key) {
                let j = choose|j: int| 0 <= j < u.len() && u[j].key == key;
                assert(all[j + 126].key == key);
            }
        }
    }
}

/// A split that reached the caller: the key to promote and the bytes of the
/// right sibling page.
pub struct IndexSplit {
    pub promoted_key: u64,
    pub right_sibling_data: Vec<u8>,
}

} // verus!
