//! The 4 KiB index page: a 64-byte header and up to 252 entries of 16 bytes.

use vstd::prelude::*;
use crate::bytes::{
    get_u16, get_u32, get_u64, lemma_u16_bytes, lemma_u32_bytes, lemma_u64_bytes, overwrite,
    set_u16, set_u32, u16_at, u16_bytes, u32_at, u32_bytes, u64_at, u64_bytes, write_bytes,
};
use crate::error::StorageError;
use crate::layout::{PageId, TuplePointer};

verus! {

/// Size of an index page.
pub const INDEX_PAGE_SIZE: usize = 4096;

/// Size of the page header.
pub const INDEX_PAGE_HEADER_SIZE: usize = 64;

/// Size of one entry.
pub const INDEX_ENTRY_SIZE: usize = 16;

/// Most entries a page holds: (4096 - 64) / 16.
pub const MAX_ENTRIES: usize = 252;

/// Magic number at the start of every index page ("INDX").
pub const INDEX_MAGIC: u32 = 0x494E4458;

/// The header of an index page, as laid out in its first 64 bytes.
#[derive(Debug, Clone, Copy)]
pub struct IndexPageHeader {
    pub magic: u32,
    pub is_leaf: bool,
    pub padding: u8,
    pub num_keys: u16,
    /// Previous sibling's raw page id; 0 for none.
    pub prev_page_id: u32,
    /// Next sibling's raw page id; 0 for none.
    pub next_page_id: u32,
    pub reserved: [u8; 48],
}

impl IndexPageHeader {
    pub fn new(is_leaf: bool) -> (r: Self)
        ensures
            r.magic == INDEX_MAGIC,
            r.is_leaf == is_leaf,
            r.num_keys == 0,
            r.prev_page_id == 0,
            r.next_page_id == 0,
    {
        IndexPageHeader {
            magic: INDEX_MAGIC,
            is_leaf,
            padding: 0,
            num_keys: 0,
            prev_page_id: 0,
            next_page_id: 0,
            reserved: [0u8; 48],
        }
    }

    pub fn validate(&self) -> (r: Result<(), StorageError>)
        ensures
            r is Ok <==> self.magic == INDEX_MAGIC && self.num_keys <= MAX_ENTRIES,
    {
        if self.magic != INDEX_MAGIC {
            return Err(StorageError::CorruptData("invalid index page magic"));
        }
        if self.num_keys as usize > MAX_ENTRIES {
            return Err(StorageError::CorruptData("too many keys in index page"));
        }
        Ok(())
    }
}

/// One entry: a key and a tuple pointer, or in an internal page a key and a
/// child page id held in `segment_id`.
#[derive(Debug, Clone, Copy, PartialEq, Eq, Structural)]
pub struct IndexEntry {
    pub key: u64,
    pub segment_id: u32,
    pub block_id: u8,
    pub slot_id: u16,
}

impl IndexEntry {
    pub open spec fn new_spec(key: u64, ptr: TuplePointer) -> IndexEntry {
        IndexEntry { key, segment_id: ptr.segment_id, block_id: ptr.block_id, slot_id: ptr.slot_id }
    }

    pub fn new(key: u64, ptr: TuplePointer) -> (r: Self)
        ensures
            r == (IndexEntry { key, segment_id: ptr.segment_id, block_id: ptr.block_id, slot_id: ptr.slot_id }),
    {
        IndexEntry { key, segment_id: ptr.segment_id, block_id: ptr.block_id, slot_id: ptr.slot_id }
    }

    pub fn new_internal(key: u64, child_page_id: PageId) -> (r: Self)
        ensures
            r == (IndexEntry { key, segment_id: child_page_id.0, block_id: 0, slot_id: 0 }),
    {
        IndexEntry { key, segment_id: child_page_id.raw(), block_id: 0, slot_id: 0 }
    }

    pub open spec fn pointer(self) -> TuplePointer {
        TuplePointer { segment_id: self.segment_id, block_id: self.block_id, slot_id: self.slot_id }
    }

    pub fn as_tuple_pointer(&self) -> (r: TuplePointer)
        ensures
            r == self.pointer(),
    {
        TuplePointer { segment_id: self.segment_id, block_id: self.block_id, slot_id: self.slot_id }
    }

    pub fn as_child_page_id(&self) -> (r: PageId)
        ensures
            r.0 == self.segment_id,
    {
        let raw = self.segment_id;
        PageId::new((raw / 65536) as u16, (raw % 65536) as u16)
    }
}

/// Keys strictly increase along the entries.
pub open spec fn keys_sorted(es: Seq<IndexEntry>) -> bool {
    forall|i: int, j: int| 0 <= i < j < es.len() ==> es[i].key < es[j].key
}

/// The position where `key` belongs: the number of entries with a smaller key.
pub open spec fn is_insertion_point(es: Seq<IndexEntry>, key: u64, pos: int) -> bool {
    &&& 0 <= pos <= es.len()
    &&& forall|i: int| 0 <= i < pos ==> es[i].key < key
    &&& forall|i: int| pos <= i < es.len() ==> es[i].key > key
}

/// What a page holds, apart from its fixed magic.
pub struct IndexPageView {
    pub is_leaf: bool,
    pub prev_page_id: u32,
    pub next_page_id: u32,
    pub entries: Seq<IndexEntry>,
}

pub open spec fn entry_pos(i: int) -> int {
    64 + 16 * i
}

/// The entry stored at slot `i` of the page image `b`.
pub open spec fn entry_in(b: Seq<u8>, i: int) -> IndexEntry {
    IndexEntry {
        key: u64_at(b, entry_pos(i)) as u64,
        segment_id: u32_at(b, entry_pos(i) + 8) as u32,
        block_id: b[entry_pos(i) + 12],
        slot_id: u16_at(b, entry_pos(i) + 14) as u16,
    }
}

/// The page held by the 4 KiB image `b`, when its magic, leaf flag and key
/// count are valid.
pub open spec fn page_in(b: Seq<u8>) -> Option<IndexPageView> {
    if b.len() == INDEX_PAGE_SIZE && u32_at(b, 0) == INDEX_MAGIC && b[4] <= 1 && u16_at(b, 6) <= MAX_ENTRIES {
        Some(
            IndexPageView {
                is_leaf: b[4] == 1,
                prev_page_id: u32_at(b, 8) as u32,
                next_page_id: u32_at(b, 12) as u32,
                entries: Seq::new(u16_at(b, 6) as nat, |i: int| entry_in(b, i)),
            },
        )
    } else {
        None
    }
}

/// An index page in memory.
pub struct IndexPage {
    pub is_leaf: bool,
    pub prev_page_id: u32,
    pub next_page_id: u32,
    pub entries: Vec<IndexEntry>,
}

impl View for IndexPage {
    type V = IndexPageView;

    open spec fn view(&self) -> IndexPageView {
        IndexPageView {
            is_leaf: self.is_leaf,
            prev_page_id: self.prev_page_id,
            next_page_id: self.next_page_id,
            entries: self.entries@,
        }
    }
}

impl IndexPage {
    pub open spec fn wf(&self) -> bool {
        self.entries@.len() <= MAX_ENTRIES
    }

    /// An empty page.
    pub fn new(is_leaf: bool) -> (r: Self)
        ensures
            r@ == (IndexPageView { is_leaf, prev_page_id: 0, next_page_id: 0, entries: Seq::empty() }),
            r.wf(),
    {
        IndexPage { is_leaf, prev_page_id: 0, next_page_id: 0, entries: Vec::new() }
    }

    /// Takes a page read from an index file, checking its header.
    pub fn from_bytes(data: &[u8]) -> (r: Result<Self, StorageError>)
        ensures
            match r {
                Ok(p) => page_in(data@) == Some(p@) && p.wf(),
                Err(_) => page_in(data@) is None,
            },
    {
        if data.len() != INDEX_PAGE_SIZE {
            return Err(StorageError::CorruptData("index page has the wrong size"));
        }
        let magic = get_u32(data, 0);
        if magic != INDEX_MAGIC {
            return Err(StorageError::CorruptData("invalid index page magic"));
        }
        if data[4] > 1 {
            return Err(StorageError::CorruptData("invalid index page leaf flag"));
        }
        let num_keys = get_u16(data, 6);
        if num_keys as usize > MAX_ENTRIES {
            return Err(StorageError::CorruptData("too many keys in index page"));
        }
        let mut entries: Vec<IndexEntry> = Vec::new();
        let mut i: u16 = 0;
        while i < num_keys
            invariant
                data@.len() == INDEX_PAGE_SIZE,
                num_keys <= MAX_ENTRIES,
                i <= num_keys,
                entries@ == Seq::new(i as nat, |k: int| entry_in(data@, k)),
            decreases num_keys - i,
        {
            let pos = INDEX_PAGE_HEADER_SIZE + i as usize * INDEX_ENTRY_SIZE;
            let e = IndexEntry {
                key: get_u64(data, pos),
                segment_id: get_u32(data, pos + 8),
                block_id: data[pos + 12],
                slot_id: get_u16(data, pos + 14),
            };
            entries.push(e);
            i = i + 1;
            assert(entries@ =~= Seq::new(i as nat, |k: int| entry_in(data@, k)));
        }
        let p = IndexPage {
            is_leaf: data[4] == 1,
            prev_page_id: get_u32(data, 8),
            next_page_id: get_u32(data, 12),
            entries,
        };
        assert(p@.entries =~= page_in(data@).unwrap().entries);
        Ok(p)
    }

    /// The 4 KiB image of the page.
    #[verifier::spinoff_prover]
    #[verifier::rlimit(50)]
    pub fn to_bytes(&self) -> (r: Vec<u8>)
        requires
            self.wf(),
        ensures
            page_in(r@) == Some(self@),
    {
        let mut b = vec![0u8; INDEX_PAGE_SIZE];
        set_u32(&mut b, 0, INDEX_MAGIC);
        b.set(4, if self.is_leaf { 1u8 } else { 0u8 });
        set_u16(&mut b, 6, self.entries.len() as u16);
        set_u32(&mut b, 8, self.prev_page_id);
        set_u32(&mut b, 12, self.next_page_id);
        proof {
            lemma_u32_bytes(INDEX_MAGIC as int);
            lemma_u16_bytes(self.entries@.len() as int);
            lemma_u32_bytes(self.prev_page_id as int);
            lemma_u32_bytes(self.next_page_id as int);
        }
        let ghost hdr = b@;
        assert(u32_at(hdr, 0) == INDEX_MAGIC);
        assert(u16_at(hdr, 6) == self.entries@.len());
        assert(u32_at(hdr, 8) == self.prev_page_id);
        assert(u32_at(hdr, 12) == self.next_page_id);
        assert(hdr[4] <= 1 && (hdr[4] == 1) == self.is_leaf);
        assert(hdr.len() == INDEX_PAGE_SIZE);
        let n = self.entries.len();
        let mut i: usize = 0;
        while i < n
            invariant
                n == self.entries@.len() <= MAX_ENTRIES,
                i <= n,
                b@.len() == INDEX_PAGE_SIZE,
                hdr.len() == INDEX_PAGE_SIZE,
                forall|j: int| 0 <= j < 64 ==> b@[j] == hdr[j],
                forall|k: int| 0 <= k < i ==> entry_in(b@, k) == self.entries@[k],
            decreases n - i,
        {
            let e = self.entries[i];
            let pos = INDEX_PAGE_HEADER_SIZE + i * INDEX_ENTRY_SIZE;
            let mut eb: Vec<u8> = Vec::new();
            crate::bytes::push_u64(&mut eb, e.key);
            crate::bytes::push_u32(&mut eb, e.segment_id);
            eb.push(e.block_id);
            eb.push(0u8);
            crate::bytes::push_u16(&mut eb, e.slot_id);
            let ghost before = b@;
            write_bytes(&mut b, pos, eb.as_slice());
            proof {
                lemma_u64_bytes(e.key as int);
                lemma_u32_bytes(e.segment_id as int);
                lemma_u16_bytes(e.slot_id as int);
                let s = b@;
                assert(u64_at(s, pos as int) == u64_at(eb@, 0));
                assert(u64_at(eb@, 0) == u64_at(u64_bytes(e.key as int), 0));
                assert(u32_at(s, pos + 8) == u32_at(eb@, 8));
                assert(u32_at(eb@, 8) == u32_at(u32_bytes(e.segment_id as int), 0));
                assert(u16_at(s, pos + 14) == u16_at(eb@, 14));
                assert(u16_at(eb@, 14) == u16_at(u16_bytes(e.slot_id as int), 0));
                assert(entry_in(s, i as int) == e);
                assert forall|k: int| 0 <= k < i implies entry_in(s, k) == self.entries@[k] by {
                    assert(entry_in(s, k) == entry_in(before, k));
                }
            }
            i = i + 1;
        }
        proof {
            let s = b@;
            assert(u32_at(s, 0) == u32_at(hdr, 0));
            assert(u16_at(s, 6) == u16_at(hdr, 6));
            assert(u32_at(s, 8) == u32_at(hdr, 8));
            assert(u32_at(s, 12) == u32_at(hdr, 12));
            assert(s[4] == hdr[4]);
            assert(page_in(s) is Some);
            assert(page_in(s).unwrap().entries =~= self.entries@);
        }
        b
    }

    /// The header that describes this page.
    pub fn header(&self) -> (r: IndexPageHeader)
        requires
            self.wf(),
        ensures
            r.magic == INDEX_MAGIC,
            r.is_leaf == self.is_leaf,
            r.num_keys == self.entries@.len(),
            r.prev_page_id == self.prev_page_id,
            r.next_page_id == self.next_page_id,
    {
        let mut h = IndexPageHeader::new(self.is_leaf);
        h.num_keys = self.entries.len() as u16;
        h.prev_page_id = self.prev_page_id;
        h.next_page_id = self.next_page_id;
        h
    }

    pub fn next_sibling(&self) -> (r: Option<PageId>)
        ensures
            r == if self.next_page_id == 0 { None } else { Some(PageId(self.next_page_id)) },
    {
        if self.next_page_id == 0 {
            None
        } else {
            Some(PageId(self.next_page_id))
        }
    }

    pub fn set_next_sibling(&mut self, next_id: Option<PageId>)
        ensures
            final(self)@ == (IndexPageView {
                next_page_id: match next_id {
                    Some(p) => p.0,
                    None => 0,
                },
                ..old(self)@
            }),
    {
        self.next_page_id = match next_id {
            Some(p) => p.raw(),
            None => 0,
        };
    }

    pub fn set_prev_sibling(&mut self, prev_id: Option<PageId>)
        ensures
            final(self)@ == (IndexPageView {
                prev_page_id: match prev_id {
                    Some(p) => p.0,
                    None => 0,
                },
                ..old(self)@
            }),
    {
        self.prev_page_id = match prev_id {
            Some(p) => p.raw(),
            None => 0,
        };
    }

    pub fn max_entries() -> (r: usize)
        ensures
            r == MAX_ENTRIES,
    {
        (INDEX_PAGE_SIZE - INDEX_PAGE_HEADER_SIZE) / INDEX_ENTRY_SIZE
    }

    pub fn num_keys(&self) -> (r: usize)
        ensures
            r == self.entries@.len(),
    {
        self.entries.len()
    }

    pub fn get_entry(&self, pos: usize) -> (r: Result<IndexEntry, StorageError>)
        ensures
            match r {
                Ok(e) => pos < self.entries@.len() && e == self.entries@[pos as int],
                Err(_) => pos >= self.entries@.len(),
            },
    {
        if pos >= self.entries.len() {
            return Err(StorageError::Invalid("entry index out of range"));
        }
        Ok(self.entries[pos])
    }

    /// Classic binary search over the keys: whether `key` is there, and its
    /// position, or the position where it belongs.
    pub fn binary_search(&self, key: u64) -> (r: (bool, usize))
        ensures
            r.1 <= self.entries@.len(),
            r.0 ==> r.1 < self.entries@.len() && self.entries@[r.1 as int].key == key,
            keys_sorted(self.entries@) ==> {
                &&& r.0 <==> exists|i: int| 0 <= i < self.entries@.len() && self.entries@[i].key == key
                &&& !r.0 ==> is_insertion_point(self.entries@, key, r.1 as int)
                &&& forall|i: int|
                    0 <= i < self.entries@.len() ==> (r == (true, i as usize) <==> self.entries@[i].key == key)
            },
    {
        let count = self.entries.len();
        let mut left: usize = 0;
        let mut right: usize = count;
        while left < right
            invariant
                count == self.entries@.len(),
                left <= right <= count,
                keys_sorted(self.entries@) ==> forall|i: int| 0 <= i < left ==> self.entries@[i].key < key,
                keys_sorted(self.entries@) ==> forall|i: int| right <= i < count ==> self.entries@[i].key > key,
            decreases right - left,
        {
            let mid = left + (right - left) / 2;
            let k = self.entries[mid].key;
            if k == key {
                return (true, mid);
            } else if k < key {
                left = mid + 1;
            } else {
                right = mid;
            }
        }
        (false, left)
    }

    /// Puts `entry` at `pos`, shifting the entries from there one place right;
    /// refused when the page is full or `pos` is past the end.
    pub fn insert_at(&mut self, pos: usize, entry: IndexEntry) -> (r: Result<(), StorageError>)
        requires
            old(self).wf(),
        ensures
            final(self).wf(),
            match r {
                Ok(()) => old(self).entries@.len() < MAX_ENTRIES && pos <= old(self).entries@.len()
                    && final(self)@ == (IndexPageView {
                    entries: old(self).entries@.insert(pos as int, entry),
                    ..old(self)@
                }),
                Err(e) => final(self)@ == old(self)@ && (if old(self).entries@.len() >= MAX_ENTRIES {
                    e == StorageError::Invalid("index page full")
                } else {
                    pos > old(self).entries@.len() && e == StorageError::Invalid("insert position out of range")
                }),
            },
    {
        if self.entries.len() >= MAX_ENTRIES {
            return Err(StorageError::Invalid("index page full"));
        }
        if pos > self.entries.len() {
            return Err(StorageError::Invalid("insert position out of range"));
        }
        self.entries.insert(pos, entry);
        Ok(())
    }

    /// Overwrites the entry at `pos`.
    pub fn update_entry(&mut self, pos: usize, entry: IndexEntry) -> (r: Result<(), StorageError>)
        requires
            old(self).wf(),
        ensures
            final(self).wf(),
            match r {
                Ok(()) => pos < old(self).entries@.len() && final(self)@ == (IndexPageView {
                    entries: old(self).entries@.update(pos as int, entry),
                    ..old(self)@
                }),
                Err(_) => pos >= old(self).entries@.len() && final(self)@ == old(self)@,
            },
    {
        if pos >= self.entries.len() {
            return Err(StorageError::Invalid("entry position out of range"));
        }
        self.entries.set(pos, entry);
        Ok(())
    }

    /// A copy of all entries.
    pub fn entries(&self) -> (r: Vec<IndexEntry>)
        ensures
            r@ == self.entries@,
    {
        let mut out: Vec<IndexEntry> = Vec::new();
        let mut i: usize = 0;
        while i < self.entries.len()
            invariant
                i <= self.entries@.len(),
                out@ == self.entries@.subrange(0, i as int),
            decreases self.entries@.len() - i,
        {
            out.push(self.entries[i]);
            i = i + 1;
            assert(out@ =~= self.entries@.subrange(0, i as int));
        }
        assert(out@ =~= self.entries@);
        out
    }

    /// Clears the page, siblings included, and fills it with `entries`.
    pub fn set_entries(&mut self, is_leaf: bool, entries: Vec<IndexEntry>) -> (r: Result<(), StorageError>)
        requires
            old(self).wf(),
        ensures
            final(self).wf(),
            match r {
                Ok(()) => entries@.len() <= MAX_ENTRIES && final(self)@ == (IndexPageView {
                    is_leaf,
                    prev_page_id: 0,
                    next_page_id: 0,
                    entries: entries@,
                }),
                Err(_) => entries@.len() > MAX_ENTRIES && final(self)@ == old(self)@,
            },
    {
        if entries.len() > MAX_ENTRIES {
            return Err(StorageError::Invalid("too many entries for page"));
        }
        self.is_leaf = is_leaf;
        self.prev_page_id = 0;
        self.next_page_id = 0;
        self.entries = entries;
        Ok(())
    }
}

/// Index page search: inserting a new key at the position that
/// `binary_search` reports keeps the keys strictly sorted, so after any run of
/// such inserts a search finds each key at its one position and no other.
pub proof fn lemma_insert_keeps_sorted(es: Seq<IndexEntry>, e: IndexEntry, pos: int)
    requires
        keys_sorted(es),
        is_insertion_point(es, e.key, pos),
    ensures
        keys_sorted(es.insert(pos, e)),
{
    let t = es.insert(pos, e);
    assert forall|i: int, j: int| 0 <= i < j < t.len() implies t[i].key < t[j].key by {
        if j < pos {
        } else if j == pos {
        } else if i < pos {
        } else if i == pos {
        } else {
        }
    }
}

} // verus!
