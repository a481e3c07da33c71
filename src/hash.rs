//! The hash index: keys mixed with a per-index seed pick a bucket; each
//! bucket is a chain of pages, the first allocated on the bucket's first insert.

use vstd::prelude::*;
use std::collections::HashMap;
use std::hash::BuildHasher;
use crate::btree::{has_key, page_at, BTree, IndexSplit};
use crate::error::StorageError;
use crate::files::IndexFile;
use crate::layout::{PageId, TuplePointer};
use crate::page::{IndexEntry, IndexPage, MAX_ENTRIES};

verus! {

broadcast use vstd::std_specs::hash::group_hash_axioms;

/// Relies on std's `RandomState::new`, whose keys are drawn from the
/// operating system's randomness, hashing one constant with
/// `BuildHasher::hash_one` to draw a seed; nothing is claimed of it.
#[verifier::external_body]
fn entropy_seed() -> u64 {
    std::collections::hash_map::RandomState::new().hash_one(0x5eed_u64)
}

/// The bucket of `key` under `seed`: the key is mixed into the seed, then
/// twice multiplied by an odd constant and folded with a shift; the top 32
/// bits of the result name the bucket.
pub open spec fn bucket_of(seed: u64, key: u64) -> u32 {
    let h0 = seed ^ key;
    let h1 = ((h0 as int * 0xff51afd7ed558ccd) % 0x1_0000_0000_0000_0000) as u64;
    let h2 = h1 ^ (h1 >> 32u64);
    let h3 = ((h2 as int * 0xc4ceb9fe1a85ec53) % 0x1_0000_0000_0000_0000) as u64;
    let h4 = h3 ^ (h3 >> 33u64);
    (h4 / 0x1_0000_0000) as u32
}

/// The pointer of the first entry with key `key`, if any.
pub open spec fn first_ptr(es: Seq<IndexEntry>, key: u64) -> Option<TuplePointer> {
    if has_key(es, key) {
        Some(
            es[choose|i: int| 0 <= i < es.len() && es[i].key == key && forall|j: int| 0 <= j < i ==> es[j].key != key].pointer(),
        )
    } else {
        None
    }
}

proof fn lemma_first_ptr_at(es: Seq<IndexEntry>, key: u64, i: int)
    requires
        0 <= i < es.len(),
        es[i].key == key,
        forall|j: int| 0 <= j < i ==> es[j].key != key,
    ensures
        first_ptr(es, key) == Some(es[i].pointer()),
{
    let k = choose|k: int| 0 <= k < es.len() && es[k].key == key && forall|j: int| 0 <= j < k ==> es[j].key != key;
    if k < i {
    } else if i < k {
        assert(es[i].key == key);
    }
}

/// What a walk of a bucket chain from page `page` finds for `key` within
/// `fuel` pages: the first entry with the key in the first page that holds
/// it, following the next-page links.
pub open spec fn chain_lookup(f: Seq<u8>, page: int, key: u64, fuel: nat) -> Option<TuplePointer>
    decreases fuel,
{
    if fuel == 0 {
        None
    } else {
        match page_at(f, page) {
            None => None,
            Some(v) => if has_key(v.entries, key) {
                first_ptr(v.entries, key)
            } else if v.next_page_id == 0 {
                None
            } else {
                chain_lookup(f, v.next_page_id as int, key, (fuel - 1) as nat)
            },
        }
    }
}

/// Whether `p` is the run of pages a chain walk from `first` passed before
/// reaching `cur`: each is full, lacks `key`, and links to the next.
pub open spec fn walked(f: Seq<u8>, p: Seq<int>, first: int, cur: int, key: u64) -> bool {
    &&& p.len() == 0 ==> cur == first
    &&& p.len() > 0 ==> p[0] == first
    &&& forall|j: int|
        0 <= j < p.len() ==> (#[trigger] page_at(f, p[j]) matches Some(v) && !has_key(v.entries, key)
            && v.entries.len() == MAX_ENTRIES && v.next_page_id != 0 && v.next_page_id as int == if j + 1 < p.len() {
            p[j + 1]
        } else {
            cur
        })
}

proof fn lemma_walked(f: Seq<u8>, p: Seq<int>, first: int, cur: int, key: u64, fuel: nat)
    requires
        walked(f, p, first, cur, key),
        p.len() < fuel,
    ensures
        chain_lookup(f, first, key, fuel) == chain_lookup(f, cur, key, (fuel - p.len()) as nat),
    decreases p.len(),
{
    if p.len() > 0 {
        let q = p.drop_last();
        let last = p.last();
        assert(walked(f, q, first, last, key)) by {
            assert forall|j: int| 0 <= j < q.len() implies (#[trigger] page_at(f, q[j]) matches Some(v) && !has_key(
                v.entries,
                key,
            ) && v.entries.len() == MAX_ENTRIES && v.next_page_id != 0 && v.next_page_id as int == if j + 1 < q.len() {
                q[j + 1]
            } else {
                last
            }) by {
                assert(q[j] == p[j]);
                assert(page_at(f, p[j]) is Some);
            }
        }
        lemma_walked(f, q, first, last, key, fuel);
        assert(page_at(f, p[p.len() - 1]) is Some);
    }
}

/// Whether `id` is among `ids`.
fn holds_id(ids: &Vec<u32>, id: u32) -> (r: bool)
    ensures
        r == exists|k: int| 0 <= k < ids@.len() && ids@[k] == id,
{
    let mut k: usize = 0;
    while k < ids.len()
        invariant
            k <= ids@.len(),
            forall|m: int| 0 <= m < k ==> ids@[m] != id,
        decreases ids@.len() - k,
    {
        if ids[k] == id {
            return true;
        }
        k = k + 1;
    }
    false
}

/// Most pages a chain walk visits before it gives up on a malformed chain.
pub const MAX_CHAIN: u32 = 65536;

/// A hash index: its seed and the first page of each bucket used so far.
#[derive(Debug, Clone)]
pub struct HashIndex {
    pub root_page_id: Option<PageId>,
    pub bucket_pages: HashMap<u32, PageId>,
    pub seed: u64,
}

impl HashIndex {
    /// A hash index with a seed drawn from system entropy.
    pub fn new(root_page_id: Option<PageId>) -> (r: Self)
        ensures
            r.root_page_id == root_page_id,
            r.bucket_pages@ == Map::<u32, PageId>::empty(),
    {
        HashIndex { root_page_id, bucket_pages: HashMap::new(), seed: entropy_seed() }
    }

    /// A hash index with a given seed.
    pub fn with_seed(root_page_id: Option<PageId>, seed: u64) -> (r: Self)
        ensures
            r.root_page_id == root_page_id,
            r.bucket_pages@ == Map::<u32, PageId>::empty(),
            r.seed == seed,
    {
        HashIndex { root_page_id, bucket_pages: HashMap::new(), seed }
    }

    pub fn root_page_id(&self) -> (r: Option<PageId>)
        ensures
            r == self.root_page_id,
    {
        self.root_page_id
    }

    /// The bucket of a key.
    pub fn hash_key(&self, key: u64) -> (r: u32)
        ensures
            r == bucket_of(self.seed, key),
    {
        let mut hash = self.seed;
        hash = hash ^ key;
        hash = hash.wrapping_mul(0xff51afd7ed558ccdu64);
        hash = hash ^ (hash >> 32u64);
        hash = hash.wrapping_mul(0xc4ceb9fe1a85ec53u64);
        hash = hash ^ (hash >> 33u64);
        (hash / 0x1_0000_0000) as u32
    }

    /// The first page of a bucket, if the bucket has one.
    pub fn bucket_page(&self, bucket: u32) -> (r: Option<PageId>)
        ensures
            r == if self.bucket_pages@.contains_key(bucket) {
                Some(self.bucket_pages@[bucket])
            } else {
                None::<PageId>
            },
    {
        match self.bucket_pages.get(&bucket) {
            Some(p) => Some(*p),
            None => None,
        }
    }

    /// The first page of a bucket, allocating and writing an empty one on
    /// the bucket's first use.
    fn get_bucket_page(&mut self, bucket: u32, file: &mut IndexFile) -> (r: Result<PageId, StorageError>)
        ensures
            final(self).seed == old(self).seed,
            final(self).root_page_id == old(self).root_page_id,
            r matches Ok(p) ==> final(self).bucket_pages@.contains_key(bucket) && final(self).bucket_pages@[bucket] == p,
    {
        if let Some(p) = self.bucket_page(bucket) {
            return Ok(p);
        }
        let page_id = match file.allocate_page() {
            Ok(p) => p,
            Err(e) => return Err(e),
        };
        let page = IndexPage::new(true);
        let bytes = page.to_bytes();
        if let Err(e) = file.write_page(page_id, bytes.as_slice()) {
            return Err(e);
        }
        self.bucket_pages.insert(bucket, page_id);
        Ok(page_id)
    }

    /// Reads and checks one page.
    fn load(file: &IndexFile, id: PageId) -> (r: Result<IndexPage, StorageError>)
        ensures
            r matches Ok(p) ==> p.wf(),
    {
        let data = match file.read_page(id) {
            Ok(d) => d,
            Err(e) => return Err(e),
        };
        IndexPage::from_bytes(data.as_slice())
    }

    /// The last page of the chain that starts at `first_page_id`.
    pub fn find_last_page(&self, first_page_id: PageId, file: &IndexFile) -> (r: Result<PageId, StorageError>)
        ensures
            r matches Ok(id) ==> (page_at(file.disk@, id.0 as int) matches Some(v) && v.next_page_id == 0),
    {
        let mut current = first_page_id;
        let mut fuel: u32 = MAX_CHAIN;
        while fuel > 0
            decreases fuel,
        {
            let page = match BTree::load_page(file, current) {
                Ok(p) => p,
                Err(e) => return Err(e),
            };
            match page.next_sibling() {
                None => return Ok(current),
                Some(next) => current = next,
            }
            fuel = fuel - 1;
        }
        Err(StorageError::CorruptData("hash bucket chain too long"))
    }

    /// The position of the first entry of a page with key `key`.
    pub fn search_in_page(page: &IndexPage, key: u64) -> (r: Option<usize>)
        ensures
            match r {
                Some(i) => i < page.entries@.len() && page.entries@[i as int].key == key && forall|j: int|
                    0 <= j < i ==> page.entries@[j].key != key,
                None => !has_key(page.entries@, key),
            },
    {
        let mut i: usize = 0;
        while i < page.entries.len()
            invariant
                i <= page.entries@.len(),
                forall|j: int| 0 <= j < i ==> page.entries@[j].key != key,
            decreases page.entries@.len() - i,
        {
            if page.entries[i].key == key {
                return Some(i);
            }
            i = i + 1;
        }
        None
    }

    /// Overwrites the entry at `pos` of a page.
    pub fn update_entry(page: &mut IndexPage, pos: usize, entry: &IndexEntry) -> (r: Result<(), StorageError>)
        requires
            old(page).wf(),
        ensures
            final(page).wf(),
            r is Ok <==> pos < old(page).entries@.len(),
            r is Ok ==> final(page).entries@ == old(page).entries@.update(pos as int, *entry),
            r is Err ==> final(page)@ == old(page)@,
    {
        page.update_entry(pos, *entry)
    }

    /// Stores `key` with `pointer`: an entry with the key anywhere in the
    /// bucket's chain is overwritten, else the entry goes to the end of the
    /// first page with room, and a new page joins the chain when all are full.
    #[verifier::spinoff_prover]
    #[verifier::rlimit(100)]
    pub fn insert(&mut self, key: u64, pointer: TuplePointer, file: &mut IndexFile) -> (r: Result<
        Option<IndexSplit>,
        StorageError,
    >)
        ensures
            final(self).seed == old(self).seed,
            final(self).root_page_id == old(self).root_page_id,
            r is Ok ==> r == Ok::<Option<IndexSplit>, StorageError>(None),
            r is Ok ==> final(self).bucket_pages@.contains_key(bucket_of(old(self).seed, key)),
            r is Ok ==> chain_lookup(
                final(file).disk@,
                final(self).bucket_pages@[bucket_of(old(self).seed, key)].0 as int,
                key,
                MAX_CHAIN as nat,
            ) == Some(pointer),
    {
        let bucket = self.hash_key(key);
        let first = match self.get_bucket_page(bucket, file) {
            Ok(p) => p,
            Err(e) => return Err(e),
        };
        let entry = IndexEntry::new(key, pointer);
        let ghost f0 = file.disk@;
        let ghost path: Seq<int> = Seq::empty();
        let mut seen: Vec<u32> = Vec::new();
        let mut current = first;
        let mut fuel: u32 = MAX_CHAIN - 1;
        while fuel > 0
            invariant
                self.seed == old(self).seed,
                self.root_page_id == old(self).root_page_id,
                self.bucket_pages@.contains_key(bucket),
                self.bucket_pages@[bucket] == first,
                bucket == bucket_of(old(self).seed, key),
                entry == IndexEntry::new_spec(key, pointer),
                file.disk@ == f0,
                walked(f0, path, first.0 as int, current.0 as int, key),
                path.len() + fuel == MAX_CHAIN - 1,
                seen@.len() == path.len(),
                forall|k: int| 0 <= k < path.len() ==> #[trigger] path[k] == seen@[k] as int,
            decreases fuel,
        {
            let mut page = match BTree::load_page(file, current) {
                Ok(p) => p,
                Err(e) => return Err(e),
            };
            let ghost before = page@;
            proof {
                lemma_walked(f0, path, first.0 as int, current.0 as int, key, MAX_CHAIN as nat);
            }
            if let Some(pos) = Self::search_in_page(&page, key) {
                let _ = Self::update_entry(&mut page, pos, &entry);
                let r = BTree::store_page(file, current, &page);
                proof {
                    if r is Ok {
                        assert forall|k: int| 0 <= k < path.len() implies #[trigger] page_at(file.disk@, path[k]) == page_at(f0, path[k]) by {
                            assert(page_at(f0, path[k]) is Some);
                            if path[k] == current.0 {
                                assert(has_key(before.entries, key));
                            }
                        }
                        assert(walked(file.disk@, path, first.0 as int, current.0 as int, key));
                        lemma_walked(file.disk@, path, first.0 as int, current.0 as int, key, MAX_CHAIN as nat);
                        lemma_first_ptr_at(page.entries@, key, pos as int);
                    }
                }
                return match r {
                    Ok(()) => Ok(None),
                    Err(e) => Err(e),
                };
            }
            let n = page.num_keys();
            if n < MAX_ENTRIES {
                let _ = page.insert_at(n, entry);
                let r = BTree::store_page(file, current, &page);
                proof {
                    if r is Ok {
                        assert forall|k: int| 0 <= k < path.len() implies #[trigger] page_at(file.disk@, path[k]) == page_at(f0, path[k]) by {
                            assert(page_at(f0, path[k]) is Some);
                        }
                        assert(walked(file.disk@, path, first.0 as int, current.0 as int, key));
                        lemma_walked(file.disk@, path, first.0 as int, current.0 as int, key, MAX_CHAIN as nat);
                        lemma_first_ptr_at(page.entries@, key, n as int);
                    }
                }
                return match r {
                    Ok(()) => Ok(None),
                    Err(e) => Err(e),
                };
            }
            match page.next_sibling() {
                Some(next) => {
                    proof {
                        path = path.push(current.0 as int);
                        assert forall|j: int| 0 <= j < path.len() implies (#[trigger] page_at(f0, path[j]) matches Some(v)
                            && !has_key(v.entries, key) && v.entries.len() == MAX_ENTRIES && v.next_page_id != 0
                            && v.next_page_id as int == if j + 1 < path.len() {
                            path[j + 1]
                        } else {
                            next.0 as int
                        }) by {
                            if j + 1 < path.len() {
                                assert(page_at(f0, path[j]) is Some);
                            }
                        }
                    }
                    seen.push(current.raw());
                    current = next;
                },
                None => {
                    let overflow_id = match file.allocate_page() {
                        Ok(p) => p,
                        Err(e) => return Err(e),
                    };
                    if overflow_id.raw() == 0 || overflow_id.raw() == current.raw() {
                        return Err(StorageError::CorruptData("hash bucket chain reaches an unallocated page"));
                    }
                    if holds_id(&seen, overflow_id.raw()) {
                        return Err(StorageError::CorruptData("hash bucket chain reaches an unallocated page"));
                    }
                    let mut overflow = IndexPage::new(true);
                    page.set_next_sibling(Some(overflow_id));
                    if let Err(e) = BTree::store_page(file, current, &page) {
                        return Err(e);
                    }
                    let ghost g1 = file.disk@;
                    let _ = overflow.insert_at(0, entry);
                    let r = BTree::store_page(file, overflow_id, &overflow);
                    proof {
                        if r is Ok {
                            let p2 = path.push(current.0 as int);
                            assert forall|j: int| 0 <= j < p2.len() implies (#[trigger] page_at(file.disk@, p2[j]) matches Some(v)
                                && !has_key(v.entries, key) && v.entries.len() == MAX_ENTRIES && v.next_page_id != 0
                                && v.next_page_id as int == if j + 1 < p2.len() {
                                p2[j + 1]
                            } else {
                                overflow_id.0 as int
                            }) by {
                                if j < path.len() {
                                    assert(page_at(f0, path[j]) is Some);
                                    assert(path[j] == seen@[j] as int);
                                    assert(path[j] != current.0);
                                    assert(page_at(g1, path[j]) == page_at(f0, path[j]));
                                    assert(page_at(file.disk@, path[j]) == page_at(g1, path[j]));
                                } else {
                                    assert(page_at(file.disk@, current.0 as int) == page_at(g1, current.0 as int));
                                }
                            }
                            assert(walked(file.disk@, p2, first.0 as int, overflow_id.0 as int, key));
                            lemma_walked(file.disk@, p2, first.0 as int, overflow_id.0 as int, key, MAX_CHAIN as nat);
                            lemma_first_ptr_at(overflow.entries@, key, 0);
                        }
                    }
                    return match r {
                        Ok(()) => Ok(None),
                        Err(e) => Err(e),
                    };
                },
            }
            fuel = fuel - 1;
        }
        Err(StorageError::CorruptData("hash bucket chain too long"))
    }

    /// The pointer stored under `key`, if any: the bucket's chain is walked
    /// page by page.
    pub fn search(&self, key: u64, file: &IndexFile) -> (r: Result<Option<TuplePointer>, StorageError>)
        ensures
            !self.bucket_pages@.contains_key(bucket_of(self.seed, key)) ==> r == Ok::<
                Option<TuplePointer>,
                StorageError,
            >(None),
            self.bucket_pages@.contains_key(bucket_of(self.seed, key)) ==> (r is Ok ==> r == Ok::<
                Option<TuplePointer>,
                StorageError,
            >(chain_lookup(file.disk@, self.bucket_pages@[bucket_of(self.seed, key)].0 as int, key, MAX_CHAIN as nat))),
    {
        let bucket = self.hash_key(key);
        let first = match self.bucket_page(bucket) {
            Some(p) => p,
            None => return Ok(None),
        };
        let ghost target = chain_lookup(file.disk@, first.0 as int, key, MAX_CHAIN as nat);
        let mut current = first;
        let mut fuel: u32 = MAX_CHAIN;
        while fuel > 0
            invariant
                self.bucket_pages@.contains_key(bucket),
                bucket == bucket_of(self.seed, key),
                first == self.bucket_pages@[bucket],
                target == chain_lookup(file.disk@, first.0 as int, key, MAX_CHAIN as nat),
                target == chain_lookup(file.disk@, current.0 as int, key, fuel as nat),
            decreases fuel,
        {
            let page = match BTree::load_page(file, current) {
                Ok(p) => p,
                Err(e) => return Err(e),
            };
            if let Some(pos) = Self::search_in_page(&page, key) {
                proof {
                    lemma_first_ptr_at(page.entries@, key, pos as int);
                }
                return Ok(Some(page.entries[pos].as_tuple_pointer()));
            }
            match page.next_sibling() {
                Some(next) => current = next,
                None => return Ok(None),
            }
            fuel = fuel - 1;
        }
        Err(StorageError::CorruptData("hash bucket chain too long"))
    }
}

} // verus!
