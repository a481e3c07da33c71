//! The index abstraction: the two kinds of index behind one type, what each
//! can do, and the registry that builds them by type name.

use vstd::prelude::*;
use crate::btree::{entries_in_range, has_key, leaf_under_root, lookup, page_at, root_leaf, upsert, BTree, IndexSplit};
use crate::page::{keys_sorted, IndexEntry, IndexPageView, MAX_ENTRIES};
use crate::error::StorageError;
use crate::files::IndexFile;
use crate::hash::{bucket_of, chain_lookup, HashIndex, MAX_CHAIN};
use crate::layout::{PageId, TuplePointer};

verus! {

/// What an index can do.
#[derive(Debug, Clone, Copy, PartialEq, Eq, Structural)]
pub enum IndexCapability {
    /// Inserts and point lookups.
    PointOnly,
    /// Also range scans and full scans in key order.
    Ordered,
}

/// An index instance.
#[derive(Debug, Clone)]
pub enum Index {
    BTree(BTree),
    Hash(HashIndex),
}

impl Index {
    /// The type name of this index.
    pub fn index_type(&self) -> (r: &'static str)
        ensures
            self is BTree ==> r@ == "btree"@,
            self is Hash ==> r@ == "hash"@,
    {
        match self {
            Index::BTree(_) => "btree",
            Index::Hash(_) => "hash",
        }
    }

    pub fn capability(&self) -> (r: IndexCapability)
        ensures
            r == if self is BTree { IndexCapability::Ordered } else { IndexCapability::PointOnly },
    {
        match self {
            Index::BTree(_) => IndexCapability::Ordered,
            Index::Hash(_) => IndexCapability::PointOnly,
        }
    }

    /// Stores `key` with `pointer`; a split that the index could not absorb
    /// is handed back.
    pub fn insert(&mut self, key: u64, pointer: TuplePointer, file: &mut IndexFile) -> (r: Result<
        Option<IndexSplit>,
        StorageError,
    >)
        ensures
            ((*final(self)) is BTree) == ((*old(self)) is BTree),
            (*old(self)) is BTree ==> *final(self) == *old(self),
            *old(self) matches Index::BTree(t) ==> (root_leaf(t, old(file).disk@) matches Some(v) ==> (keys_sorted(
                v.entries,
            ) && (v.entries.len() < MAX_ENTRIES || has_key(v.entries, key)) ==> r == Ok::<
                Option<IndexSplit>,
                StorageError,
            >(None) && page_at(final(file).disk@, t.root_page_id.unwrap().0 as int) == Some(
                IndexPageView { entries: upsert(v.entries, IndexEntry::new_spec(key, pointer)), ..v },
            ))),
            *old(self) matches Index::Hash(h) ==> (r is Ok ==> (*final(self) matches Index::Hash(g) && g.seed == h.seed
                && g.bucket_pages@.contains_key(bucket_of(h.seed, key)) && chain_lookup(
                final(file).disk@,
                g.bucket_pages@[bucket_of(h.seed, key)].0 as int,
                key,
                MAX_CHAIN as nat,
            ) == Some(pointer))),
    {
        match self {
            Index::BTree(t) => t.insert(key, pointer, file),
            Index::Hash(h) => h.insert(key, pointer, file),
        }
    }

    /// The pointer stored under `key`, if any.
    pub fn search(&self, key: u64, file: &IndexFile) -> (r: Result<Option<TuplePointer>, StorageError>)
        ensures
            *self matches Index::BTree(t) ==> (root_leaf(t, file.disk@) matches Some(v) ==> (keys_sorted(v.entries)
                ==> r == Ok::<Option<TuplePointer>, StorageError>(lookup(v.entries, key)))),
            *self matches Index::BTree(t) ==> (leaf_under_root(t, file.disk@, key) matches Some((_, v)) ==> (keys_sorted(
                v.entries,
            ) ==> r == Ok::<Option<TuplePointer>, StorageError>(lookup(v.entries, key)))),
            *self matches Index::Hash(h) ==> (!h.bucket_pages@.contains_key(bucket_of(h.seed, key)) ==> r == Ok::<
                Option<TuplePointer>,
                StorageError,
            >(None)),
            *self matches Index::Hash(h) ==> (h.bucket_pages@.contains_key(bucket_of(h.seed, key)) ==> (r is Ok ==> r
                == Ok::<Option<TuplePointer>, StorageError>(
                chain_lookup(file.disk@, h.bucket_pages@[bucket_of(h.seed, key)].0 as int, key, MAX_CHAIN as nat),
            ))),
    {
        match self {
            Index::BTree(t) => t.search(key, file),
            Index::Hash(h) => h.search(key, file),
        }
    }

    /// The entries with keys in `[start_key, end_key]` in key order; an index
    /// without order has none to give.
    pub fn range_scan(&self, start_key: u64, end_key: u64, file: &IndexFile) -> (r: Result<
        Vec<(u64, TuplePointer)>,
        StorageError,
    >)
        ensures
            self is Hash ==> (r matches Ok(v) && v@.len() == 0),
            *self matches Index::BTree(t) ==> (root_leaf(t, file.disk@) matches Some(v) ==> (v.next_page_id == 0 ==> (
            r matches Ok(s) && s@ == entries_in_range(v.entries, start_key, end_key)))),
    {
        match self {
            Index::BTree(t) => t.range_scan(start_key, end_key, file),
            Index::Hash(_) => Ok(Vec::new()),
        }
    }

    /// Every entry in key order; an index without order has none to give.
    pub fn full_scan(&self, file: &IndexFile) -> (r: Result<Vec<(u64, TuplePointer)>, StorageError>)
        ensures
            self is Hash ==> (r matches Ok(v) && v@.len() == 0),
            *self matches Index::BTree(t) ==> (root_leaf(t, file.disk@) matches Some(v) ==> (v.next_page_id == 0 ==> (
            r matches Ok(s) && s@ == entries_in_range(v.entries, 0, u64::MAX)))),
    {
        match self {
            Index::BTree(t) => t.full_scan(file),
            Index::Hash(_) => Ok(Vec::new()),
        }
    }
}

/// Builds B+-trees.
#[derive(Debug, Clone, Copy)]
pub struct BTreeBuilder;

/// Builds hash indexes.
#[derive(Debug, Clone, Copy)]
pub struct HashIndexBuilder;

impl BTreeBuilder {
    pub fn create(&self, root_page_id: Option<PageId>) -> (r: Index)
        ensures
            r == Index::BTree(BTree { root_page_id }),
    {
        Index::BTree(BTree::new(root_page_id))
    }

    pub fn name(&self) -> (r: &'static str)
        ensures
            r@ == "btree"@,
    {
        "btree"
    }
}

impl HashIndexBuilder {
    pub fn create(&self, root_page_id: Option<PageId>) -> (r: Index)
        ensures
            r matches Index::Hash(h) && h.root_page_id == root_page_id && h.bucket_pages@ == Map::<u32, PageId>::empty(),
    {
        Index::Hash(HashIndex::new(root_page_id))
    }

    pub fn name(&self) -> (r: &'static str)
        ensures
            r@ == "hash"@,
    {
        "hash"
    }
}

/// A factory of one kind of index.
#[derive(Debug, Clone, Copy)]
pub enum IndexBuilder {
    BTree(BTreeBuilder),
    Hash(HashIndexBuilder),
}

impl IndexBuilder {
    pub fn create(&self, root_page_id: Option<PageId>) -> (r: Index)
        ensures
            self is BTree ==> r == Index::BTree(BTree { root_page_id }),
            self is Hash ==> (r matches Index::Hash(h) && h.root_page_id == root_page_id && h.bucket_pages@ == Map::<u32, PageId>::empty()),
    {
        match self {
            IndexBuilder::BTree(b) => b.create(root_page_id),
            IndexBuilder::Hash(b) => b.create(root_page_id),
        }
    }
}

/// The builder of the first entry of `bs` named `n`.
pub open spec fn registered(bs: Seq<(String, IndexBuilder)>, n: Seq<char>) -> Option<IndexBuilder>
    decreases bs.len(),
{
    if bs.len() == 0 {
        None
    } else if bs[0].0@ == n {
        Some(bs[0].1)
    } else {
        registered(bs.drop_first(), n)
    }
}

/// The entry at `i` is the first named `n`.
proof fn lemma_registered_first(bs: Seq<(String, IndexBuilder)>, n: Seq<char>, i: int)
    requires
        0 <= i < bs.len(),
        bs[i].0@ == n,
        forall|k: int| 0 <= k < i ==> bs[k].0@ != n,
    ensures
        registered(bs, n) == Some(bs[i].1),
    decreases i,
{
    if i > 0 {
        lemma_registered_first(bs.drop_first(), n, i - 1);
    }
}

/// Two registries that agree on the entries named `n`, where one only adds
/// entries of other names at its end, register the same builder under `n`.
proof fn lemma_registered_same(a: Seq<(String, IndexBuilder)>, b: Seq<(String, IndexBuilder)>, n: Seq<char>)
    requires
        a.len() <= b.len(),
        forall|k: int| 0 <= k < a.len() ==> (a[k].0@ == n <==> b[k].0@ == n),
        forall|k: int| 0 <= k < a.len() && a[k].0@ == n ==> a[k].1 == b[k].1,
        forall|k: int| a.len() <= k < b.len() ==> b[k].0@ != n,
    ensures
        registered(a, n) == registered(b, n),
    decreases b.len(),
{
    if b.len() > 0 {
        if a.len() == 0 {
            lemma_registered_same(a, b.drop_first(), n);
        } else {
            lemma_registered_same(a.drop_first(), b.drop_first(), n);
        }
    }
}

/// Index builders by type name.
pub struct IndexBuilderRegistry {
    pub builders: Vec<(String, IndexBuilder)>,
}

impl IndexBuilderRegistry {
    /// An empty registry.
    pub fn new() -> (r: Self)
        ensures
            r.builders@.len() == 0,
    {
        IndexBuilderRegistry { builders: Vec::new() }
    }

    /// The builder registered under `kind`, if any.
    pub fn builder(&self, kind: &str) -> (r: Option<IndexBuilder>)
        ensures
            r == registered(self.builders@, kind@),
    {
        let target = kind.to_owned();
        let mut i: usize = 0;
        assert(self.builders@.subrange(0, self.builders@.len() as int) =~= self.builders@);
        while i < self.builders.len()
            invariant
                i <= self.builders@.len(),
                target@ == kind@,
                registered(self.builders@, kind@) == registered(self.builders@.subrange(i as int, self.builders@.len() as int), kind@),
            decreases self.builders@.len() - i,
        {
            let ghost rest = self.builders@.subrange(i as int, self.builders@.len() as int);
            assert(rest.drop_first() =~= self.builders@.subrange(i + 1, self.builders@.len() as int));
            if self.builders[i].0 == target {
                return Some(self.builders[i].1);
            }
            i = i + 1;
        }
        None
    }

    /// Registers a builder under `kind`, replacing the one of the same name.
    pub fn register(&mut self, kind: &str, builder: IndexBuilder)
        ensures
            registered(final(self).builders@, kind@) == Some(builder),
            forall|n: Seq<char>| n != kind@ ==> #[trigger] registered(final(self).builders@, n) == registered(
                old(self).builders@,
                n,
            ),
    {
        let target = kind.to_owned();
        let mut i: usize = 0;
        while i < self.builders.len()
            invariant
                i <= self.builders@.len(),
                target@ == kind@,
                self.builders@ == old(self).builders@,
                forall|k: int| 0 <= k < i ==> self.builders@[k].0@ != kind@,
            decreases self.builders@.len() - i,
        {
            if self.builders[i].0 == target {
                let name = self.builders[i].0.clone();
                self.builders.set(i, (name, builder));
                proof {
                    lemma_registered_first(self.builders@, kind@, i as int);
                    assert forall|n: Seq<char>| n != kind@ implies #[trigger] registered(self.builders@, n) == registered(
                        old(self).builders@,
                        n,
                    ) by {
                        lemma_registered_same(old(self).builders@, self.builders@, n);
                    }
                }
                return;
            }
            i = i + 1;
        }
        self.builders.push((target, builder));
        proof {
            lemma_registered_first(self.builders@, kind@, i as int);
            assert forall|n: Seq<char>| n != kind@ implies #[trigger] registered(self.builders@, n) == registered(
                old(self).builders@,
                n,
            ) by {
                lemma_registered_same(old(self).builders@, self.builders@, n);
            }
        }
    }

    /// A fresh index of the type registered under `kind`, over the given root.
    pub fn create_index(&self, kind: &str, root_page_id: Option<PageId>) -> (r: Option<Index>)
        ensures
            match registered(self.builders@, kind@) {
                None => r is None,
                Some(IndexBuilder::BTree(_)) => r == Some(Index::BTree(BTree { root_page_id })),
                Some(IndexBuilder::Hash(_)) => r matches Some(Index::Hash(h)) && h.root_page_id == root_page_id
                    && h.bucket_pages@ == Map::<u32, PageId>::empty(),
            },
    {
        match self.builder(kind) {
            Some(b) => Some(b.create(root_page_id)),
            None => None,
        }
    }

    /// The registered type names.
    pub fn available_types(&self) -> (r: Vec<String>)
        ensures
            r@.len() == self.builders@.len(),
            forall|i: int| 0 <= i < r@.len() ==> r@[i]@ == self.builders@[i].0@,
    {
        let mut out: Vec<String> = Vec::new();
        let mut i: usize = 0;
        while i < self.builders.len()
            invariant
                i <= self.builders@.len(),
                out@.len() == i,
                forall|k: int| 0 <= k < i ==> out@[k]@ == self.builders@[k].0@,
            decreases self.builders@.len() - i,
        {
            out.push(self.builders[i].0.clone());
            i = i + 1;
        }
        out
    }
}

/// Registers the built-in index types: "btree" and "hash".
pub fn register_builtin_indexes(registry: &mut IndexBuilderRegistry)
    ensures
        registered(final(registry).builders@, "btree"@) == Some(IndexBuilder::BTree(BTreeBuilder)),
        registered(final(registry).builders@, "hash"@) == Some(IndexBuilder::Hash(HashIndexBuilder)),
{
    registry.register("btree", IndexBuilder::BTree(BTreeBuilder));
    registry.register("hash", IndexBuilder::Hash(HashIndexBuilder));
    proof {
        reveal_strlit("btree");
        reveal_strlit("hash");
        assert("btree"@.len() != "hash"@.len());
    }
}

} // verus!
