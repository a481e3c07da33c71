//! The database: tables with their files and indexes, kept in step with a
//! catalog that is saved to one of two files in turn.

use vstd::prelude::*;
use vstd::string::StringExecFns;
use crate::block::{lemma_append_image, slot_count_of, tuple_of, Block};
use crate::hash::{bucket_of, chain_lookup, MAX_CHAIN};
use crate::btree::{entries_in_range, leaf_under_root, lookup, page_at, root_leaf, upsert, BTree};
use crate::codec::str_fits;
use crate::files::{page_offset_of, segment_header_in};
use crate::page::IndexPageView;
use crate::layout::SegmentHeader;
use crate::catalog::{columns_fit, index_views, table_fits};
use crate::types::{ColumnView, ValueView};
use crate::page::{keys_sorted, IndexEntry, MAX_ENTRIES};
use crate::block::block_wf;
use crate::layout::{block_offset_of, BLOCK_SIZE};
use crate::types::column_views;
use crate::bytes::{u32_at, u64_at};
use crate::catalog::{
    catalog_fits, enc_catalog, names_unique, tables_view, Catalog, IndexFileMetadata, TableFileMetadata,
    CATALOG_VERSION,
};
use crate::types::rolling_hash;
use crate::codec::{at, decode_row, decoded_all, enc_row, encode_row, row_fits};
use crate::bytes::lemma_u32_bytes;
use crate::config::Config;
use crate::disk::{lemma_file_write_read, DiskFile};
use crate::error::StorageError;
use crate::files::{IndexFile, TableFile};
use crate::index::{
    register_builtin_indexes, registered, BTreeBuilder, Index, IndexBuilder, IndexBuilderRegistry, IndexCapability,
};
use crate::layout::{bit_set, PageId, TuplePointer, BLOCKS_PER_UNCOMPRESSED_SEGMENT};
use crate::page::IndexPage;
use crate::types::{eq_ignore_ascii_case, key_of, Column, Row, Schema, Value};
use vstd::utf8::encode_utf8;

verus! {

/// One file of a directory: its name and contents.
pub struct FileEntry {
    pub name: String,
    pub bytes: Vec<u8>,
}

/// The files a database lives in, by name.
pub struct Directory {
    pub files: Vec<FileEntry>,
}

/// The contents of the first file of `files` named `name`.
pub open spec fn file_named(files: Seq<FileEntry>, name: Seq<char>) -> Option<Seq<u8>> {
    if exists|i: int| 0 <= i < files.len() && files[i].name@ == name {
        let i = choose|i: int|
            0 <= i < files.len() && files[i].name@ == name && forall|j: int| 0 <= j < i ==> files[j].name@ != name;
        Some(files[i].bytes@)
    } else {
        None
    }
}

/// The first file named `n` sits at `i`.
proof fn lemma_file_named_at(files: Seq<FileEntry>, n: Seq<char>, i: int)
    requires
        0 <= i < files.len(),
        files[i].name@ == n,
        forall|j: int| 0 <= j < i ==> files[j].name@ != n,
    ensures
        file_named(files, n) == Some(files[i].bytes@),
{
    let k = choose|k: int| 0 <= k < files.len() && files[k].name@ == n && forall|j: int| 0 <= j < k ==> files[j].name@ != n;
    if k < i {
    } else if i < k {
        assert(files[i].name@ == n);
    }
}

/// Two runs of files that agree on the files named `n`, where the second only
/// adds files of other names at its end, give the same file under `n`.
proof fn lemma_file_named_same(a: Seq<FileEntry>, b: Seq<FileEntry>, n: Seq<char>)
    requires
        a.len() <= b.len(),
        forall|k: int| 0 <= k < a.len() ==> (a[k].name@ == n <==> b[k].name@ == n),
        forall|k: int| 0 <= k < a.len() && a[k].name@ == n ==> a[k].bytes@ == b[k].bytes@,
        forall|k: int| a.len() <= k < b.len() ==> b[k].name@ != n,
    ensures
        file_named(a, n) == file_named(b, n),
{
    if exists|i: int| 0 <= i < a.len() && a[i].name@ == n {
        let i = choose|i: int| 0 <= i < a.len() && a[i].name@ == n && forall|j: int| 0 <= j < i ==> a[j].name@ != n;
        assert(exists|i: int| 0 <= i < a.len() && a[i].name@ == n && forall|j: int| 0 <= j < i ==> a[j].name@ != n) by {
            lemma_first_exists(a, n);
        }
        lemma_file_named_at(a, n, i);
        lemma_file_named_at(b, n, i);
    } else {
        if exists|i: int| 0 <= i < b.len() && b[i].name@ == n {
            let i = choose|i: int| 0 <= i < b.len() && b[i].name@ == n;
            if i < a.len() {
                assert(a[i].name@ == n);
            }
        }
    }
}

/// Where some file is named `n`, a first one is.
proof fn lemma_first_exists(a: Seq<FileEntry>, n: Seq<char>)
    requires
        exists|i: int| 0 <= i < a.len() && a[i].name@ == n,
    ensures
        exists|i: int| 0 <= i < a.len() && a[i].name@ == n && forall|j: int| 0 <= j < i ==> a[j].name@ != n,
    decreases a.len(),
{
    if a[0].name@ != n {
        let i = choose|i: int| 0 <= i < a.len() && a[i].name@ == n;
        assert(a.drop_first()[i - 1].name@ == n);
        lemma_first_exists(a.drop_first(), n);
        let k = choose|k: int|
            0 <= k < a.drop_first().len() && a.drop_first()[k].name@ == n && forall|j: int| 0 <= j < k ==> a.drop_first()[j].name@ != n;
        assert forall|j: int| 0 <= j < k + 1 implies a[j].name@ != n by {
            if j > 0 {
                assert(a[j] == a.drop_first()[j - 1]);
            }
        }
        assert(a[k + 1].name@ == n);
    } else {
        assert(forall|j: int| 0 <= j < 0 ==> a[j].name@ != n);
    }
}

/// Whether a catalog file is missing, too short for its header, of another
/// version, or fails its checksum.
pub open spec fn catalog_unreadable(f: Option<Seq<u8>>) -> bool {
    match f {
        None => true,
        Some(b) => b.len() < 16 || u32_at(b, 0) != CATALOG_VERSION || u64_at(b, 8) != rolling_hash(
            b.subrange(16, b.len() as int),
        ),
    }
}

/// The contents of an optional file.
pub open spec fn opt_view(o: &Option<Vec<u8>>) -> Option<Seq<u8>> {
    match o {
        Some(v) => Some(v@),
        None => None,
    }
}

/// The names of table records, in order.
pub open spec fn record_names(ts: Seq<TableFileMetadata>) -> Seq<Seq<char>> {
    ts.map_values(|t: TableFileMetadata| t.name@)
}

/// Open tables that carry the names and schemas of the records `ts`, in order.
pub open spec fn opened_as(tables: Seq<TableMetadata>, ts: Seq<TableFileMetadata>) -> bool {
    &&& names_of(tables) == record_names(ts)
    &&& tables.len() == ts.len()
    &&& forall|k: int|
        0 <= k < tables.len() ==> #[trigger] column_views(tables[k].schema.columns@) == column_views(
            ts[k].schema.columns@,
        )
}

proof fn lemma_open_names(tables: Seq<TableMetadata>, picked: Seq<TableFileMetadata>, ts: Seq<TableFileMetadata>)
    requires
        tables.len() == picked.len(),
        forall|k: int| 0 <= k < tables.len() ==> #[trigger] tables[k].name@ == picked[k].name@,
        forall|k: int|
            0 <= k < tables.len() ==> #[trigger] column_views(tables[k].schema.columns@) == column_views(
                picked[k].schema.columns@,
            ),
        tables_view(picked) == tables_view(ts),
    ensures
        opened_as(tables, ts),
{
    lemma_names_from_views(picked, ts);
    assert(names_of(tables) =~= record_names(ts));
    assert forall|k: int| 0 <= k < tables.len() implies #[trigger] column_views(tables[k].schema.columns@)
        == column_views(ts[k].schema.columns@) by {
        assert(tables_view(picked)[k] == tables_view(ts)[k]);
    }
}

/// Table records that hold the same have the same size.
proof fn lemma_size_from_views(x: Seq<TableFileMetadata>, ts: Seq<TableFileMetadata>)
    requires
        tables_view(x) == tables_view(ts),
    ensures
        catalog_size(x) == catalog_size(ts),
    decreases x.len(),
{
    assert(tables_view(x).len() == x.len());
    assert(tables_view(ts).len() == ts.len());
    if x.len() > 0 {
        assert(tables_view(x.drop_last()) =~= tables_view(ts.drop_last())) by {
            assert forall|k: int| 0 <= k < x.len() - 1 implies tables_view(x.drop_last())[k] == tables_view(ts.drop_last())[k] by {
                assert(tables_view(x)[k] == tables_view(ts)[k]);
            }
        }
        lemma_size_from_views(x.drop_last(), ts.drop_last());
        assert(tables_view(x)[x.len() - 1] == tables_view(ts)[x.len() - 1]);
        assert(index_views(x.last().secondary_indexes@).len() == x.last().secondary_indexes@.len());
        assert(index_views(ts.last().secondary_indexes@).len() == ts.last().secondary_indexes@.len());
    }
}

/// Equal table records have equal names.
proof fn lemma_names_from_views(x: Seq<TableFileMetadata>, ts: Seq<TableFileMetadata>)
    requires
        tables_view(x) == tables_view(ts),
    ensures
        x.len() == ts.len(),
        forall|k: int| 0 <= k < x.len() ==> #[trigger] x[k].name@ == ts[k].name@,
{
    assert(tables_view(x).len() == x.len());
    assert forall|k: int| 0 <= k < x.len() implies #[trigger] x[k].name@ == ts[k].name@ by {
        assert(tables_view(x)[k] == tables_view(ts)[k]);
    }
}

/// Reads both catalog files of a directory and picks the catalog to load,
/// returning it with the two files' contents.
fn load_catalog(dir: &Directory) -> (r: (Catalog, Option<Vec<u8>>, Option<Vec<u8>>))
    ensures
        r.0.wf(),
        dir.files@.len() == 0 ==> r.0.tables@.len() == 0,
        forall|ts: Seq<TableFileMetadata>|
            catalog_fits(ts) && names_unique(ts) && file_named(dir.files@, "catalog_0.db"@) == Some(#[trigger] enc_catalog(ts))
                && catalog_unreadable(file_named(dir.files@, "catalog_1.db"@)) ==> (tables_view(r.0.tables@)
                == tables_view(ts) && r.0.active_segment == 0),
        forall|ts: Seq<TableFileMetadata>|
            catalog_fits(ts) && names_unique(ts) && file_named(dir.files@, "catalog_1.db"@) == Some(#[trigger] enc_catalog(ts))
                && catalog_unreadable(file_named(dir.files@, "catalog_0.db"@)) ==> (tables_view(r.0.tables@)
                == tables_view(ts) && r.0.active_segment == 1),
        forall|ts0: Seq<TableFileMetadata>, ts1: Seq<TableFileMetadata>|
            #![trigger enc_catalog(ts0), enc_catalog(ts1)]
            catalog_fits(ts0) && names_unique(ts0) && catalog_fits(ts1) && names_unique(ts1) && file_named(
                dir.files@,
                "catalog_0.db"@,
            ) == Some(enc_catalog(ts0)) && file_named(dir.files@, "catalog_1.db"@) == Some(enc_catalog(ts1)) ==> (
            if catalog_size(ts1) > catalog_size(ts0) && catalog_size(ts0) < u64::MAX {
                tables_view(r.0.tables@) == tables_view(ts1) && r.0.active_segment == 1
            } else {
                tables_view(r.0.tables@) == tables_view(ts0) && r.0.active_segment == 0
            }),
{
    let catalog_0 = dir.get("catalog_0.db");
    let catalog_1 = dir.get("catalog_1.db");
    let first = read_catalog_file(&catalog_0);
    let second = read_catalog_file(&catalog_1);
    let ghost g0 = first;
    let ghost g1 = second;
    let picked = pick_catalog(first, second);
    proof {
        assert forall|ts0: Seq<TableFileMetadata>, ts1: Seq<TableFileMetadata>|
            #![trigger enc_catalog(ts0), enc_catalog(ts1)]
            catalog_fits(ts0) && names_unique(ts0) && catalog_fits(ts1) && names_unique(ts1) && file_named(
                dir.files@,
                "catalog_0.db"@,
            ) == Some(enc_catalog(ts0)) && file_named(dir.files@, "catalog_1.db"@) == Some(enc_catalog(ts1)) implies (
            if catalog_size(ts1) > catalog_size(ts0) && catalog_size(ts0) < u64::MAX {
                tables_view(picked.tables@) == tables_view(ts1) && picked.active_segment == 1
            } else {
                tables_view(picked.tables@) == tables_view(ts0) && picked.active_segment == 0
            }) by {
            lemma_size_from_views(g0->Ok_0.tables@, ts0);
            lemma_size_from_views(g1->Ok_0.tables@, ts1);
        }
        if dir.files@.len() == 0 {
            assert(file_named(dir.files@, "catalog_0.db"@) is None);
            assert(file_named(dir.files@, "catalog_1.db"@) is None);
        }
    }
    (picked, catalog_0, catalog_1)
}

/// A copy of some bytes.
fn copy_bytes(v: &Vec<u8>) -> (r: Vec<u8>)
    ensures
        r@ == v@,
{
    let mut out: Vec<u8> = Vec::new();
    let mut i: usize = 0;
    while i < v.len()
        invariant
            i <= v@.len(),
            out@ == v@.take(i as int),
        decreases v@.len() - i,
    {
        out.push(v[i]);
        i = i + 1;
        assert(out@ =~= v@.take(i as int));
    }
    assert(v@.take(i as int) =~= v@);
    out
}

impl Directory {
    /// A copy of the contents of the first file named `name`.
    pub fn get(&self, name: &str) -> (r: Option<Vec<u8>>)
        ensures
            match r {
                Some(v) => file_named(self.files@, name@) == Some(v@),
                None => file_named(self.files@, name@) is None,
            },
    {
        match self.position(name) {
            Some(i) => {
                proof {
                    let f = self.files@;
                    let k = choose|k: int|
                        0 <= k < f.len() && f[k].name@ == name@ && forall|j: int| 0 <= j < k ==> f[j].name@ != name@;
                    if k < i {
                    } else if i < k {
                        assert(f[i as int].name@ == name@);
                    }
                }
                Some(copy_bytes(&self.files[i].bytes))
            },
            None => None,
        }
    }

    /// A directory with no files.
    pub fn new() -> (r: Self)
        ensures
            r.files@.len() == 0,
    {
        Directory { files: Vec::new() }
    }

    fn position(&self, name: &str) -> (r: Option<usize>)
        ensures
            match r {
                Some(i) => i < self.files@.len() && self.files@[i as int].name@ == name@ && forall|j: int|
                    0 <= j < i ==> self.files@[j].name@ != name@,
                None => forall|i: int| 0 <= i < self.files@.len() ==> self.files@[i].name@ != name@,
            },
    {
        let target = name.to_owned();
        let mut i: usize = 0;
        while i < self.files.len()
            invariant
                i <= self.files@.len(),
                target@ == name@,
                forall|k: int| 0 <= k < i ==> self.files@[k].name@ != name@,
            decreases self.files@.len() - i,
        {
            if self.files[i].name == target {
                return Some(i);
            }
            i = i + 1;
        }
        None
    }

    /// Takes a file's contents out of the directory.
    pub fn take(&mut self, name: &str) -> (r: Option<Vec<u8>>)
        ensures
            r is None ==> final(self).files@ == old(self).files@,
            old(self).files@.len() == 0 ==> r is None,
    {
        match self.position(name) {
            Some(i) => {
                let e = self.files.remove(i);
                Some(e.bytes)
            },
            None => None,
        }
    }

    /// Puts a file in the directory, replacing one of the same name.
    pub fn put(&mut self, name: String, bytes: Vec<u8>)
        ensures
            exists|i: int| 0 <= i < final(self).files@.len() && final(self).files@[i].name@ == name@,
            file_named(final(self).files@, name@) == Some(bytes@),
            forall|n: Seq<char>| n != name@ ==> #[trigger] file_named(final(self).files@, n) == file_named(
                old(self).files@,
                n,
            ),
    {
        let ghost n = name@;
        let ghost b = bytes@;
        match self.position(name.as_str()) {
            Some(i) => {
                self.files.set(i, FileEntry { name, bytes });
                assert(self.files@[i as int].name@ == n);
                proof {
                    lemma_file_named_at(self.files@, n, i as int);
                    assert forall|m: Seq<char>| m != n implies #[trigger] file_named(self.files@, m) == file_named(
                        old(self).files@,
                        m,
                    ) by {
                        lemma_file_named_same(old(self).files@, self.files@, m);
                    }
                }
            },
            None => {
                self.files.push(FileEntry { name, bytes });
                assert(self.files@[self.files@.len() - 1].name@ == n);
                proof {
                    lemma_file_named_at(self.files@, n, self.files@.len() - 1);
                    assert forall|m: Seq<char>| m != n implies #[trigger] file_named(self.files@, m) == file_named(
                        old(self).files@,
                        m,
                    ) by {
                        lemma_file_named_same(old(self).files@, self.files@, m);
                    }
                }
            },
        }
    }
}

/// An open index of a table.
pub struct IndexMetadata {
    pub name: String,
    /// The indexed column.
    pub column: String,
    pub index_type: String,
    pub index: Index,
    pub file: IndexFile,
}

/// An open table.
pub struct TableMetadata {
    pub name: String,
    pub file_path: String,
    pub schema: Schema,
    pub primary_index: Option<IndexMetadata>,
    pub secondary_indexes: Vec<IndexMetadata>,
    pub file: TableFile,
}

/// Position `i` holds the first index of `idx` on column `c`.
pub open spec fn first_index_on(idx: Seq<IndexMetadata>, c: Seq<char>, i: int) -> bool {
    0 <= i < idx.len() && idx[i].column@ == c && forall|k: int| 0 <= k < i ==> #[trigger] idx[k].column@ != c
}

/// What a lookup of `key` in an open index must give: for a B+-tree whose
/// root is a sorted leaf, or whose root names a sorted leaf for the key, the
/// pointer stored there under the key; for a hash index, nothing when the
/// key's bucket has no page, else what its bucket chain holds for the key.
pub open spec fn primary_lookup(ix: IndexMetadata, key: u64, r: Result<Option<TuplePointer>, StorageError>) -> bool {
    &&& ix.index matches Index::BTree(b) ==> (root_leaf(b, ix.file.disk@) matches Some(v) ==> (keys_sorted(v.entries)
        ==> r == Ok::<Option<TuplePointer>, StorageError>(lookup(v.entries, key))))
    &&& ix.index matches Index::BTree(b) ==> (leaf_under_root(b, ix.file.disk@, key) matches Some((_, v)) ==> (
    keys_sorted(v.entries) ==> r == Ok::<Option<TuplePointer>, StorageError>(lookup(v.entries, key))))
    &&& ix.index matches Index::Hash(h) ==> (!h.bucket_pages@.contains_key(bucket_of(h.seed, key)) ==> r == Ok::<
        Option<TuplePointer>,
        StorageError,
    >(None))
    &&& ix.index matches Index::Hash(h) ==> (h.bucket_pages@.contains_key(bucket_of(h.seed, key)) ==> (r is Ok ==> r
        == Ok::<Option<TuplePointer>, StorageError>(
        chain_lookup(ix.file.disk@, h.bucket_pages@[bucket_of(h.seed, key)].0 as int, key, MAX_CHAIN as nat),
    )))
}

/// The pointers of key and pointer pairs.
pub open spec fn pointers_of(s: Seq<(u64, TuplePointer)>) -> Seq<TuplePointer> {
    s.map_values(|p: (u64, TuplePointer)| p.1)
}

/// What a range scan of an open primary index must give: for a B+-tree whose
/// root is a single leaf, the pointers of its entries in the range.
pub open spec fn primary_range(ix: IndexMetadata, lo: u64, hi: u64, r: Result<Vec<TuplePointer>, StorageError>) -> bool {
    ix.index matches Index::BTree(b) ==> (root_leaf(b, ix.file.disk@) matches Some(v) ==> (v.next_page_id == 0 ==> (
    r matches Ok(s) && s@ == pointers_of(entries_in_range(v.entries, lo, hi)))))
}

/// Position `i` holds the primary key column: the first marked one, else
/// the first column.
pub open spec fn is_pk_position(cols: Seq<Column>, i: int) -> bool {
    0 <= i < cols.len() && ((cols[i].is_primary_key && forall|j: int| 0 <= j < i ==> !(#[trigger] cols[j]).is_primary_key)
        || (i == 0 && forall|j: int| 0 <= j < cols.len() ==> !(#[trigger] cols[j]).is_primary_key))
}

/// The primary key column has one position.
proof fn lemma_pk_position_unique(cols: Seq<Column>, i: int)
    requires
        is_pk_position(cols, i),
    ensures
        forall|k: int| #[trigger] is_pk_position(cols, k) ==> k == i,
{
    assert forall|k: int| #[trigger] is_pk_position(cols, k) implies k == i by {
        if k < i {
            if cols[k].is_primary_key {
            } else {
                assert(!cols[i].is_primary_key || i == 0);
            }
        } else if i < k {
            if cols[i].is_primary_key {
            } else {
                assert(!cols[k].is_primary_key || k == 0);
            }
        }
    }
}

/// How an insert of `key` with pointer `p` leaves an index: a hash index's
/// bucket chain then holds `p` for the key; a B+-tree whose root is a sorted
/// leaf with room stores the key and `p` there.
pub open spec fn secondary_got(a: IndexMetadata, b: IndexMetadata, key: u64, p: TuplePointer) -> bool {
    match a.index {
        Index::Hash(h) => b.index matches Index::Hash(g) && g.seed == h.seed && g.bucket_pages@.contains_key(
            bucket_of(h.seed, key),
        ) && chain_lookup(b.file.disk@, g.bucket_pages@[bucket_of(h.seed, key)].0 as int, key, MAX_CHAIN as nat)
            == Some(p),
        Index::BTree(t) => match root_leaf(t, a.file.disk@) {
            Some(v) => keys_sorted(v.entries) && v.entries.len() < MAX_ENTRIES ==> page_at(
                b.file.disk@,
                t.root_page_id.unwrap().0 as int,
            ) == Some(IndexPageView { entries: upsert(v.entries, IndexEntry::new_spec(key, p)), ..v }),
            None => true,
        },
    }
}

/// Whether `key` is the key of the column of `row` that index `ix` of table
/// `t` is on.
pub open spec fn row_key_for(t: TableMetadata, row: Row, ix: IndexMetadata, key: u64) -> bool {
    exists|c: int|
        0 <= c < row.values@.len() && c < t.schema.columns@.len() && key_of(#[trigger] row.values@[c]@) == Some(key)
            && eq_ignore_ascii_case(encode_utf8(t.schema.columns@[c].name@), encode_utf8(ix.column@))
}

/// How an insert of `row` at pointer `p` leaves the secondary indexes of
/// table `a`, giving table `b`: each has received the row's key for its
/// column, `keys` in order.
pub open spec fn secondaries_got(a: TableMetadata, b: TableMetadata, row: Row, p: TuplePointer, keys: Seq<u64>) -> bool {
    &&& b.secondary_indexes@.len() == a.secondary_indexes@.len()
    &&& keys.len() == a.secondary_indexes@.len()
    &&& forall|j: int|
        0 <= j < a.secondary_indexes@.len() ==> #[trigger] row_key_for(a, row, a.secondary_indexes@[j], keys[j])
            && secondary_got(a.secondary_indexes@[j], b.secondary_indexes@[j], keys[j], p)
}

/// Whether slot `p` of table `t`'s file holds the encoding of `row`.
pub open spec fn stored_row(t: TableMetadata, row: Row, p: TuplePointer) -> bool {
    &&& p.segment_id == 0
    &&& p.block_id < BLOCKS_PER_UNCOMPRESSED_SEGMENT
    &&& block_offset_of(0, p.block_id as int) + BLOCK_SIZE <= t.file.disk@.len()
    &&& tuple_of(block_image(t.file.disk@, p.block_id as int), p.slot_id as int) == Some(enc_row(row@))
}

/// How an insert of `row` into table `a`, giving table `b`, leaves a B+-tree
/// primary index whose root is a sorted leaf with room: the row's primary key
/// is stored there, with the pointer `p`.
pub open spec fn primary_grew(a: TableMetadata, b: TableMetadata, row: Row, p: TuplePointer) -> bool {
    match (a.primary_index, b.primary_index) {
        (Some(pa), Some(pb)) => match pa.index {
            Index::BTree(t) => match root_leaf(t, pa.file.disk@) {
                Some(v) => keys_sorted(v.entries) && v.entries.len() < MAX_ENTRIES ==> exists|k: int|
                    #![trigger is_pk_position(a.schema.columns@, k)]
                    is_pk_position(a.schema.columns@, k) && key_of(row.values@[k]@) is Some && page_at(
                        pb.file.disk@,
                        t.root_page_id.unwrap().0 as int,
                    ) == Some(
                        IndexPageView {
                            entries: upsert(v.entries, IndexEntry::new_spec(key_of(row.values@[k]@)->Some_0, p)),
                            ..v
                        },
                    ),
                None => true,
            },
            _ => true,
        },
        (Some(_), None) => false,
        _ => true,
    }
}

/// The names of `ts`, in order.
pub open spec fn names_of(ts: Seq<TableMetadata>) -> Seq<Seq<char>> {
    ts.map_values(|t: TableMetadata| t.name@)
}

/// The number of records a catalog holds: its tables and their secondary
/// indexes. Each save adds one, so the newer of two saved catalogs holds more.
pub open spec fn catalog_size(ts: Seq<TableFileMetadata>) -> int
    decreases ts.len(),
{
    if ts.len() == 0 {
        0
    } else {
        catalog_size(ts.drop_last()) + 1 + ts.last().secondary_indexes@.len()
    }
}

/// `catalog_size`, or `u64::MAX` where it is larger.
pub fn catalog_size_of(c: &Catalog) -> (r: u64)
    ensures
        r == if catalog_size(c.tables@) <= u64::MAX { catalog_size(c.tables@) } else { u64::MAX as int },
{
    let mut acc: u64 = 0;
    let mut big = false;
    let mut i: usize = 0;
    while i < c.tables.len()
        invariant
            i <= c.tables@.len(),
            big ==> acc == u64::MAX && catalog_size(c.tables@.take(i as int)) > u64::MAX,
            !big ==> acc == catalog_size(c.tables@.take(i as int)),
        decreases c.tables@.len() - i,
    {
        proof {
            assert(c.tables@.take(i + 1).drop_last() =~= c.tables@.take(i as int));
            lemma_catalog_size_nonneg(c.tables@.take(i as int));
        }
        let add = c.tables[i].secondary_indexes.len();
        if !big {
            if add as u128 + 1 > (u64::MAX - acc) as u128 {
                big = true;
                acc = u64::MAX;
            } else {
                acc = acc + 1 + add as u64;
            }
        }
        i = i + 1;
    }
    assert(c.tables@.take(i as int) =~= c.tables@);
    acc
}

proof fn lemma_catalog_size_nonneg(ts: Seq<TableFileMetadata>)
    ensures
        catalog_size(ts) >= 0,
    decreases ts.len(),
{
    if ts.len() > 0 {
        lemma_catalog_size_nonneg(ts.drop_last());
    }
}

/// Picks the catalog to load from what the two catalog files gave. A file
/// that fails to read or check is passed over for the other; where both
/// read, the one that holds more records is the newer and is taken. The
/// file the catalog came from becomes the current one.
pub fn pick_catalog(first: Result<Catalog, StorageError>, second: Result<Catalog, StorageError>) -> (r: Catalog)
    ensures
        r.active_segment <= 1,
        match (first, second) {
            (Ok(a), Ok(b)) => if catalog_size(b.tables@) > catalog_size(a.tables@) && catalog_size(a.tables@) < u64::MAX {
                r.tables@ == b.tables@ && r.active_segment == 1
            } else {
                r.tables@ == a.tables@ && r.active_segment == 0
            },
            (Ok(a), Err(_)) => r.tables@ == a.tables@ && r.active_segment == 0,
            (Err(_), Ok(b)) => r.tables@ == b.tables@ && r.active_segment == 1,
            (Err(_), Err(_)) => r.tables@.len() == 0 && r.active_segment == 0,
        },
{
    match (first, second) {
        (Ok(a), Ok(b)) => {
            let sa = catalog_size_of(&a);
            let sb = catalog_size_of(&b);
            if sb > sa {
                Catalog { active_segment: 1, tables: b.tables }
            } else {
                Catalog { active_segment: 0, tables: a.tables }
            }
        },
        (Ok(a), Err(_)) => Catalog { active_segment: 0, tables: a.tables },
        (Err(_), Ok(b)) => Catalog { active_segment: 1, tables: b.tables },
        (Err(_), Err(_)) => Catalog::new(),
    }
}

/// Reads a catalog file, if there is one.
fn read_catalog_file(bytes: &Option<Vec<u8>>) -> (r: Result<Catalog, StorageError>)
    ensures
        r matches Ok(c) ==> c.wf(),
        catalog_unreadable(opt_view(bytes)) ==> r is Err,
        forall|ts: Seq<TableFileMetadata>|
            catalog_fits(ts) && names_unique(ts) && opt_view(bytes) == Some(#[trigger] enc_catalog(ts)) ==> (r matches Ok(c)
                && tables_view(c.tables@) == tables_view(ts)),
{
    match bytes {
        Some(b) => Catalog::deserialize(b.as_slice()),
        None => Err(StorageError::NotFound),
    }
}

/// The name of a table's data file.
fn table_file_name(name: &str) -> (r: String)
    ensures
        r@ == "table_"@ + name@ + ".tbl"@,
{
    let mut s = String::from_str("table_");
    s.append(name);
    s.append(".tbl");
    s
}

/// The name of a table's primary index file.
fn primary_index_file_name(name: &str) -> (r: String)
    ensures
        r@ == "index_"@ + name@ + "_pk.idx"@,
{
    let mut s = String::from_str("index_");
    s.append(name);
    s.append("_pk.idx");
    s
}

/// The name of a secondary index file.
fn secondary_index_file_name(table: &str, column: &str, index: &str) -> (r: String)
    ensures
        r@ == "index_"@ + table@ + "_"@ + column@ + "_"@ + index@ + ".idx"@,
{
    let mut s = String::from_str("index_");
    s.append(table);
    s.append("_");
    s.append(column);
    s.append("_");
    s.append(index);
    s.append(".idx");
    s
}

/// The position of the primary key column: the first marked one, else the first.
fn primary_key_position(schema: &Schema) -> (r: Option<usize>)
    ensures
        match r {
            Some(i) => is_pk_position(schema.columns@, i as int),
            None => schema.columns@.len() == 0,
        },
{
    let mut i: usize = 0;
    while i < schema.columns.len()
        invariant
            i <= schema.columns@.len(),
            forall|j: int| 0 <= j < i ==> !(#[trigger] schema.columns@[j]).is_primary_key,
        decreases schema.columns@.len() - i,
    {
        if schema.columns[i].is_primary_key {
            return Some(i);
        }
        i = i + 1;
    }
    if schema.columns.len() > 0 {
        Some(0)
    } else {
        None
    }
}

/// Allocates the root page of a fresh index file and writes an empty leaf there.
fn new_index_root(file: &mut IndexFile) -> (r: Result<PageId, StorageError>)
    ensures
        final(file).path == old(file).path,
        old(file).next_page_id < 65536 && page_offset_of(old(file).next_page_id as int) + 4096 <= usize::MAX ==> r is Ok,
        r matches Ok(p) ==> p.0 == old(file).next_page_id && page_at(final(file).disk@, p.0 as int) == Some(
            IndexPageView { is_leaf: true, prev_page_id: 0, next_page_id: 0, entries: Seq::empty() },
        ),
{
    let root = match file.allocate_page() {
        Ok(p) => p,
        Err(e) => return Err(e),
    };
    let page = IndexPage::new(true);
    let bytes = page.to_bytes();
    match file.write_page(root, bytes.as_slice()) {
        Ok(()) => {
            proof {
                let o = page_offset_of(root.0 as int);
                assert(file.disk@.subrange(o, o + 4096) =~= bytes@);
            }
            Ok(root)
        },
        Err(e) => Err(e),
    }
}

/// A table as `create_table` leaves it: the given columns, a fresh segment
/// 0, and a B+-tree primary index whose root is an empty leaf.
pub open spec fn fresh_table(t: TableMetadata, cols: Seq<ColumnView>) -> bool {
    &&& column_views(t.schema.columns@) == cols
    &&& segment_header_in(t.file.disk@, 0) == Some(SegmentHeader::new_spec(0))
    &&& match t.primary_index {
        Some(pk) => match pk.index {
            Index::BTree(b) => root_leaf(b, pk.file.disk@) == Some(
                IndexPageView { is_leaf: true, prev_page_id: 0, next_page_id: 0, entries: Seq::empty() },
            ),
            _ => false,
        },
        None => false,
    }
}

/// Whether the catalog record of a new table named `name` with columns
/// `cols` can be stored.
pub open spec fn record_fits(name: Seq<char>, cols: Seq<ColumnView>) -> bool {
    &&& str_fits(name)
    &&& str_fits("table_"@ + name + ".tbl"@)
    &&& str_fits("index_"@ + name + "_pk.idx"@)
    &&& columns_fit(cols)
}

/// A literal of ASCII characters fits a stored string.
proof fn lemma_literal_fits(s: &str)
    requires
        vstd::string::is_ascii(s),
        s@.len() <= 64,
    ensures
        str_fits(s@),
{
    vstd::string::is_ascii_spec_bytes(s);
}

/// The image of block `b` of segment 0 in the table file contents `f`.
pub open spec fn block_image(f: Seq<u8>, b: int) -> Seq<u8> {
    f.subrange(block_offset_of(0, b), block_offset_of(0, b) + BLOCK_SIZE)
}

/// The bytes of the live tuples in slots `0..n` of the block image `d`.
pub open spec fn block_tuples(d: Seq<u8>, n: int) -> Seq<Seq<u8>>
    decreases n,
{
    if n <= 0 {
        Seq::empty()
    } else {
        block_tuples(d, n - 1) + match tuple_of(d, n - 1) {
            Some(t) => seq![t],
            None => Seq::empty(),
        }
    }
}

/// The bytes of the live tuples of the blocks `0..n` of segment 0 that the
/// bitmap shows in use, in block and slot order.
pub open spec fn segment_tuples(f: Seq<u8>, bitmap: u32, n: int) -> Seq<Seq<u8>>
    decreases n,
{
    if n <= 0 {
        Seq::empty()
    } else {
        segment_tuples(f, bitmap, n - 1) + if !bit_set(bitmap, n - 1) {
            block_tuples(block_image(f, n - 1), slot_count_of(block_image(f, n - 1)))
        } else {
            Seq::empty()
        }
    }
}

/// What a scan of the table file contents `f` must give: the decoded live
/// tuples of segment 0, in block and slot order, whenever it succeeds; and
/// success whenever the segment is readable.
pub open spec fn scan_result(f: Seq<u8>, r: Result<Vec<Row>, StorageError>) -> bool {
    match segment_header_in(f, 0) {
        Some(h) => {
            &&& segment_readable(f, h.block_free_bitmap) ==> r is Ok
            &&& r matches Ok(rows) ==> rows@.len() == segment_tuples(f, h.block_free_bitmap, 31).len() && forall|k: int|
                0 <= k < rows@.len() ==> decodes_to(#[trigger] segment_tuples(f, h.block_free_bitmap, 31)[k], rows@[k])
        },
        None => r is Err,
    }
}

/// Whether `row` is what the tuple bytes `t` decode to.
pub open spec fn decodes_to(t: Seq<u8>, row: Row) -> bool {
    forall|vs: Seq<ValueView>| row_fits(vs) && #[trigger] at(t, 0, enc_row(vs)) ==> row@ == decoded_all(vs)
}

/// Whether the tuple bytes `t` begin with an encoded row.
pub open spec fn encodes_a_row(t: Seq<u8>) -> bool {
    exists|vs: Seq<ValueView>| row_fits(vs) && #[trigger] at(t, 0, enc_row(vs))
}

/// Whether every block of segment 0 in use lies in the file with a valid
/// layout, and every live tuple holds an encoded row.
pub open spec fn segment_readable(f: Seq<u8>, bitmap: u32) -> bool {
    &&& forall|b: int|
        0 <= b < BLOCKS_PER_UNCOMPRESSED_SEGMENT && !bit_set(bitmap, b) ==> block_offset_of(0, b) + BLOCK_SIZE
            <= f.len() && block_wf(#[trigger] block_image(f, b))
    &&& forall|k: int|
        0 <= k < segment_tuples(f, bitmap, BLOCKS_PER_UNCOMPRESSED_SEGMENT as int).len() ==> encodes_a_row(
            #[trigger] segment_tuples(f, bitmap, BLOCKS_PER_UNCOMPRESSED_SEGMENT as int)[k],
        )
}

proof fn lemma_block_tuples_prefix(d: Seq<u8>, n: int, m: int)
    requires
        0 <= n <= m,
    ensures
        block_tuples(d, n).len() <= block_tuples(d, m).len(),
        block_tuples(d, m).subrange(0, block_tuples(d, n).len() as int) == block_tuples(d, n),
    decreases m,
{
    if n < m {
        lemma_block_tuples_prefix(d, n, m - 1);
        assert(block_tuples(d, m).subrange(0, block_tuples(d, n).len() as int) =~= block_tuples(d, m - 1).subrange(
            0,
            block_tuples(d, n).len() as int,
        ));
    } else {
        assert(block_tuples(d, m).subrange(0, block_tuples(d, n).len() as int) =~= block_tuples(d, n));
    }
}

proof fn lemma_segment_tuples_prefix(f: Seq<u8>, bm: u32, n: int, m: int)
    requires
        0 <= n <= m,
    ensures
        segment_tuples(f, bm, n).len() <= segment_tuples(f, bm, m).len(),
        segment_tuples(f, bm, m).subrange(0, segment_tuples(f, bm, n).len() as int) == segment_tuples(f, bm, n),
    decreases m,
{
    if n < m {
        lemma_segment_tuples_prefix(f, bm, n, m - 1);
        assert(segment_tuples(f, bm, m).subrange(0, segment_tuples(f, bm, n).len() as int) =~= segment_tuples(
            f,
            bm,
            m - 1,
        ).subrange(0, segment_tuples(f, bm, n).len() as int));
    } else {
        assert(segment_tuples(f, bm, m).subrange(0, segment_tuples(f, bm, n).len() as int) =~= segment_tuples(f, bm, n));
    }
}

/// Every live row of segment 0 of a table file, with its address, in block
/// and slot order.
#[verifier::spinoff_prover]
#[verifier::rlimit(100)]
fn scan_rows(file: &TableFile) -> (r: Result<(Vec<TuplePointer>, Vec<Row>), StorageError>)
    ensures
        r matches Ok((ps, rows)) ==> (segment_header_in(file.disk@, 0) matches Some(h) && ps@.len() == rows@.len()
            && rows@.len() == segment_tuples(file.disk@, h.block_free_bitmap, 31).len() && forall|k: int|
            0 <= k < rows@.len() ==> decodes_to(
                #[trigger] segment_tuples(file.disk@, h.block_free_bitmap, 31)[k],
                rows@[k],
            )),
        segment_header_in(file.disk@, 0) matches Some(h) ==> (segment_readable(file.disk@, h.block_free_bitmap)
            ==> r is Ok),
{
    let header = match file.read_segment_header(0) {
        Ok(h) => h,
        Err(e) => return Err(e),
    };
    let ghost f = file.disk@;
    let ghost bm = header.block_free_bitmap;
    let mut ptrs: Vec<TuplePointer> = Vec::new();
    let mut rows: Vec<Row> = Vec::new();
    let mut block_id: u8 = 0;
    while (block_id as usize) < BLOCKS_PER_UNCOMPRESSED_SEGMENT
        invariant
            f == file.disk@,
            segment_header_in(f, 0) == Some(header),
            bm == header.block_free_bitmap,
            block_id <= 31,
            ptrs@.len() == rows@.len(),
            rows@.len() == segment_tuples(f, bm, block_id as int).len(),
            forall|k: int| 0 <= k < rows@.len() ==> decodes_to(#[trigger] segment_tuples(f, bm, block_id as int)[k], rows@[k]),
        decreases BLOCKS_PER_UNCOMPRESSED_SEGMENT - block_id as usize,
    {
        let ghost seg = segment_tuples(f, bm, block_id as int);
        if !header.is_block_free(block_id) {
            proof {
                if segment_readable(f, bm) {
                    assert(block_wf(block_image(f, block_id as int)));
                    assert(block_offset_of(0, block_id as int) + BLOCK_SIZE <= f.len());
                }
            }
            let block = match file.read_block(0, block_id) {
                Ok(b) => b,
                Err(e) => return Err(e),
            };
            let ghost d = block.data@;
            assert(d == block_image(f, block_id as int));
            let slot_count = block.header().slot_count;
            let mut slot: u16 = 0;
            while slot < slot_count
                invariant
                    block.wf(),
                    d == block.data@,
                    d == block_image(f, block_id as int),
                    slot_count as int == slot_count_of(d),
                    slot <= slot_count,
                    f == file.disk@,
                    segment_header_in(f, 0) == Some(header),
                    bm == header.block_free_bitmap,
                    block_id < 31,
                    !bit_set(bm, block_id as int),
                    seg == segment_tuples(f, bm, block_id as int),
                    ptrs@.len() == rows@.len(),
                    rows@.len() == seg.len() + block_tuples(d, slot as int).len(),
                    forall|k: int|
                        0 <= k < rows@.len() ==> decodes_to(#[trigger] (seg + block_tuples(d, slot as int))[k], rows@[k]),
                decreases slot_count - slot,
            {
                let ghost old_rows = rows@;
                if let Some(bytes) = block.read_tuple(slot) {
                    let ghost t = bytes@;
                    proof {
                        assert(seg + block_tuples(d, slot + 1) =~= (seg + block_tuples(d, slot as int)).push(t));
                        if segment_readable(f, bm) {
                            lemma_block_tuples_prefix(d, slot + 1, slot_count as int);
                            lemma_segment_tuples_prefix(f, bm, block_id + 1, 31);
                            let all = segment_tuples(f, bm, 31);
                            let next = segment_tuples(f, bm, block_id + 1);
                            assert(next == seg + block_tuples(d, slot_count as int));
                            let idx = (seg.len() + block_tuples(d, slot as int).len()) as int;
                            assert(block_tuples(d, slot_count as int).subrange(0, block_tuples(d, slot + 1).len() as int)[idx - seg.len()] == t);
                            assert(next[idx] == t);
                            assert(all.subrange(0, next.len() as int)[idx] == t);
                            assert(all[idx] == t);
                            assert(encodes_a_row(all[idx]));
                        }
                    }
                    let row = match decode_row(bytes.as_slice()) {
                        Ok(r) => r,
                        Err(e) => return Err(e),
                    };
                    ptrs.push(TuplePointer::new(0, block_id, slot));
                    rows.push(row);
                    proof {
                        assert forall|k: int| 0 <= k < rows@.len() implies decodes_to(
                            #[trigger] (seg + block_tuples(d, slot + 1))[k],
                            rows@[k],
                        ) by {
                            if k < old_rows.len() {
                                assert((seg + block_tuples(d, slot + 1))[k] == (seg + block_tuples(d, slot as int))[k]);
                            }
                        }
                    }
                } else {
                    proof {
                        assert(seg + block_tuples(d, slot + 1) =~= seg + block_tuples(d, slot as int));
                    }
                }
                slot = slot + 1;
            }
            proof {
                assert(segment_tuples(f, bm, block_id + 1) == seg + block_tuples(d, slot_count as int));
            }
        } else {
            proof {
                assert(segment_tuples(f, bm, block_id + 1) =~= seg);
            }
        }
        block_id = block_id + 1;
    }
    Ok((ptrs, rows))
}

/// Appends an encoded row to segment 0 of a table file: into the last block
/// in use when it has room, else into a newly allocated block.
fn place_row(file: &mut TableFile, bytes: &[u8]) -> (r: Result<TuplePointer, StorageError>)
    ensures
        final(file).path == old(file).path,
        r matches Ok(p) ==> {
            &&& p.segment_id == 0
            &&& p.block_id < BLOCKS_PER_UNCOMPRESSED_SEGMENT
            &&& block_offset_of(0, p.block_id as int) + BLOCK_SIZE <= final(file).disk@.len()
            &&& bytes@.len() > 0 ==> tuple_of(block_image(final(file).disk@, p.block_id as int), p.slot_id as int)
                == Some(bytes@)
        },
{
    let header = match file.read_segment_header(0) {
        Ok(h) => h,
        Err(e) => return Err(e),
    };
    let mut last: u8 = BLOCKS_PER_UNCOMPRESSED_SEGMENT as u8;
    let mut b: u8 = 1;
    while (b as usize) < BLOCKS_PER_UNCOMPRESSED_SEGMENT
        decreases BLOCKS_PER_UNCOMPRESSED_SEGMENT - b as usize,
    {
        if !header.is_block_free(b) {
            last = b;
        }
        b = b + 1;
    }
    if (last as usize) < BLOCKS_PER_UNCOMPRESSED_SEGMENT {
        let mut block = match file.read_block(0, last) {
            Ok(bl) => bl,
            Err(e) => return Err(e),
        };
        let ghost d0 = block.data@;
        if let Some(slot) = block.append_tuple(bytes) {
            proof {
                lemma_append_image(d0, bytes@);
            }
            let ghost before_write = file.disk@;
            return match file.write_block(0, last, &block) {
                Ok(()) => {
                    proof {
                        lemma_file_write_read(before_write, block_offset_of(0, last as int), block.data@);
                    }
                    Ok(TuplePointer::new(0, last, slot))
                },
                Err(e) => Err(e),
            };
        }
    }
    let block_id = match file.allocate_block(0) {
        Ok(Some(b)) => b,
        Ok(None) => return Err(StorageError::Invalid("segment full")),
        Err(e) => return Err(e),
    };
    let mut block = Block::new();
    let ghost d0 = block.data@;
    let slot = match block.append_tuple(bytes) {
        Some(s) => s,
        None => return Err(StorageError::Invalid("row too large for a block")),
    };
    proof {
        lemma_append_image(d0, bytes@);
    }
    let ghost before_write = file.disk@;
    match file.write_block(0, block_id, &block) {
        Ok(()) => {
            proof {
                lemma_file_write_read(before_write, block_offset_of(0, block_id as int), block.data@);
            }
            Ok(TuplePointer::new(0, block_id, slot))
        },
        Err(e) => Err(e),
    }
}

/// The index key of column `col` of `row`.
fn key_of_column(row: &Row, col: usize) -> (r: Result<u64, StorageError>)
    ensures
        r matches Ok(k) ==> col < row.values@.len() && key_of(row.values@[col as int]@) == Some(k),
        col < row.values@.len() ==> (r is Ok <==> key_of(row.values@[col as int]@) is Some),
{
    match row.get(col) {
        Some(v) => v.key(),
        None => Err(StorageError::Invalid("row has no such column")),
    }
}

/// The database.
pub struct Database {
    pub tables: Vec<TableMetadata>,
    pub catalog: Catalog,
    /// The two catalog files, where they exist.
    pub catalog_0: Option<Vec<u8>>,
    pub catalog_1: Option<Vec<u8>>,
    pub index_builder_registry: IndexBuilderRegistry,
}

impl Database {
    /// Tables have distinct names, and the catalog lists the same tables in
    /// the same order.
    pub open spec fn wf(&self) -> bool {
        &&& self.catalog.wf()
        &&& self.catalog.tables@.len() == self.tables@.len()
        &&& forall|i: int| 0 <= i < self.tables@.len() ==> #[trigger] self.catalog.tables@[i].name@ == self.tables@[i].name@
        &&& registered(self.index_builder_registry.builders@, "btree"@) == Some(IndexBuilder::BTree(BTreeBuilder))
    }

    /// The names of the open tables.
    pub open spec fn names(&self) -> Seq<Seq<char>> {
        names_of(self.tables@)
    }

    /// The open table named `name`, if any.
    pub open spec fn table(&self, name: Seq<char>) -> Option<TableMetadata> {
        if exists|i: int| 0 <= i < self.tables@.len() && self.tables@[i].name@ == name {
            Some(self.tables@[choose|i: int| 0 <= i < self.tables@.len() && self.tables@[i].name@ == name])
        } else {
            None
        }
    }

    /// The contents of the current catalog file, if it exists.
    pub open spec fn current_catalog_file(&self) -> Option<Seq<u8>> {
        if self.catalog.active_segment == 0 {
            opt_view(&self.catalog_0)
        } else {
            opt_view(&self.catalog_1)
        }
    }

    /// A database over an empty directory; the storage core takes no
    /// setting from the configuration.
    pub fn new(config: &Config) -> (r: Self)
        ensures
            r.wf(),
            r.tables@.len() == 0,
    {
        let _ = config;
        Self::open(Directory::new())
    }

    /// Opens the database kept in `dir`: the newer readable catalog file
    /// becomes the catalog and names the tables, whose files are taken from
    /// the directory. Secondary indexes are built again from their tables.
    #[verifier::spinoff_prover]
    #[verifier::rlimit(60)]
    pub fn open(dir: Directory) -> (r: Self)
        ensures
            r.wf(),
            r.catalog.active_segment <= 1,
            dir.files@.len() == 0 ==> r.tables@.len() == 0,
            forall|ts: Seq<TableFileMetadata>|
                catalog_fits(ts) && names_unique(ts) && file_named(dir.files@, "catalog_0.db"@) == Some(#[trigger] enc_catalog(ts))
                    && catalog_unreadable(file_named(dir.files@, "catalog_1.db"@)) ==> (opened_as(r.tables@, ts) && tables_view(r.catalog.tables@) == tables_view(ts)
                    && r.catalog.active_segment == 0),
            forall|ts: Seq<TableFileMetadata>|
                catalog_fits(ts) && names_unique(ts) && file_named(dir.files@, "catalog_1.db"@) == Some(#[trigger] enc_catalog(ts))
                    && catalog_unreadable(file_named(dir.files@, "catalog_0.db"@)) ==> (opened_as(r.tables@, ts) && tables_view(r.catalog.tables@) == tables_view(ts)
                    && r.catalog.active_segment == 1),
            forall|ts0: Seq<TableFileMetadata>, ts1: Seq<TableFileMetadata>|
            #![trigger enc_catalog(ts0), enc_catalog(ts1)]
            catalog_fits(ts0) && names_unique(ts0) && catalog_fits(ts1) && names_unique(ts1) && file_named(
                dir.files@,
                "catalog_0.db"@,
            ) == Some(enc_catalog(ts0)) && file_named(dir.files@, "catalog_1.db"@) == Some(enc_catalog(ts1)) ==> (
            if catalog_size(ts1) > catalog_size(ts0) && catalog_size(ts0) < u64::MAX {
                opened_as(r.tables@, ts1) && tables_view(r.catalog.tables@) == tables_view(ts1) && r.catalog.active_segment == 1
            } else {
                opened_as(r.tables@, ts0) && tables_view(r.catalog.tables@) == tables_view(ts0) && r.catalog.active_segment == 0
            }),
    {
        let ghost empty = dir.files@.len() == 0;
        let ghost files = dir.files@;
        let (picked, catalog_0, catalog_1) = load_catalog(&dir);
        let mut dir = dir;
        let mut index_builder_registry = IndexBuilderRegistry::new();
        register_builtin_indexes(&mut index_builder_registry);
        let mut tables: Vec<TableMetadata> = Vec::new();
        let mut i: usize = 0;
        while i < picked.tables.len()
            invariant
                i <= picked.tables@.len(),
                empty ==> picked.tables@.len() == 0,
                tables@.len() <= i,
                names_unique(picked.tables@),
                tables@.len() == i,
                forall|k: int| 0 <= k < i ==> #[trigger] tables@[k].name@ == picked.tables@[k].name@,
                forall|k: int|
                    0 <= k < i ==> #[trigger] column_views(tables@[k].schema.columns@) == column_views(
                        picked.tables@[k].schema.columns@,
                    ),
            decreases picked.tables@.len() - i,
        {
            let meta = &picked.tables[i];
            let table = open_table(meta, &mut dir, &index_builder_registry);
            tables.push(table);
            i = i + 1;
        }
        let catalog = picked;
        let r = Database { tables, catalog, catalog_0, catalog_1, index_builder_registry };
        proof {
            assert forall|ts: Seq<TableFileMetadata>| catalog_fits(ts) && names_unique(ts) && file_named(files, "catalog_0.db"@)
                == Some(#[trigger] enc_catalog(ts)) && catalog_unreadable(file_named(files, "catalog_1.db"@)) implies (
            opened_as(r.tables@, ts) && tables_view(r.catalog.tables@) == tables_view(ts) && r.catalog.active_segment == 0) by {
                lemma_open_names(r.tables@, picked.tables@, ts);
            }
            assert forall|ts: Seq<TableFileMetadata>| catalog_fits(ts) && names_unique(ts) && file_named(files, "catalog_1.db"@)
                == Some(#[trigger] enc_catalog(ts)) && catalog_unreadable(file_named(files, "catalog_0.db"@)) implies (
            opened_as(r.tables@, ts) && tables_view(r.catalog.tables@) == tables_view(ts) && r.catalog.active_segment == 1) by {
                lemma_open_names(r.tables@, picked.tables@, ts);
            }
            assert forall|ts0: Seq<TableFileMetadata>, ts1: Seq<TableFileMetadata>|
            #![trigger enc_catalog(ts0), enc_catalog(ts1)]
            catalog_fits(ts0) && names_unique(ts0) && catalog_fits(ts1) && names_unique(ts1) && file_named(
                files,
                "catalog_0.db"@,
            ) == Some(enc_catalog(ts0)) && file_named(files, "catalog_1.db"@) == Some(enc_catalog(ts1)) implies (
            if catalog_size(ts1) > catalog_size(ts0) && catalog_size(ts0) < u64::MAX {
                opened_as(r.tables@, ts1) && tables_view(r.catalog.tables@) == tables_view(ts1) && r.catalog.active_segment == 1
            } else {
                opened_as(r.tables@, ts0) && tables_view(r.catalog.tables@) == tables_view(ts0) && r.catalog.active_segment == 0
            }) by {
                if catalog_size(ts1) > catalog_size(ts0) && catalog_size(ts0) < u64::MAX {
                    lemma_open_names(r.tables@, picked.tables@, ts1);
                } else {
                    lemma_open_names(r.tables@, picked.tables@, ts0);
                }
            }
        }
        r
    }

    /// Every file of the database, catalog files included.
    pub fn into_directory(self) -> (r: Directory)
        ensures
            self.catalog_0 matches Some(b) ==> file_named(r.files@, "catalog_0.db"@) == Some(b@),
            self.catalog_1 matches Some(b) ==> file_named(r.files@, "catalog_1.db"@) == Some(b@),
    {
        let mut dir = Directory::new();
        let mut tables = self.tables;
        while tables.len() > 0
            decreases tables@.len(),
        {
            let t = tables.pop().unwrap();
            dir.put(t.file.path, t.file.disk.bytes);
            if let Some(p) = t.primary_index {
                dir.put(p.file.path, p.file.disk.bytes);
            }
            let mut sec = t.secondary_indexes;
            while sec.len() > 0
                decreases sec@.len(),
            {
                let s = sec.pop().unwrap();
                dir.put(s.file.path, s.file.disk.bytes);
            }
        }
        let name_0 = "catalog_0.db";
        let name_1 = "catalog_1.db";
        proof {
            reveal_strlit("catalog_0.db");
            reveal_strlit("catalog_1.db");
            assert(name_0@[8] != name_1@[8]);
        }
        if let Some(b) = self.catalog_0 {
            dir.put(String::from_str(name_0), b);
        }
        if let Some(b) = self.catalog_1 {
            dir.put(String::from_str(name_1), b);
        }
        dir
    }

    /// The position of the table named `name`.
    pub fn position(&self, name: &str) -> (r: Option<usize>)
        ensures
            match r {
                Some(i) => i < self.tables@.len() && self.tables@[i as int].name@ == name@,
                None => !self.names().contains(name@),
            },
    {
        let target = name.to_owned();
        let mut i: usize = 0;
        while i < self.tables.len()
            invariant
                i <= self.tables@.len(),
                target@ == name@,
                forall|k: int| 0 <= k < i ==> self.tables@[k].name@ != name@,
            decreases self.tables@.len() - i,
        {
            if self.tables[i].name == target {
                return Some(i);
            }
            i = i + 1;
        }
        proof {
            if self.names().contains(name@) {
                let k = choose|k: int| 0 <= k < self.names().len() && self.names()[k] == name@;
                assert(self.tables@[k].name@ == name@);
            }
        }
        None
    }

    /// Saves the catalog into the file that is not current, then makes that
    /// file current.
    fn save_catalog_to_disk(&mut self) -> (r: Result<(), StorageError>)
        requires
            old(self).wf(),
        ensures
            final(self).wf(),
            final(self).tables@ == old(self).tables@,
            final(self).catalog.tables@ == old(self).catalog.tables@,
            r is Ok ==> final(self).current_catalog_file() == Some(enc_catalog(final(self).catalog.tables@)),
            catalog_fits(old(self).catalog.tables@) ==> r is Ok,
    {
        let data = match self.catalog.serialize() {
            Ok(d) => d,
            Err(e) => return Err(e),
        };
        if self.catalog.inactive_segment() == 0 {
            self.catalog_0 = Some(data);
        } else {
            self.catalog_1 = Some(data);
        }
        self.catalog.flip_segment();
        Ok(())
    }

    /// Creates a table with its file, segment 0, and a B+-tree primary index
    /// over an empty root leaf, and saves the catalog. A taken name is refused.
    #[verifier::spinoff_prover]
    #[verifier::rlimit(100)]
    pub fn create_table(&mut self, name: String, schema: Schema) -> (r: Result<(), StorageError>)
        requires
            old(self).wf(),
        ensures
            final(self).wf(),
            r == Err::<(), StorageError>(StorageError::AlreadyExists) <==> old(self).names().contains(name@),
            r is Ok ==> final(self).names() == old(self).names().push(name@),
            r is Ok ==> final(self).current_catalog_file() == Some(enc_catalog(final(self).catalog.tables@))
                && record_names(final(self).catalog.tables@) == final(self).names(),
            r is Err ==> final(self).names() == old(self).names(),
            r == Err::<(), StorageError>(StorageError::AlreadyExists) ==> *final(self) == *old(self),
            !old(self).names().contains(name@) && old(self).tables@.len() < u32::MAX && catalog_fits(
                old(self).catalog.tables@,
            ) && record_fits(
                name@,
                column_views(schema.columns@),
            ) ==> r is Ok,
            r is Ok ==> fresh_table(final(self).tables@.last(), column_views(schema.columns@)),
    {
        if let Some(i) = self.position(name.as_str()) {
            proof {
                assert(self.names()[i as int] == name@);
            }
            return Err(StorageError::AlreadyExists);
        }
        let file_path = table_file_name(name.as_str());
        let mut table_file = TableFile::open(file_path.clone(), DiskFile::new());
        if let Err(e) = table_file.allocate_segment() {
            return Err(Self::not_taken(e));
        }
        let index_path = primary_index_file_name(name.as_str());
        let mut index_file = IndexFile::open(index_path.clone(), DiskFile::new());
        let root = match new_index_root(&mut index_file) {
            Ok(p) => p,
            Err(e) => return Err(Self::not_taken(e)),
        };
        let btree_name = "btree";
        let pk_name = "pk";
        proof {
            reveal_strlit("btree");
            reveal_strlit("pk");
            lemma_literal_fits(btree_name);
            lemma_literal_fits(pk_name);
        }
        let index = match self.index_builder_registry.create_index(btree_name, Some(root)) {
            Some(i) => i,
            None => return Err(StorageError::Invalid("unknown index type")),
        };
        let pk_column = match primary_key_position(&schema) {
            Some(i) => {
                proof {
                    assert(column_views(schema.columns@)[i as int] == schema.columns@[i as int]@);
                }
                schema.columns[i].name.clone()
            },
            None => String::new(),
        };
        let primary_meta = IndexFileMetadata {
            name: String::from_str(pk_name),
            index_type: String::from_str(btree_name),
            file_path: index_path,
            root_page_segment: root.segment_id(),
            root_page_offset: root.page_offset(),
            column: pk_column.clone(),
        };
        let record = TableFileMetadata {
            name: name.clone(),
            file_path: file_path.clone(),
            schema: schema.copy(),
            next_segment_id: table_file.next_segment_id(),
            primary_index: Some(primary_meta),
            secondary_indexes: Vec::new(),
        };
        let table = TableMetadata {
            name: name.clone(),
            file_path,
            schema,
            primary_index: Some(IndexMetadata {
                name: String::from_str("pk"),
                column: pk_column,
                index_type: String::from_str("btree"),
                index,
                file: index_file,
            }),
            secondary_indexes: Vec::new(),
            file: table_file,
        };
        let ghost old_tables = self.tables@;
        let ghost old_records = self.catalog.tables@;
        proof {
            assert forall|k: int| 0 <= k < old_records.len() implies old_records[k].name@ != name@ by {
                assert(self.tables@[k].name@ == old_records[k].name@);
                assert(self.names()[k] == self.tables@[k].name@);
            }
        }
        let ghost rec = record;
        self.catalog.tables.push(record);
        self.tables.push(table);
        proof {
            assert(names_unique(self.catalog.tables@));
            assert(self.names() =~= old(self).names().push(name@));
            if catalog_fits(old_records) && record_fits(name@, column_views(schema.columns@)) {
                assert(table_fits(rec));
                assert forall|k: int| 0 <= k < self.catalog.tables@.len() implies table_fits(#[trigger] self.catalog.tables@[k]) by {
                    if k < old_records.len() {
                        assert(self.catalog.tables@[k] == old_records[k]);
                    }
                }
            }
        }
        match self.save_catalog_to_disk() {
            Ok(()) => {
                proof {
                    assert(record_names(self.catalog.tables@) =~= self.names());
                }
                Ok(())
            },
            Err(e) => {
                self.catalog.tables.pop();
                self.tables.pop();
                proof {
                    assert(self.tables@ =~= old_tables);
                    assert(self.catalog.tables@ =~= old_records);
                    assert(self.names() =~= old(self).names());
                }
                Err(Self::not_taken(e))
            },
        }
    }

    /// An error other than `AlreadyExists`, for failures after the name check.
    fn not_taken(e: StorageError) -> (r: StorageError)
        ensures
            r != StorageError::AlreadyExists,
    {
        match e {
            StorageError::AlreadyExists => StorageError::Invalid("unexpected name clash"),
            other => other,
        }
    }

    /// The open table named `name`.
    pub fn get_table(&self, name: &str) -> (r: Result<&TableMetadata, StorageError>)
        requires
            self.wf(),
        ensures
            match r {
                Ok(t) => t.name@ == name@ && self.names().contains(name@) && self.table(name@) == Some(*t),
                Err(e) => e == StorageError::NotFound && !self.names().contains(name@) && self.table(name@) is None,
            },
    {
        match self.position(name) {
            Some(i) => {
                proof {
                    assert(self.names()[i as int] == name@);
                    let j = choose|j: int| 0 <= j < self.tables@.len() && self.tables@[j].name@ == name@;
                    if j != i {
                        assert(self.catalog.tables@[j].name@ == self.tables@[j].name@);
                        assert(self.catalog.tables@[i as int].name@ == self.tables@[i as int].name@);
                        if j < i {
                            assert(self.catalog.tables@[j].name@ != self.catalog.tables@[i as int].name@);
                        } else {
                            assert(self.catalog.tables@[i as int].name@ != self.catalog.tables@[j].name@);
                        }
                    }
                }
                Ok(&self.tables[i])
            },
            None => {
                proof {
                    if exists|j: int| 0 <= j < self.tables@.len() && self.tables@[j].name@ == name@ {
                        let j = choose|j: int| 0 <= j < self.tables@.len() && self.tables@[j].name@ == name@;
                        assert(self.names()[j] == name@);
                    }
                }
                Err(StorageError::NotFound)
            },
        }
    }

    /// Inserts a row: checks its arity and index keys, appends it to segment
    /// 0 of the table, and adds it to the primary and secondary indexes. A
    /// primary key already present is refused.
    pub fn insert_row(&mut self, table_name: &str, row: Row) -> (r: Result<(), StorageError>)
        requires
            old(self).wf(),
        ensures
            final(self).wf(),
            final(self).names() == old(self).names(),
            !old(self).names().contains(table_name@) ==> r == Err::<(), StorageError>(StorageError::NotFound),
            forall|i: int|
                0 <= i < old(self).tables@.len() && old(self).tables@[i].name@ == table_name@
                    && row.values@.len() != old(self).tables@[i].schema.columns@.len() ==> r == Err::<
                    (),
                    StorageError,
                >(StorageError::Invalid("row arity does not match schema")) && *final(self) == *old(self),
            !old(self).names().contains(table_name@) ==> *final(self) == *old(self),
            forall|i: int, k: int|
                0 <= i < old(self).tables@.len() && old(self).tables@[i].name@ == table_name@ && row.values@.len()
                    == old(self).tables@[i].schema.columns@.len() && old(self).tables@[i].primary_index is Some
                    && #[trigger] is_pk_position(old(self).tables@[i].schema.columns@, k) && key_of(row.values@[k]@) is None
                    ==> r == Err::<(), StorageError>(StorageError::Invalid("primary key must be a non-null key value"))
                    && *final(self) == *old(self),
            forall|i: int|
                0 <= i < old(self).tables@.len() && old(self).tables@[i].name@ == table_name@ ==> (r is Ok
                    ==> exists|p: TuplePointer, keys: Seq<u64>|
                    #[trigger] secondaries_got(old(self).tables@[i], final(self).tables@[i], row, p, keys) && stored_row(
                        final(self).tables@[i],
                        row,
                        p,
                    ) && primary_grew(old(self).tables@[i], final(self).tables@[i], row, p)),
    {
        let i = match self.position(table_name) {
            Some(i) => i,
            None => {
                proof {
                    assert forall|j: int| 0 <= j < self.tables@.len() implies self.tables@[j].name@ != table_name@ by {
                        assert(self.names()[j] == self.tables@[j].name@);
                    }
                }
                return Err(StorageError::NotFound);
            },
        };
        proof {
            assert(self.names()[i as int] == table_name@);
            assert forall|j: int| 0 <= j < self.tables@.len() && self.tables@[j].name@ == table_name@ implies j == i by {
                if j != i {
                    assert(self.catalog.tables@[j].name@ == self.tables@[j].name@);
                    assert(self.catalog.tables@[i as int].name@ == self.tables@[i as int].name@);
                }
            }
        }
        if row.len() != self.tables[i].schema.len() {
            return Err(StorageError::Invalid("row arity does not match schema"));
        }
        if self.tables[i].primary_index.is_some() {
            if let Some(pos) = primary_key_position(&self.tables[i].schema) {
                if key_of_column(&row, pos).is_err() {
                    proof {
                        lemma_pk_position_unique(self.tables@[i as int].schema.columns@, pos as int);
                    }
                    return Err(StorageError::Invalid("primary key must be a non-null key value"));
                }
            }
        }
        let ghost old_tables = self.tables@;
        let mut table = self.tables.remove(i);
        let ghost before = table;
        let r = Self::insert_into_table(&mut table, &row);
        let ghost after = table;
        self.tables.insert(i, table);
        proof {
            assert(before == old_tables[i as int]);
            assert(self.tables@[i as int] == after);
            assert(self.tables@ =~= old_tables.update(i as int, self.tables@[i as int]));
            assert(self.names() =~= old(self).names());
        }
        r
    }

    fn insert_into_table(table: &mut TableMetadata, row: &Row) -> (r: Result<(), StorageError>)
        ensures
            final(table).name == old(table).name,
            r is Ok ==> exists|p: TuplePointer, keys: Seq<u64>|
                #[trigger] secondaries_got(*old(table), *final(table), *row, p, keys) && stored_row(*final(table), *row, p)
                    && primary_grew(*old(table), *final(table), *row, p),
    {
        let bytes = match encode_row(row) {
            Ok(b) => b,
            Err(e) => return Err(e),
        };
        let pk_key = match &table.primary_index {
            Some(_) => {
                let pos = match primary_key_position(&table.schema) {
                    Some(p) => p,
                    None => return Err(StorageError::Invalid("table has no columns")),
                };
                match key_of_column(row, pos) {
                    Ok(k) => Some(k),
                    Err(_) => return Err(StorageError::Invalid("primary key must be a non-null key value")),
                }
            },
            None => None,
        };
        let mut secondary_keys: Vec<u64> = Vec::new();
        let mut k: usize = 0;
        while k < table.secondary_indexes.len()
            invariant
                secondary_keys@.len() == k,
                k <= table.secondary_indexes@.len(),
                *table == *old(table),
                forall|m: int|
                    0 <= m < k ==> #[trigger] row_key_for(*old(table), *row, old(table).secondary_indexes@[m], secondary_keys@[m]),
            decreases table.secondary_indexes@.len() - k,
        {
            let col = match table.schema.get_column_index(table.secondary_indexes[k].column.as_str()) {
                Some(c) => c,
                None => return Err(StorageError::Invalid("indexed column missing from schema")),
            };
            match key_of_column(row, col) {
                Ok(key) => {
                    proof {
                        assert(row_key_for(*old(table), *row, old(table).secondary_indexes@[k as int], key)) by {
                            assert(key_of(row.values@[col as int]@) == Some(key));
                        }
                    }
                    secondary_keys.push(key);
                },
                Err(e) => return Err(e),
            }
            k = k + 1;
        }
        if let (Some(key), Some(pk)) = (pk_key, &table.primary_index) {
            match pk.index.search(key, &pk.file) {
                Ok(Some(_)) => return Err(StorageError::Invalid("duplicate primary key")),
                Ok(None) => {},
                Err(e) => return Err(e),
            }
        }
        let ptr = match place_row(&mut table.file, bytes.as_slice()) {
            Ok(p) => p,
            Err(e) => return Err(e),
        };
        if let Some(key) = pk_key {
            if let Some(pk) = &mut table.primary_index {
                if let Err(e) = pk.index.insert(key, ptr, &mut pk.file) {
                    return Err(e);
                }
            }
        }
        let ghost after_primary = table.primary_index;
        let ghost after_file = table.file;
        proof {
            lemma_u32_bytes(row@.len() as int);
        }
        assert(primary_grew(*old(table), *table, *row, ptr));
        assert(stored_row(*table, *row, ptr));
        let n = table.secondary_indexes.len();
        let mut j: usize = 0;
        while j < n
            invariant
                n == table.secondary_indexes@.len(),
                secondary_keys@.len() == n,
                table.name == old(table).name,
                table.primary_index == after_primary,
                table.file == after_file,
                primary_grew(*old(table), *table, *row, ptr),
                stored_row(*table, *row, ptr),
                n == old(table).secondary_indexes@.len(),
                j <= n,
                forall|m: int|
                    0 <= m < n ==> #[trigger] row_key_for(*old(table), *row, old(table).secondary_indexes@[m], secondary_keys@[m]),
                forall|m: int|
                    0 <= m < j ==> #[trigger] secondary_got(
                        old(table).secondary_indexes@[m],
                        table.secondary_indexes@[m],
                        secondary_keys@[m],
                        ptr,
                    ),
                forall|m: int| j <= m < n ==> #[trigger] table.secondary_indexes@[m] == old(table).secondary_indexes@[m],
            decreases n - j,
        {
            let ghost before = table.secondary_indexes@;
            let mut idx = table.secondary_indexes.remove(j);
            let res = idx.index.insert(secondary_keys[j], ptr, &mut idx.file);
            table.secondary_indexes.insert(j, idx);
            if let Err(e) = res {
                return Err(e);
            }
            proof {
                assert(table.secondary_indexes@ =~= before.update(j as int, table.secondary_indexes@[j as int]));
                assert(secondary_got(
                    old(table).secondary_indexes@[j as int],
                    table.secondary_indexes@[j as int],
                    secondary_keys@[j as int],
                    ptr,
                ));
            }
            j = j + 1;
        }
        proof {
            assert(secondaries_got(*old(table), *table, *row, ptr, secondary_keys@));
        }
        Ok(())
    }

    /// Every live row of a table, in block and slot order.
    pub fn scan_table(&self, table_name: &str) -> (r: Result<Vec<Row>, StorageError>)
        requires
            self.wf(),
        ensures
            !self.names().contains(table_name@) <==> r == Err::<Vec<Row>, StorageError>(StorageError::NotFound),
            match self.table(table_name@) {
                Some(t) => scan_result(t.file.disk@, r),
                None => true,
            },
    {
        let table = match self.get_table(table_name) {
            Ok(t) => t,
            Err(e) => return Err(e),
        };
        let (_ptrs, rows) = match scan_rows(&table.file) {
            Ok(p) => p,
            Err(e) => return Err(Self::found(e)),
        };
        Ok(rows)
    }

    /// An error other than `NotFound`, for failures once the table is found.
    fn found(e: StorageError) -> (r: StorageError)
        ensures
            r != StorageError::NotFound,
    {
        match e {
            StorageError::NotFound => StorageError::CorruptData("missing data in a table file"),
            other => other,
        }
    }

    /// The schema of a table.
    pub fn get_schema(&self, table_name: &str) -> (r: Result<Schema, StorageError>)
        requires
            self.wf(),
        ensures
            r is Err <==> !self.names().contains(table_name@),
            match self.table(table_name@) {
                Some(t) => r matches Ok(s) && column_views(s.columns@) == column_views(t.schema.columns@),
                None => r == Err::<Schema, StorageError>(StorageError::NotFound),
            },
    {
        match self.get_table(table_name) {
            Ok(t) => Ok(t.schema.copy()),
            Err(e) => Err(e),
        }
    }

    /// Reads a block of a table, to materialise a row an index pointed at.
    pub fn read_block(&self, table_name: &str, segment_id: u32, block_id: u8) -> (r: Result<Block, StorageError>)
        requires
            self.wf(),
        ensures
            !self.names().contains(table_name@) ==> r == Err::<Block, StorageError>(StorageError::NotFound),
            r matches Ok(b) ==> b.wf(),
            match self.table(table_name@) {
                Some(t) => {
                    let o = block_offset_of(segment_id as int, block_id as int);
                    &&& r matches Ok(b) ==> o + BLOCK_SIZE <= t.file.disk@.len() && b.data@ == t.file.disk@.subrange(o, o + BLOCK_SIZE)
                    &&& block_id < BLOCKS_PER_UNCOMPRESSED_SEGMENT && o + BLOCK_SIZE <= t.file.disk@.len() && block_wf(
                        t.file.disk@.subrange(o, o + BLOCK_SIZE),
                    ) ==> r is Ok
                },
                None => true,
            },
    {
        let table = match self.get_table(table_name) {
            Ok(t) => t,
            Err(e) => return Err(e),
        };
        table.file.read_block(segment_id, block_id)
    }

    /// Looks `key` up in a table's primary index.
    pub fn get_by_key(&self, table_name: &str, key: u64) -> (r: Result<Option<TuplePointer>, StorageError>)
        requires
            self.wf(),
        ensures
            !self.names().contains(table_name@) ==> r == Err::<Option<TuplePointer>, StorageError>(
                StorageError::NotFound,
            ),
            match self.table(table_name@) {
                Some(t) => match t.primary_index {
                    None => r == Ok::<Option<TuplePointer>, StorageError>(None),
                    Some(pk) => primary_lookup(pk, key, r),
                },
                None => true,
            },
    {
        let table = match self.get_table(table_name) {
            Ok(t) => t,
            Err(e) => return Err(e),
        };
        match &table.primary_index {
            Some(pk) => pk.index.search(key, &pk.file),
            None => Ok(None),
        }
    }

    /// The rows of a table whose primary keys lie in `[start_key, end_key]`,
    /// by the primary index; nothing when that index has no order.
    pub fn range_scan_index(&self, table_name: &str, start_key: u64, end_key: u64) -> (r: Result<
        Vec<TuplePointer>,
        StorageError,
    >)
        requires
            self.wf(),
        ensures
            !self.names().contains(table_name@) ==> r == Err::<Vec<TuplePointer>, StorageError>(
                StorageError::NotFound,
            ),
            match self.table(table_name@) {
                Some(t) => match t.primary_index {
                    None => r matches Ok(v) && v@.len() == 0,
                    Some(pk) => primary_range(pk, start_key, end_key, r),
                },
                None => true,
            },
    {
        let table = match self.get_table(table_name) {
            Ok(t) => t,
            Err(e) => return Err(e),
        };
        let pk = match &table.primary_index {
            Some(p) => p,
            None => return Ok(Vec::new()),
        };
        if pk.index.capability() != IndexCapability::Ordered {
            return Ok(Vec::new());
        }
        let entries = match pk.index.range_scan(start_key, end_key, &pk.file) {
            Ok(e) => e,
            Err(e) => return Err(e),
        };
        let mut out: Vec<TuplePointer> = Vec::new();
        let mut i: usize = 0;
        while i < entries.len()
            invariant
                i <= entries@.len(),
                out@.len() == i,
                forall|k: int| 0 <= k < i ==> out@[k] == entries@[k].1,
            decreases entries@.len() - i,
        {
            out.push(entries[i].1);
            i = i + 1;
        }
        assert(out@ =~= pointers_of(entries@));
        Ok(out)
    }

    /// The name and position of the secondary index of a table on `column_name`.
    pub fn find_secondary_index(&self, table_name: &str, column_name: &str) -> (r: Result<
        Option<(String, usize)>,
        StorageError,
    >)
        requires
            self.wf(),
        ensures
            !self.names().contains(table_name@) ==> r == Err::<Option<(String, usize)>, StorageError>(
                StorageError::NotFound,
            ),
            match self.table(table_name@) {
                Some(t) => match r {
                    Ok(Some((_, i))) => first_index_on(t.secondary_indexes@, column_name@, i as int),
                    Ok(None) => forall|k: int| 0 <= k < t.secondary_indexes@.len() ==> #[trigger] t.secondary_indexes@[k].column@ != column_name@,
                    Err(_) => false,
                },
                None => true,
            },
    {
        let table = match self.get_table(table_name) {
            Ok(t) => t,
            Err(e) => return Err(e),
        };
        let target = column_name.to_owned();
        let mut i: usize = 0;
        while i < table.secondary_indexes.len()
            invariant
                self.names().contains(table_name@),
                self.table(table_name@) == Some(*table),
                target@ == column_name@,
                i <= table.secondary_indexes@.len(),
                forall|k: int| 0 <= k < i ==> #[trigger] table.secondary_indexes@[k].column@ != column_name@,
            decreases table.secondary_indexes@.len() - i,
        {
            if table.secondary_indexes[i].column == target {
                return Ok(Some((table.secondary_indexes[i].name.clone(), i)));
            }
            i = i + 1;
        }
        Ok(None)
    }

    /// Looks `key` up in the secondary index of a table on `column_name`;
    /// nothing when there is no such index.
    pub fn search_secondary_index(&self, table_name: &str, column_name: &str, key: u64) -> (r: Result<
        Option<TuplePointer>,
        StorageError,
    >)
        requires
            self.wf(),
        ensures
            !self.names().contains(table_name@) ==> r == Err::<Option<TuplePointer>, StorageError>(
                StorageError::NotFound,
            ),
            match self.table(table_name@) {
                Some(t) => (forall|k: int| 0 <= k < t.secondary_indexes@.len() ==> #[trigger] t.secondary_indexes@[k].column@ != column_name@)
                    ==> r == Ok::<Option<TuplePointer>, StorageError>(None),
                None => true,
            },
            forall|i: int| #![trigger first_index_on(self.table(table_name@)->Some_0.secondary_indexes@, column_name@, i)]
                self.table(table_name@) is Some && first_index_on(self.table(table_name@)->Some_0.secondary_indexes@, column_name@, i)
                    ==> primary_lookup(self.table(table_name@)->Some_0.secondary_indexes@[i], key, r),
    {
        let found = match self.find_secondary_index(table_name, column_name) {
            Ok(f) => f,
            Err(e) => return Err(e),
        };
        let table = match self.get_table(table_name) {
            Ok(t) => t,
            Err(e) => return Err(e),
        };
        match found {
            Some((_, i)) => {
                if i >= table.secondary_indexes.len() {
                    return Ok(None);
                }
                let idx = &table.secondary_indexes[i];
                idx.index.search(key, &idx.file)
            },
            None => Ok(None),
        }
    }

    /// Creates a secondary index of the given type on a column, fills it
    /// from the table's rows, and saves the catalog.
    pub fn create_secondary_index(
        &mut self,
        index_name: String,
        table_name: String,
        column_name: String,
        index_type: String,
    ) -> (r: Result<(), StorageError>)
        requires
            old(self).wf(),
        ensures
            final(self).wf(),
            final(self).names() == old(self).names(),
            !old(self).names().contains(table_name@) ==> r == Err::<(), StorageError>(StorageError::NotFound),
            r is Ok ==> final(self).current_catalog_file() == Some(enc_catalog(final(self).catalog.tables@)),
            registered(old(self).index_builder_registry.builders@, index_type@) is None ==> r is Err,
            forall|i: int|
                0 <= i < old(self).tables@.len() && old(self).tables@[i].name@ == table_name@ ==> (r is Ok ==> {
                    let before = old(self).tables@[i].secondary_indexes@;
                    let after = final(self).tables@[i].secondary_indexes@;
                    &&& after.len() == before.len() + 1
                    &&& after.subrange(0, before.len() as int) == before
                    &&& after.last().name@ == index_name@
                    &&& after.last().column@ == column_name@
                    &&& after.last().index_type@ == index_type@
                }),
    {
        let i = match self.position(table_name.as_str()) {
            Some(i) => i,
            None => return Err(StorageError::NotFound),
        };
        proof {
            assert(self.names()[i as int] == table_name@);
            assert forall|j: int| 0 <= j < self.tables@.len() && self.tables@[j].name@ == table_name@ implies j == i by {
                if j != i {
                    assert(self.catalog.tables@[j].name@ == self.tables@[j].name@);
                    assert(self.catalog.tables@[i as int].name@ == self.tables@[i as int].name@);
                }
            }
        }
        let ghost n_name = index_name@;
        let ghost n_col = column_name@;
        let ghost n_type = index_type@;
        let path = secondary_index_file_name(table_name.as_str(), column_name.as_str(), index_name.as_str());
        let meta = IndexFileMetadata {
            name: index_name,
            index_type,
            file_path: path,
            root_page_segment: 0,
            root_page_offset: 0,
            column: column_name,
        };
        let built = match build_index(&self.tables[i], &self.index_builder_registry, &meta) {
            Ok(b) => b,
            Err(e) => return Err(Self::found(e)),
        };
        let mut record_meta = meta.clone();
        record_meta.root_page_segment = built.root_segment;
        record_meta.root_page_offset = built.root_offset;
        let ghost old_tables = self.tables@;
        let ghost old_records = self.catalog.tables@;
        let mut table = self.tables.remove(i);
        let ghost before = table.secondary_indexes@;
        table.secondary_indexes.push(built.index);
        assert(table.secondary_indexes@.subrange(0, before.len() as int) =~= before);
        self.tables.insert(i, table);
        let mut record = self.catalog.tables.remove(i);
        record.secondary_indexes.push(record_meta);
        self.catalog.tables.insert(i, record);
        proof {
            assert(self.tables@ =~= old_tables.update(i as int, self.tables@[i as int]));
            assert(self.catalog.tables@ =~= old_records.update(i as int, self.catalog.tables@[i as int]));
            assert(self.names() =~= old(self).names());
            assert forall|a: int, b: int| 0 <= a < b < self.catalog.tables@.len() implies self.catalog.tables@[a].name@
                != self.catalog.tables@[b].name@ by {
                assert(old_records[a].name@ != old_records[b].name@);
            }
        }
        self.save_catalog_to_disk()
    }
}

/// Opens one table that the catalog records: its file and primary index
/// file are taken from the directory, and its secondary indexes are built
/// again. Returns the open table and the record to keep for it.
fn open_table(meta: &TableFileMetadata, dir: &mut Directory, index_builder_registry: &IndexBuilderRegistry) -> (r: TableMetadata)
    ensures
        r.name@ == meta.name@,
        column_views(r.schema.columns@) == column_views(meta.schema.columns@),
{
    let bytes = match dir.take(meta.file_path.as_str()) {
        Some(b) => b,
        None => Vec::new(),
    };
    let mut file = TableFile::open(meta.file_path.clone(), DiskFile::from_bytes(bytes));
    let _ = file.set_next_segment_id(meta.next_segment_id);
    let primary_index = match &meta.primary_index {
        Some(m) => {
            let ibytes = match dir.take(m.file_path.as_str()) {
                Some(b) => b,
                None => Vec::new(),
            };
            let pages = (ibytes.len() / 4096) as u64;
            let mut ifile = IndexFile::open(m.file_path.clone(), DiskFile::from_bytes(ibytes));
            let next = if pages > u32::MAX as u64 { u32::MAX } else { pages as u32 };
            let _ = ifile.set_next_page_id(next);
            let root = PageId::new(m.root_page_segment, m.root_page_offset);
            match index_builder_registry.create_index(m.index_type.as_str(), Some(root)) {
                Some(index) => Some(IndexMetadata {
                    name: m.name.clone(),
                    column: m.column.clone(),
                    index_type: m.index_type.clone(),
                    index,
                    file: ifile,
                }),
                None => None,
            }
        },
        None => None,
    };
    let mut table = TableMetadata {
        name: meta.name.clone(),
        file_path: meta.file_path.clone(),
        schema: meta.schema.copy(),
        primary_index,
        secondary_indexes: Vec::new(),
        file,
    };
    let mut k: usize = 0;
    while k < meta.secondary_indexes.len()
        invariant
            table.name@ == meta.name@,
            column_views(table.schema.columns@) == column_views(meta.schema.columns@),
        decreases meta.secondary_indexes@.len() - k,
    {
        let m = &meta.secondary_indexes[k];
        if let Ok(built) = build_index(&table, index_builder_registry, m) {
            table.secondary_indexes.push(built.index);
        }
        k = k + 1;
    }
    table
}

/// A secondary index built over a table, with where its root lies.
struct BuiltIndex {
    index: IndexMetadata,
    root_segment: u16,
    root_offset: u16,
}

/// Builds the secondary index that `meta` describes over the rows of
/// `table`, in a fresh file.
fn build_index(table: &TableMetadata, registry: &IndexBuilderRegistry, meta: &IndexFileMetadata) -> (r: Result<
    BuiltIndex,
    StorageError,
>)
    ensures
        r matches Ok(b) ==> b.index.name@ == meta.name@ && b.index.column@ == meta.column@ && b.index.index_type@
            == meta.index_type@,
        registered(registry.builders@, meta.index_type@) is None ==> r is Err,
{
    let col = match table.schema.get_column_index(meta.column.as_str()) {
        Some(c) => c,
        None => return Err(StorageError::Invalid("no such column")),
    };
    let mut file = IndexFile::open(meta.file_path.clone(), DiskFile::new());
    let root = match new_index_root(&mut file) {
        Ok(p) => p,
        Err(e) => return Err(e),
    };
    let mut index = match registry.create_index(meta.index_type.as_str(), Some(root)) {
        Some(i) => i,
        None => return Err(StorageError::Invalid("unknown index type")),
    };
    let (ptrs, rows) = match scan_rows(&table.file) {
        Ok(r) => r,
        Err(e) => return Err(e),
    };
    let mut k: usize = 0;
    while k < rows.len()
        invariant
            ptrs@.len() == rows@.len(),
        decreases rows@.len() - k,
    {
        let key = match key_of_column(&rows[k], col) {
            Ok(key) => key,
            Err(e) => return Err(e),
        };
        if let Err(e) = index.insert(key, ptrs[k], &mut file) {
            return Err(e);
        }
        k = k + 1;
    }
    Ok(BuiltIndex {
        index: IndexMetadata {
            name: meta.name.clone(),
            column: meta.column.clone(),
            index_type: meta.index_type.clone(),
            index,
            file,
        },
        root_segment: root.segment_id(),
        root_offset: root.page_offset(),
    })
}

} // verus!
