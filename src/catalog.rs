//! The catalog: the directory of tables, their files, schemas and index
//! roots, stored as a header and a run of table records.

use vstd::prelude::*;
use vstd::utf8::encode_utf8;
use crate::bytes::{lemma_u16_bytes, lemma_u32_bytes, push_u16, push_u32, push_u64, u16_bytes, u32_at, u32_bytes, u64_at, u64_bytes};
use crate::codec::{at, enc_str, lemma_at_concat, push_str, read_str, read_u16, read_u32, read_u64, read_u8, str_fits};
use crate::error::StorageError;
use crate::types::{
    column_views, rolling_hash, rolling_hash_of, Column, ColumnView, DataType, DataTypeView, Schema,
};

verus! {

/// The catalog format version.
pub const CATALOG_VERSION: u32 = 1;

/// What the catalog records of one index.
#[derive(Debug, Clone)]
pub struct IndexFileMetadata {
    /// Logical name of the index.
    pub name: String,
    /// Index type name, such as "btree" or "hash".
    pub index_type: String,
    /// Path of the index file.
    pub file_path: String,
    pub root_page_segment: u16,
    pub root_page_offset: u16,
    /// The indexed column.
    pub column: String,
}

/// What the catalog records of one table.
#[derive(Debug, Clone)]
pub struct TableFileMetadata {
    pub name: String,
    /// Path of the table file.
    pub file_path: String,
    pub schema: Schema,
    /// The next segment the table file hands out.
    pub next_segment_id: u32,
    pub primary_index: Option<IndexFileMetadata>,
    pub secondary_indexes: Vec<IndexFileMetadata>,
}

/// The fixed header of a stored catalog.
#[derive(Debug, Clone, Copy, PartialEq, Eq, Structural)]
pub struct CatalogHeader {
    pub version: u32,
    pub num_tables: u32,
    /// Rolling checksum of the table records.
    pub checksum: u64,
}

impl CatalogHeader {
    pub fn new() -> (r: Self)
        ensures
            r == (CatalogHeader { version: CATALOG_VERSION, num_tables: 0, checksum: 0 }),
    {
        CatalogHeader { version: CATALOG_VERSION, num_tables: 0, checksum: 0 }
    }
}

/// A data type as stored: a tag, and for an extension its oid and name.
pub open spec fn enc_data_type(d: DataTypeView) -> Seq<u8> {
    match d {
        DataTypeView::Int => seq![0u8],
        DataTypeView::Float => seq![1u8],
        DataTypeView::Str => seq![2u8],
        DataTypeView::Bool => seq![3u8],
        DataTypeView::Null => seq![4u8],
        DataTypeView::Extension(oid, name) => seq![5u8] + u32_bytes(oid as int) + enc_str(name),
    }
}

/// A column as stored: name, type, and a primary-key flag byte.
pub open spec fn enc_column(c: ColumnView) -> Seq<u8> {
    enc_str(c.name) + enc_data_type(c.data_type) + seq![if c.is_primary_key { 1u8 } else { 0u8 }]
}

/// Columns stored one after another.
pub open spec fn enc_columns(cs: Seq<ColumnView>) -> Seq<u8>
    decreases cs.len(),
{
    if cs.len() == 0 {
        Seq::empty()
    } else {
        enc_columns(cs.drop_last()) + enc_column(cs.last())
    }
}

/// An index record as stored.
pub open spec fn enc_index(m: IndexFileMetadata) -> Seq<u8> {
    enc_str(m.name@) + enc_str(m.index_type@) + enc_str(m.file_path@) + u16_bytes(m.root_page_segment as int)
        + u16_bytes(m.root_page_offset as int) + enc_str(m.column@)
}

/// Index records stored one after another.
pub open spec fn enc_indexes(ms: Seq<IndexFileMetadata>) -> Seq<u8>
    decreases ms.len(),
{
    if ms.len() == 0 {
        Seq::empty()
    } else {
        enc_indexes(ms.drop_last()) + enc_index(ms.last())
    }
}

/// The fields of a table record before its primary index field.
#[verifier::opaque]
pub open spec fn enc_head(t: TableFileMetadata) -> Seq<u8> {
    enc_str(t.name@) + enc_str(t.file_path@) + u32_bytes(t.schema.columns@.len() as int) + enc_columns(
        column_views(t.schema.columns@),
    ) + u32_bytes(t.next_segment_id as int)
}

/// The stored primary index field: a flag, then the record if there is one.
pub open spec fn enc_primary(o: Option<IndexFileMetadata>) -> Seq<u8> {
    match o {
        None => seq![0u8],
        Some(m) => seq![1u8] + enc_index(m),
    }
}

/// The secondary index records of a table record, with their count.
#[verifier::opaque]
pub open spec fn enc_tail(t: TableFileMetadata) -> Seq<u8> {
    u32_bytes(t.secondary_indexes@.len() as int) + enc_indexes(t.secondary_indexes@)
}

/// A table record as stored: name, file path, column count and columns,
/// next segment id, primary index field, secondary index count and records.
pub open spec fn enc_table(t: TableFileMetadata) -> Seq<u8> {
    enc_head(t) + enc_primary(t.primary_index) + enc_tail(t)
}

/// Table records stored one after another.
pub open spec fn enc_tables(ts: Seq<TableFileMetadata>) -> Seq<u8>
    decreases ts.len(),
{
    if ts.len() == 0 {
        Seq::empty()
    } else {
        enc_tables(ts.drop_last()) + enc_table(ts.last())
    }
}

/// A stored catalog: version, table count, the records' checksum, the records.
pub open spec fn enc_catalog(ts: Seq<TableFileMetadata>) -> Seq<u8> {
    u32_bytes(CATALOG_VERSION as int) + u32_bytes(ts.len() as int) + u64_bytes(
        rolling_hash(enc_tables(ts)) as int,
    ) + enc_tables(ts)
}

#[verifier::spinoff_prover]
fn push_data_type(out: &mut Vec<u8>, d: &DataType) -> (r: bool)
    ensures
        r == data_type_fits(d@),
        r ==> final(out)@ == old(out)@ + enc_data_type(d@),
{
    match d {
        DataType::Int => out.push(0u8),
        DataType::Float => out.push(1u8),
        DataType::String => out.push(2u8),
        DataType::Bool => out.push(3u8),
        DataType::Null => out.push(4u8),
        DataType::Extension { type_oid, name } => {
            out.push(5u8);
            push_u32(out, *type_oid);
            if !push_str(out, name.as_str()) {
                return false;
            }
        },
    }
    assert(final(out)@ =~= old(out)@ + enc_data_type(d@));
    true
}

#[verifier::spinoff_prover]
fn push_column(out: &mut Vec<u8>, c: &Column) -> (r: bool)
    ensures
        r == column_fits(c@),
        r ==> final(out)@ == old(out)@ + enc_column(c@),
{
    if !push_str(out, c.name.as_str()) {
        return false;
    }
    if !push_data_type(out, &c.data_type) {
        return false;
    }
    out.push(if c.is_primary_key { 1u8 } else { 0u8 });
    assert(final(out)@ =~= old(out)@ + enc_column(c@));
    true
}

#[verifier::spinoff_prover]
fn push_index(out: &mut Vec<u8>, m: &IndexFileMetadata) -> (r: bool)
    ensures
        r == index_fits(*m),
        r ==> final(out)@ == old(out)@ + enc_index(*m),
{
    if !push_str(out, m.name.as_str()) {
        return false;
    }
    if !push_str(out, m.index_type.as_str()) {
        return false;
    }
    if !push_str(out, m.file_path.as_str()) {
        return false;
    }
    push_u16(out, m.root_page_segment);
    push_u16(out, m.root_page_offset);
    if !push_str(out, m.column.as_str()) {
        return false;
    }
    assert(final(out)@ =~= old(out)@ + enc_index(*m));
    true
}

#[verifier::spinoff_prover]
#[verifier::rlimit(50)]
fn push_columns(out: &mut Vec<u8>, cols: &Vec<Column>) -> (r: bool)
    ensures
        r == columns_fit(column_views(cols@)),
        r ==> final(out)@ == old(out)@ + u32_bytes(cols@.len() as int) + enc_columns(column_views(cols@)),
{
    if cols.len() > u32::MAX as usize {
        return false;
    }
    push_u32(out, cols.len() as u32);
    let ghost base = out@;
    let mut i: usize = 0;
    while i < cols.len()
        invariant
            i <= cols@.len(),
            out@ == base + enc_columns(column_views(cols@.take(i as int))),
            cols@.len() <= u32::MAX,
            forall|k: int| 0 <= k < i ==> column_fits(#[trigger] column_views(cols@)[k]),
        decreases cols@.len() - i,
    {
        assert(column_views(cols@)[i as int] == cols@[i as int]@);
        if !push_column(out, &cols[i]) {
            return false;
        }
        proof {
            assert(column_views(cols@.take(i + 1)).drop_last() =~= column_views(cols@.take(i as int)));
        }
        i = i + 1;
        assert(out@ =~= base + enc_columns(column_views(cols@.take(i as int))));
    }
    assert(cols@.take(i as int) =~= cols@);
    true
}

#[verifier::spinoff_prover]
#[verifier::rlimit(50)]
fn push_indexes(out: &mut Vec<u8>, sec: &Vec<IndexFileMetadata>) -> (r: bool)
    ensures
        r == indexes_fit(sec@),
        r ==> final(out)@ == old(out)@ + u32_bytes(sec@.len() as int) + enc_indexes(sec@),
{
    if sec.len() > u32::MAX as usize {
        return false;
    }
    push_u32(out, sec.len() as u32);
    let ghost base2 = out@;
    let mut k: usize = 0;
    while k < sec.len()
        invariant
            k <= sec@.len(),
            out@ == base2 + enc_indexes(sec@.take(k as int)),
            sec@.len() <= u32::MAX,
            forall|j: int| 0 <= j < k ==> index_fits(#[trigger] sec@[j]),
        decreases sec@.len() - k,
    {
        if !push_index(out, &sec[k]) {
            return false;
        }
        proof {
            assert(sec@.take(k + 1).drop_last() =~= sec@.take(k as int));
        }
        k = k + 1;
        assert(out@ =~= base2 + enc_indexes(sec@.take(k as int)));
    }
    assert(sec@.take(k as int) =~= sec@);
    true
}

#[verifier::rlimit(100)]
#[verifier::spinoff_prover]
fn push_table(out: &mut Vec<u8>, t: &TableFileMetadata) -> (r: bool)
    ensures
        r == table_fits(*t),
        r ==> final(out)@ == old(out)@ + enc_table(*t),
{
    if !push_str(out, t.name.as_str()) {
        return false;
    }
    if !push_str(out, t.file_path.as_str()) {
        return false;
    }
    if !push_columns(out, &t.schema.columns) {
        return false;
    }
    push_u32(out, t.next_segment_id);
    match &t.primary_index {
        None => out.push(0u8),
        Some(m) => {
            out.push(1u8);
            if !push_index(out, m) {
                return false;
            }
        },
    }
    if !push_indexes(out, &t.secondary_indexes) {
        return false;
    }
    reveal(enc_head);
    reveal(enc_tail);
    assert(final(out)@ =~= old(out)@ + enc_table(*t));
    true
}

/// What each of `ts` holds.
pub open spec fn tables_view(ts: Seq<TableFileMetadata>) -> Seq<
    (
        Seq<char>,
        Seq<char>,
        Seq<ColumnView>,
        u32,
        Option<(Seq<char>, Seq<char>, Seq<char>, u16, u16, Seq<char>)>,
        Seq<(Seq<char>, Seq<char>, Seq<char>, u16, u16, Seq<char>)>,
    ),
> {
    ts.map_values(|t: TableFileMetadata| table_view(t))
}

/// Whether a run of table records can be stored.
pub open spec fn catalog_fits(ts: Seq<TableFileMetadata>) -> bool {
    ts.len() <= u32::MAX && forall|i: int| 0 <= i < ts.len() ==> table_fits(#[trigger] ts[i])
}

proof fn lemma_tables_prefix(ts: Seq<TableFileMetadata>, i: int)
    requires
        0 <= i < ts.len(),
    ensures
        enc_tables(ts.take(i + 1)) == enc_tables(ts.take(i)) + enc_table(ts[i]),
        enc_tables(ts) == enc_tables(ts.take(i + 1)) + enc_tables(ts).subrange(
            enc_tables(ts.take(i + 1)).len() as int,
            enc_tables(ts).len() as int,
        ),
    decreases ts.len(),
{
    assert(ts.take(i + 1).drop_last() =~= ts.take(i));
    if i + 1 == ts.len() {
        assert(ts.take(i + 1) =~= ts);
        assert(enc_tables(ts) =~= enc_tables(ts.take(i + 1)) + enc_tables(ts).subrange(
            enc_tables(ts.take(i + 1)).len() as int,
            enc_tables(ts).len() as int,
        ));
    } else {
        let d = ts.drop_last();
        lemma_tables_prefix(d, i);
        assert(d.take(i) =~= ts.take(i));
        assert(d.take(i + 1) =~= ts.take(i + 1));
        assert(enc_tables(ts) =~= enc_tables(ts.take(i + 1)) + enc_tables(ts).subrange(
            enc_tables(ts.take(i + 1)).len() as int,
            enc_tables(ts).len() as int,
        ));
    }
}

proof fn lemma_tables_step(b: Seq<u8>, ts: Seq<TableFileMetadata>, i: int, q: int)
    requires
        b == enc_tables(ts),
        0 <= i < ts.len(),
        q == enc_tables(ts.take(i)).len(),
    ensures
        at(b, q, enc_table(ts[i])),
        q + enc_table(ts[i]).len() == enc_tables(ts.take(i + 1)).len(),
{
    lemma_tables_prefix(ts, i);
    let rest = b.subrange(enc_tables(ts.take(i + 1)).len() as int, b.len() as int);
    assert(b.subrange(0, b.len() as int) =~= b);
    assert(at(b, 0, b));
    lemma_at_concat(b, 0, enc_tables(ts.take(i + 1)), rest);
    lemma_at_concat(b, 0, enc_tables(ts.take(i)), enc_table(ts[i]));
}

proof fn lemma_catalog_header(b: Seq<u8>, ts: Seq<TableFileMetadata>)
    requires
        b == enc_catalog(ts),
        ts.len() <= u32::MAX,
    ensures
        at(b, 0, u32_bytes(CATALOG_VERSION as int)),
        at(b, 4, u32_bytes(ts.len() as int)),
        at(b, 8, u64_bytes(rolling_hash(enc_tables(ts)) as int)),
        b.len() >= 16,
        b.subrange(16, b.len() as int) == enc_tables(ts),
{
    let v = u32_bytes(CATALOG_VERSION as int);
    let n = u32_bytes(ts.len() as int);
    let h = u64_bytes(rolling_hash(enc_tables(ts)) as int);
    let e = enc_tables(ts);
    crate::bytes::lemma_u32_bytes(CATALOG_VERSION as int);
    crate::bytes::lemma_u32_bytes(ts.len() as int);
    crate::bytes::lemma_u64_bytes(rolling_hash(e) as int);
    assert(b.subrange(0, b.len() as int) =~= b);
    assert(at(b, 0, b));
    lemma_at_concat(b, 0, v + n + h, e);
    lemma_at_concat(b, 0, v + n, h);
    lemma_at_concat(b, 0, v, n);
}

/// The directory of tables, and which of the two catalog files is current.
pub struct Catalog {
    /// The current catalog file, 0 or 1.
    pub active_segment: u8,
    pub tables: Vec<TableFileMetadata>,
}

/// No two tables share a name.
pub open spec fn names_unique(ts: Seq<TableFileMetadata>) -> bool {
    forall|i: int, j: int| 0 <= i < j < ts.len() ==> ts[i].name@ != ts[j].name@
}

/// The table named `name`, if any.
pub open spec fn table_named(ts: Seq<TableFileMetadata>, name: Seq<char>) -> Option<int> {
    if exists|i: int| 0 <= i < ts.len() && ts[i].name@ == name {
        Some(choose|i: int| 0 <= i < ts.len() && ts[i].name@ == name)
    } else {
        None
    }
}

impl Catalog {
    pub open spec fn wf(&self) -> bool {
        self.active_segment <= 1 && names_unique(self.tables@)
    }

    /// An empty catalog whose first file is current.
    pub fn new() -> (r: Self)
        ensures
            r.wf(),
            r.active_segment == 0,
            r.tables@.len() == 0,
    {
        Catalog { active_segment: 0, tables: Vec::new() }
    }

    pub fn active_segment(&self) -> (r: u8)
        ensures
            r == self.active_segment,
    {
        self.active_segment
    }

    pub fn inactive_segment(&self) -> (r: u8)
        requires
            self.active_segment <= 1,
        ensures
            r == 1 - self.active_segment,
    {
        1 - self.active_segment
    }

    /// Makes the other file current.
    pub fn flip_segment(&mut self)
        requires
            old(self).active_segment <= 1,
        ensures
            final(self).active_segment == 1 - old(self).active_segment,
            final(self).tables@ == old(self).tables@,
    {
        self.active_segment = 1 - self.active_segment;
    }

    /// The position of the table named `name`.
    pub fn position(&self, name: &str) -> (r: Option<usize>)
        ensures
            match r {
                Some(i) => i < self.tables@.len() && self.tables@[i as int].name@ == name@,
                None => forall|i: int| 0 <= i < self.tables@.len() ==> self.tables@[i].name@ != name@,
            },
    {
        let target = name.to_owned();
        let mut i: usize = 0;
        while i < self.tables.len()
            invariant
                i <= self.tables@.len(),
                target@ == name@,
                forall|k: int| 0 <= k < i ==> self.tables@[k].name@ != name@,
            decreases self.tables@.len() - i,
        {
            if self.tables[i].name == target {
                return Some(i);
            }
            i = i + 1;
        }
        None
    }

    /// Records a table, replacing any of the same name.
    pub fn add_table(&mut self, metadata: TableFileMetadata) -> (r: Result<(), StorageError>)
        requires
            old(self).wf(),
        ensures
            r is Ok,
            final(self).wf(),
            final(self).active_segment == old(self).active_segment,
            match table_named(old(self).tables@, metadata.name@) {
                Some(i) => final(self).tables@ == old(self).tables@.update(i, metadata),
                None => final(self).tables@ == old(self).tables@.push(metadata),
            },
    {
        match self.position(metadata.name.as_str()) {
            Some(i) => {
                proof {
                    let j = choose|j: int| 0 <= j < self.tables@.len() && self.tables@[j].name@ == metadata.name@;
                    if j != i {
                        if j < i {
                            assert(self.tables@[j].name@ != self.tables@[i as int].name@);
                        } else {
                            assert(self.tables@[i as int].name@ != self.tables@[j].name@);
                        }
                    }
                }
                self.tables.set(i, metadata);
            },
            None => {
                self.tables.push(metadata);
            },
        }
        Ok(())
    }

    /// The table named `name`, if recorded.
    pub fn get_table(&self, name: &str) -> (r: Result<Option<&TableFileMetadata>, StorageError>)
        ensures
            match r {
                Ok(Some(t)) => exists|i: int| 0 <= i < self.tables@.len() && self.tables@[i] == *t && t.name@ == name@,
                Ok(None) => forall|i: int| 0 <= i < self.tables@.len() ==> self.tables@[i].name@ != name@,
                Err(_) => false,
            },
    {
        match self.position(name) {
            Some(i) => Ok(Some(&self.tables[i])),
            None => Ok(None),
        }
    }

    /// All recorded tables.
    pub fn all_tables(&self) -> (r: &Vec<TableFileMetadata>)
        ensures
            r@ == self.tables@,
    {
        &self.tables
    }

    /// Takes the table named `name` out of the catalog.
    pub fn remove_table(&mut self, name: &str) -> (r: Result<Option<TableFileMetadata>, StorageError>)
        requires
            old(self).wf(),
        ensures
            final(self).wf(),
            final(self).active_segment == old(self).active_segment,
            match r {
                Ok(Some(t)) => t.name@ == name@ && exists|i: int|
                    0 <= i < old(self).tables@.len() && old(self).tables@[i] == t && final(self).tables@
                        == old(self).tables@.remove(i),
                Ok(None) => final(self).tables@ == old(self).tables@ && forall|i: int|
                    0 <= i < old(self).tables@.len() ==> old(self).tables@[i].name@ != name@,
                Err(_) => false,
            },
    {
        match self.position(name) {
            Some(i) => {
                let t = self.tables.remove(i);
                Ok(Some(t))
            },
            None => Ok(None),
        }
    }

    /// The stored form: header, then the table records.
    pub fn serialize(&self) -> (r: Result<Vec<u8>, StorageError>)
        ensures
            r is Ok <==> catalog_fits(self.tables@),
            r matches Ok(b) ==> b@ == enc_catalog(self.tables@),
    {
        let n = self.tables.len();
        if n > u32::MAX as usize {
            return Err(StorageError::Serialization("too many tables"));
        }
        let mut records: Vec<u8> = Vec::new();
        let mut i: usize = 0;
        while i < n
            invariant
                n == self.tables@.len(),
                i <= n,
                records@ == enc_tables(self.tables@.take(i as int)),
                n <= u32::MAX,
                forall|k: int| 0 <= k < i ==> table_fits(#[trigger] self.tables@[k]),
            decreases n - i,
        {
            if !push_table(&mut records, &self.tables[i]) {
                return Err(StorageError::Serialization("catalog field too long"));
            }
            proof {
                assert(self.tables@.take(i + 1).drop_last() =~= self.tables@.take(i as int));
            }
            i = i + 1;
        }
        assert(self.tables@.take(n as int) =~= self.tables@);
        let checksum = compute_checksum(records.as_slice());
        let mut out: Vec<u8> = Vec::new();
        push_u32(&mut out, CATALOG_VERSION);
        push_u32(&mut out, n as u32);
        push_u64(&mut out, checksum);
        let ghost head = out@;
        let mut k: usize = 0;
        while k < records.len()
            invariant
                k <= records@.len(),
                out@ == head + records@.take(k as int),
            decreases records@.len() - k,
        {
            out.push(records[k]);
            k = k + 1;
            assert(out@ =~= head + records@.take(k as int));
        }
        assert(records@.take(k as int) =~= records@);
        assert(out@ =~= enc_catalog(self.tables@));
        Ok(out)
    }

    /// Reads a stored catalog, checking its version and checksum. The catalog
    /// read is current in its first file; the caller sets which file it came from.
    #[verifier::spinoff_prover]
    #[verifier::rlimit(100)]
    pub fn deserialize(data: &[u8]) -> (r: Result<Catalog, StorageError>)
        ensures
            match r {
                Ok(c) => {
                    &&& c.wf()
                    &&& c.active_segment == 0
                    &&& data@.len() >= 16
                    &&& u32_at(data@, 0) == CATALOG_VERSION
                    &&& u32_at(data@, 4) == c.tables@.len()
                    &&& u64_at(data@, 8) == rolling_hash(data@.subrange(16, data@.len() as int))
                },
                Err(_) => true,
            },
            data@.len() < 16 || u32_at(data@, 0) != CATALOG_VERSION ==> r is Err,
            data@.len() >= 16 && u32_at(data@, 0) == CATALOG_VERSION && u64_at(data@, 8) != rolling_hash(
                data@.subrange(16, data@.len() as int),
            ) ==> r == Err::<Catalog, StorageError>(StorageError::CorruptData("catalog checksum mismatch")),
            forall|ts: Seq<TableFileMetadata>|
                catalog_fits(ts) && names_unique(ts) && #[trigger] enc_catalog(ts) == data@ ==> (r matches Ok(c)
                    && tables_view(c.tables@) == tables_view(ts)),
    {
        proof {
            assert forall|ts: Seq<TableFileMetadata>| catalog_fits(ts) && names_unique(ts) && #[trigger] enc_catalog(ts)
                == data@ implies at(data@, 0, u32_bytes(CATALOG_VERSION as int)) && at(data@, 4, u32_bytes(ts.len() as int))
                && at(data@, 8, u64_bytes(rolling_hash(enc_tables(ts)) as int)) && data@.subrange(16, data@.len() as int)
                == enc_tables(ts) by {
                lemma_catalog_header(data@, ts);
            }
        }
        let (version, pos0) = match read_u32(data, 0) {
            Some(t) => t,
            None => return Err(StorageError::CorruptData("catalog header cut short")),
        };
        if version != CATALOG_VERSION {
            return Err(StorageError::CorruptData("unknown catalog version"));
        }
        let (num_tables, pos1) = match read_u32(data, pos0) {
            Some(t) => t,
            None => return Err(StorageError::CorruptData("catalog header cut short")),
        };
        let (checksum, pos2) = match read_u64(data, pos1) {
            Some(t) => t,
            None => return Err(StorageError::CorruptData("catalog header cut short")),
        };
        let mut records: Vec<u8> = Vec::new();
        let mut k: usize = pos2;
        while k < data.len()
            invariant
                pos2 == 16,
                pos2 <= k <= data@.len(),
                records@ == data@.subrange(16, k as int),
            decreases data@.len() - k,
        {
            records.push(data[k]);
            k = k + 1;
            assert(records@ =~= data@.subrange(16, k as int));
        }
        assert(records@ == data@.subrange(16, data@.len() as int));
        if compute_checksum(records.as_slice()) != checksum {
            return Err(StorageError::CorruptData("catalog checksum mismatch"));
        }
        let mut catalog = Catalog::new();
        let mut pos: usize = 0;
        let mut i: u32 = 0;
        proof {
            assert forall|ts: Seq<TableFileMetadata>| catalog_fits(ts) && names_unique(ts) && #[trigger] enc_catalog(ts)
                == data@ implies (num_tables == ts.len() && records@ == enc_tables(ts) && pos == enc_tables(ts.take(0)).len()
                && tables_view(catalog.tables@) == tables_view(ts.take(0))) by {
                let w = ts.len() as u32;
                assert(at(data@, 4, u32_bytes(w as int)));
                assert(ts.take(0) =~= Seq::<TableFileMetadata>::empty());
                assert(tables_view(catalog.tables@) =~= tables_view(ts.take(0)));
            }
        }
        while i < num_tables
            invariant
                data@.len() >= 16,
                u32_at(data@, 0) == CATALOG_VERSION,
                num_tables == u32_at(data@, 4),
                checksum == u64_at(data@, 8),
                records@ == data@.subrange(16, data@.len() as int),
                checksum == rolling_hash(records@),
                catalog.wf(),
                catalog.active_segment == 0,
                catalog.tables@.len() == i,
                i <= num_tables,
                pos <= records@.len(),
                forall|ts: Seq<TableFileMetadata>|
                    catalog_fits(ts) && names_unique(ts) && #[trigger] enc_catalog(ts) == data@ ==> (num_tables
                        == ts.len() && records@ == enc_tables(ts) && pos == enc_tables(ts.take(i as int)).len()
                        && tables_view(catalog.tables@) == tables_view(ts.take(i as int))),
            decreases num_tables - i,
        {
            proof {
                assert forall|ts: Seq<TableFileMetadata>| catalog_fits(ts) && names_unique(ts) && #[trigger] enc_catalog(ts)
                    == data@ implies at(records@, pos as int, enc_table(ts[i as int])) by {
                    lemma_tables_step(records@, ts, i as int, pos as int);
                }
            }
            let ghost old_pos = pos;
            let ghost old_tables = catalog.tables@;
            let (t, p) = match decode_table(records.as_slice(), pos) {
                Some(x) => x,
                None => {
                    proof {
                        assert forall|ts: Seq<TableFileMetadata>| catalog_fits(ts) && names_unique(ts) && #[trigger] enc_catalog(ts)
                            == data@ implies false by {
                            assert(table_fits(ts[i as int]));
                        }
                    }
                    return Err(StorageError::CorruptData("catalog record cut short"));
                },
            };
            let ghost tv = table_view(t);
            proof {
                assert forall|ts: Seq<TableFileMetadata>| catalog_fits(ts) && names_unique(ts) && #[trigger] enc_catalog(ts)
                    == data@ implies (forall|k: int| 0 <= k < catalog.tables@.len() ==> catalog.tables@[k].name@ != t.name@) by {
                    assert(table_fits(ts[i as int]));
                    assert(tv == table_view(ts[i as int]));
                    assert forall|k: int| 0 <= k < catalog.tables@.len() implies catalog.tables@[k].name@ != t.name@ by {
                        assert(tables_view(catalog.tables@)[k] == tables_view(ts.take(i as int))[k]);
                        assert(ts[k].name@ != ts[i as int].name@);
                    }
                }
            }
            if catalog.position(t.name.as_str()).is_some() {
                return Err(StorageError::CorruptData("catalog names a table twice"));
            }
            proof {
                assert forall|a: int, b: int| 0 <= a < b < catalog.tables@.len() + 1 implies (catalog.tables@.push(t))[a].name@
                    != (catalog.tables@.push(t))[b].name@ by {
                    if b == catalog.tables@.len() {
                        assert(catalog.tables@[a].name@ != t.name@);
                    }
                }
            }
            catalog.tables.push(t);
            pos = p;
            i = i + 1;
            proof {
                assert forall|ts: Seq<TableFileMetadata>| catalog_fits(ts) && names_unique(ts) && #[trigger] enc_catalog(ts)
                    == data@ implies (pos == enc_tables(ts.take(i as int)).len() && tables_view(catalog.tables@)
                    == tables_view(ts.take(i as int))) by {
                    lemma_tables_step(records@, ts, i - 1, old_pos as int);
                    assert(table_fits(ts[i - 1]));
                    assert(tv == table_view(ts[i - 1]));
                    assert(tables_view(catalog.tables@) =~= tables_view(ts.take(i as int))) by {
                        assert forall|k: int| 0 <= k < i implies #[trigger] tables_view(catalog.tables@)[k] == tables_view(
                            ts.take(i as int),
                        )[k] by {
                            if k < i - 1 {
                                assert(catalog.tables@[k] == old_tables[k]);
                                assert(tables_view(old_tables)[k] == tables_view(ts.take(i - 1))[k]);
                            }
                        }
                    }
                }
            }
        }
        proof {
            assert forall|ts: Seq<TableFileMetadata>| catalog_fits(ts) && names_unique(ts) && #[trigger] enc_catalog(ts)
                == data@ implies tables_view(catalog.tables@) == tables_view(ts) by {
                assert(ts.take(num_tables as int) =~= ts);
            }
        }
        Ok(catalog)
    }
}

/// The rolling checksum of catalog records.
pub fn compute_checksum(data: &[u8]) -> (r: u64)
    ensures
        r == rolling_hash(data@),
{
    rolling_hash_of(data)
}

/// Whether a data type's strings can be stored.
pub open spec fn data_type_fits(d: DataTypeView) -> bool {
    match d {
        DataTypeView::Extension(_, n) => str_fits(n),
        _ => true,
    }
}

/// Whether a column's strings can be stored.
pub open spec fn column_fits(c: ColumnView) -> bool {
    str_fits(c.name) && data_type_fits(c.data_type)
}

proof fn lemma_first_byte(b: Seq<u8>, pos: int, t: Seq<u8>)
    requires
        at(b, pos, t),
        t.len() > 0,
    ensures
        pos < b.len(),
        b[pos] == t[0],
{
    assert(b.subrange(pos, pos + t.len())[0] == b[pos]);
}

#[verifier::spinoff_prover]
fn decode_data_type(b: &[u8], pos: usize) -> (r: Option<(DataType, usize)>)
    ensures
        r matches Some((_, p)) ==> pos < p <= b@.len(),
        forall|d: DataTypeView|
            data_type_fits(d) && #[trigger] at(b@, pos as int, enc_data_type(d)) ==> (r matches Some((x, p)) && x@ == d
                && p == pos + enc_data_type(d).len()),
{
    let (tag, p) = match read_u8(b, pos) {
        Some(t) => t,
        None => {
            proof {
                assert forall|d: DataTypeView| data_type_fits(d) && #[trigger] at(b@, pos as int, enc_data_type(d)) implies false by {
                    lemma_first_byte(b@, pos as int, enc_data_type(d));
                }
            }
            return None;
        },
    };
    proof {
        assert forall|d: DataTypeView| data_type_fits(d) && #[trigger] at(b@, pos as int, enc_data_type(d)) implies tag
            == enc_data_type(d)[0] by {
            lemma_first_byte(b@, pos as int, enc_data_type(d));
        }
    }
    if tag == 0 {
        Some((DataType::Int, p))
    } else if tag == 1 {
        Some((DataType::Float, p))
    } else if tag == 2 {
        Some((DataType::String, p))
    } else if tag == 3 {
        Some((DataType::Bool, p))
    } else if tag == 4 {
        Some((DataType::Null, p))
    } else if tag == 5 {
        let (type_oid, pos1) = match read_u32(b, p) {
            Some(t) => t,
            None => {
                proof {
                    assert forall|d: DataTypeView| data_type_fits(d) && #[trigger] at(b@, pos as int, enc_data_type(d)) implies false by {
                        if let DataTypeView::Extension(o, n) = d {
                            lemma_at_concat(b@, pos as int, seq![5u8] + u32_bytes(o as int), enc_str(n));
                            lemma_at_concat(b@, pos as int, seq![5u8], u32_bytes(o as int));
                        }
                    }
                }
                return None;
            },
        };
        let (name, pos2) = match read_str(b, pos1) {
            Some(t) => t,
            None => {
                proof {
                    assert forall|d: DataTypeView| data_type_fits(d) && #[trigger] at(b@, pos as int, enc_data_type(d)) implies false by {
                        if let DataTypeView::Extension(o, n) = d {
                            lemma_at_concat(b@, pos as int, seq![5u8] + u32_bytes(o as int), enc_str(n));
                            lemma_at_concat(b@, pos as int, seq![5u8], u32_bytes(o as int));
                            lemma_u32_bytes(o as int);
                        }
                    }
                }
                return None;
            },
        };
        proof {
            assert forall|d: DataTypeView| data_type_fits(d) && #[trigger] at(b@, pos as int, enc_data_type(d)) implies (
            DataTypeView::Extension(type_oid, name@) == d && pos2 == pos + enc_data_type(d).len()) by {
                if let DataTypeView::Extension(o, n) = d {
                    lemma_at_concat(b@, pos as int, seq![5u8] + u32_bytes(o as int), enc_str(n));
                    lemma_at_concat(b@, pos as int, seq![5u8], u32_bytes(o as int));
                    lemma_u32_bytes(o as int);
                }
            }
        }
        Some((DataType::Extension { type_oid, name }, pos2))
    } else {
        None
    }
}

#[verifier::spinoff_prover]
fn decode_column(b: &[u8], pos: usize) -> (r: Option<(Column, usize)>)
    ensures
        r matches Some((_, p)) ==> pos < p <= b@.len(),
        forall|c: ColumnView|
            column_fits(c) && #[trigger] at(b@, pos as int, enc_column(c)) ==> (r matches Some((x, p)) && x@ == c && p
                == pos + enc_column(c).len()),
{
    let (name, pos0) = match read_str(b, pos) {
        Some(t) => t,
        None => {
            proof {
                assert forall|c: ColumnView| column_fits(c) && #[trigger] at(b@, pos as int, enc_column(c)) implies false by {
                    lemma_column_parts(b@, pos as int, c);
                }
            }
            return None;
        },
    };
    let (data_type, pos1) = match decode_data_type(b, pos0) {
        Some(t) => t,
        None => {
            proof {
                assert forall|c: ColumnView| column_fits(c) && #[trigger] at(b@, pos as int, enc_column(c)) implies false by {
                    lemma_column_parts(b@, pos as int, c);
                }
            }
            return None;
        },
    };
    let (flag, pos2) = match read_u8(b, pos1) {
        Some(t) => t,
        None => {
            proof {
                assert forall|c: ColumnView| column_fits(c) && #[trigger] at(b@, pos as int, enc_column(c)) implies false by {
                    lemma_column_parts(b@, pos as int, c);
                }
            }
            return None;
        },
    };
    proof {
        assert forall|c: ColumnView| column_fits(c) && #[trigger] at(b@, pos as int, enc_column(c)) implies (flag == if c.is_primary_key {
            1u8
        } else {
            0u8
        } && name@ == c.name && data_type@ == c.data_type && pos2 == pos + enc_column(c).len()) by {
            lemma_column_parts(b@, pos as int, c);
        }
    }
    if flag > 1 {
        return None;
    }
    Some((Column { name, data_type, is_primary_key: flag == 1 }, pos2))
}

proof fn lemma_column_parts(b: Seq<u8>, pos: int, c: ColumnView)
    requires
        at(b, pos, enc_column(c)),
    ensures
        at(b, pos, enc_str(c.name)),
        at(b, pos + enc_str(c.name).len(), enc_data_type(c.data_type)),
        at(
            b,
            pos + enc_str(c.name).len() + enc_data_type(c.data_type).len(),
            seq![if c.is_primary_key { 1u8 } else { 0u8 }],
        ),
        enc_column(c).len() == enc_str(c.name).len() + enc_data_type(c.data_type).len() + 1,
{
    let f = seq![if c.is_primary_key { 1u8 } else { 0u8 }];
    lemma_at_concat(b, pos, enc_str(c.name) + enc_data_type(c.data_type), f);
    lemma_at_concat(b, pos, enc_str(c.name), enc_data_type(c.data_type));
}

/// What an index record holds, strings as characters.
pub open spec fn index_view(m: IndexFileMetadata) -> (Seq<char>, Seq<char>, Seq<char>, u16, u16, Seq<char>) {
    (m.name@, m.index_type@, m.file_path@, m.root_page_segment, m.root_page_offset, m.column@)
}

/// Whether an index record's strings can be stored.
pub open spec fn index_fits(m: IndexFileMetadata) -> bool {
    str_fits(m.name@) && str_fits(m.index_type@) && str_fits(m.file_path@) && str_fits(m.column@)
}

proof fn lemma_index_parts(b: Seq<u8>, pos: int, m: IndexFileMetadata)
    requires
        at(b, pos, enc_index(m)),
    ensures
        at(b, pos, enc_str(m.name@)),
        at(b, pos + enc_str(m.name@).len(), enc_str(m.index_type@)),
        at(b, pos + enc_str(m.name@).len() + enc_str(m.index_type@).len(), enc_str(m.file_path@)),
        at(
            b,
            pos + enc_str(m.name@).len() + enc_str(m.index_type@).len() + enc_str(m.file_path@).len(),
            u16_bytes(m.root_page_segment as int),
        ),
        at(
            b,
            pos + enc_str(m.name@).len() + enc_str(m.index_type@).len() + enc_str(m.file_path@).len() + 2,
            u16_bytes(m.root_page_offset as int),
        ),
        at(
            b,
            pos + enc_str(m.name@).len() + enc_str(m.index_type@).len() + enc_str(m.file_path@).len() + 4,
            enc_str(m.column@),
        ),
        enc_index(m).len() == enc_str(m.name@).len() + enc_str(m.index_type@).len() + enc_str(m.file_path@).len()
            + 4 + enc_str(m.column@).len(),
{
    let a = enc_str(m.name@);
    let t = enc_str(m.index_type@);
    let f = enc_str(m.file_path@);
    let s = u16_bytes(m.root_page_segment as int);
    let o = u16_bytes(m.root_page_offset as int);
    let c = enc_str(m.column@);
    lemma_u16_bytes(m.root_page_segment as int);
    lemma_u16_bytes(m.root_page_offset as int);
    lemma_at_concat(b, pos, a + t + f + s + o, c);
    lemma_at_concat(b, pos, a + t + f + s, o);
    lemma_at_concat(b, pos, a + t + f, s);
    lemma_at_concat(b, pos, a + t, f);
    lemma_at_concat(b, pos, a, t);
}

#[verifier::spinoff_prover]
#[verifier::rlimit(100)]
fn decode_index(b: &[u8], pos: usize) -> (r: Option<(IndexFileMetadata, usize)>)
    ensures
        r matches Some((_, p)) ==> pos < p <= b@.len(),
        forall|m: IndexFileMetadata|
            index_fits(m) && #[trigger] at(b@, pos as int, enc_index(m)) ==> (r matches Some((x, p)) && index_view(x)
                == index_view(m) && p == pos + enc_index(m).len()),
{
    let (name, pos0) = match read_str(b, pos) {
        Some(t) => t,
        None => {
            proof {
                assert forall|m: IndexFileMetadata| index_fits(m) && #[trigger] at(b@, pos as int, enc_index(m)) implies false by {
                    lemma_index_parts(b@, pos as int, m);
                }
            }
            return None;
        },
    };
    let (index_type, pos1) = match read_str(b, pos0) {
        Some(t) => t,
        None => {
            proof {
                assert forall|m: IndexFileMetadata| index_fits(m) && #[trigger] at(b@, pos as int, enc_index(m)) implies false by {
                    lemma_index_parts(b@, pos as int, m);
                }
            }
            return None;
        },
    };
    let (file_path, pos2) = match read_str(b, pos1) {
        Some(t) => t,
        None => {
            proof {
                assert forall|m: IndexFileMetadata| index_fits(m) && #[trigger] at(b@, pos as int, enc_index(m)) implies false by {
                    lemma_index_parts(b@, pos as int, m);
                }
            }
            return None;
        },
    };
    let (root_page_segment, pos3) = match read_u16(b, pos2) {
        Some(t) => t,
        None => {
            proof {
                assert forall|m: IndexFileMetadata| index_fits(m) && #[trigger] at(b@, pos as int, enc_index(m)) implies false by {
                    lemma_index_parts(b@, pos as int, m);
                }
            }
            return None;
        },
    };
    let (root_page_offset, pos4) = match read_u16(b, pos3) {
        Some(t) => t,
        None => {
            proof {
                assert forall|m: IndexFileMetadata| index_fits(m) && #[trigger] at(b@, pos as int, enc_index(m)) implies false by {
                    lemma_index_parts(b@, pos as int, m);
                }
            }
            return None;
        },
    };
    let (column, pos5) = match read_str(b, pos4) {
        Some(t) => t,
        None => {
            proof {
                assert forall|m: IndexFileMetadata| index_fits(m) && #[trigger] at(b@, pos as int, enc_index(m)) implies false by {
                    lemma_index_parts(b@, pos as int, m);
                }
            }
            return None;
        },
    };
    let x = IndexFileMetadata { name, index_type, file_path, root_page_segment, root_page_offset, column };
    proof {
        assert forall|m: IndexFileMetadata| index_fits(m) && #[trigger] at(b@, pos as int, enc_index(m)) implies (index_view(x)
            == index_view(m) && pos5 == pos + enc_index(m).len()) by {
            lemma_index_parts(b@, pos as int, m);
        }
    }
    Some((x, pos5))
}

/// Whether a run of columns can be stored.
pub open spec fn columns_fit(vs: Seq<ColumnView>) -> bool {
    vs.len() <= u32::MAX && forall|i: int| 0 <= i < vs.len() ==> column_fits(#[trigger] vs[i])
}

/// What each of `ms` holds.
pub open spec fn index_views(ms: Seq<IndexFileMetadata>) -> Seq<(Seq<char>, Seq<char>, Seq<char>, u16, u16, Seq<char>)> {
    ms.map_values(|m: IndexFileMetadata| index_view(m))
}

/// Whether a run of index records can be stored.
pub open spec fn indexes_fit(ms: Seq<IndexFileMetadata>) -> bool {
    ms.len() <= u32::MAX && forall|i: int| 0 <= i < ms.len() ==> index_fits(#[trigger] ms[i])
}

proof fn lemma_columns_prefix(vs: Seq<ColumnView>, i: int)
    requires
        0 <= i < vs.len(),
    ensures
        enc_columns(vs.take(i + 1)) == enc_columns(vs.take(i)) + enc_column(vs[i]),
        enc_columns(vs) == enc_columns(vs.take(i + 1)) + enc_columns(vs).subrange(
            enc_columns(vs.take(i + 1)).len() as int,
            enc_columns(vs).len() as int,
        ),
    decreases vs.len(),
{
    assert(vs.take(i + 1).drop_last() =~= vs.take(i));
    if i + 1 == vs.len() {
        assert(vs.take(i + 1) =~= vs);
        assert(enc_columns(vs) =~= enc_columns(vs.take(i + 1)) + enc_columns(vs).subrange(
            enc_columns(vs.take(i + 1)).len() as int,
            enc_columns(vs).len() as int,
        ));
    } else {
        let d = vs.drop_last();
        lemma_columns_prefix(d, i);
        assert(d.take(i) =~= vs.take(i));
        assert(d.take(i + 1) =~= vs.take(i + 1));
        assert(enc_columns(vs) =~= enc_columns(vs.take(i + 1)) + enc_columns(vs).subrange(
            enc_columns(vs.take(i + 1)).len() as int,
            enc_columns(vs).len() as int,
        ));
    }
}

proof fn lemma_columns_step(b: Seq<u8>, pos: int, vs: Seq<ColumnView>, i: int, q: int)
    requires
        at(b, pos, u32_bytes(vs.len() as int) + enc_columns(vs)),
        vs.len() <= u32::MAX,
        0 <= i < vs.len(),
        q == pos + 4 + enc_columns(vs.take(i)).len(),
    ensures
        at(b, q, enc_column(vs[i])),
        q + enc_column(vs[i]).len() == pos + 4 + enc_columns(vs.take(i + 1)).len(),
{
    lemma_u32_bytes(vs.len() as int);
    lemma_at_concat(b, pos, u32_bytes(vs.len() as int), enc_columns(vs));
    lemma_columns_prefix(vs, i);
    let t = enc_columns(vs);
    let rest = t.subrange(enc_columns(vs.take(i + 1)).len() as int, t.len() as int);
    lemma_at_concat(b, pos + 4, enc_columns(vs.take(i + 1)), rest);
    lemma_at_concat(b, pos + 4, enc_columns(vs.take(i)), enc_column(vs[i]));
}

/// Decodes a column count and that many columns.
#[verifier::spinoff_prover]
fn decode_columns(b: &[u8], pos: usize) -> (r: Option<(Vec<Column>, usize)>)
    ensures
        r matches Some((_, p)) ==> pos < p <= b@.len(),
        forall|vs: Seq<ColumnView>|
            columns_fit(vs) && #[trigger] at(b@, pos as int, u32_bytes(vs.len() as int) + enc_columns(vs)) ==> (r matches Some((
                x,
                p,
            )) && column_views(x@) == vs && p == pos + 4 + enc_columns(vs).len()),
{
    let (n, start) = match read_u32(b, pos) {
        Some(t) => t,
        None => {
            proof {
                assert forall|vs: Seq<ColumnView>| columns_fit(vs) && #[trigger] at(b@, pos as int, u32_bytes(vs.len() as int)
                    + enc_columns(vs)) implies false by {
                    lemma_at_concat(b@, pos as int, u32_bytes(vs.len() as int), enc_columns(vs));
                }
            }
            return None;
        },
    };
    proof {
        assert forall|vs: Seq<ColumnView>| columns_fit(vs) && #[trigger] at(b@, pos as int, u32_bytes(vs.len() as int)
            + enc_columns(vs)) implies n == vs.len() by {
            lemma_at_concat(b@, pos as int, u32_bytes(vs.len() as int), enc_columns(vs));
            let w = vs.len() as u32;
            assert(at(b@, pos as int, u32_bytes(w as int)));
        }
    }
    let mut columns: Vec<Column> = Vec::new();
    let mut p = start;
    let mut i: u32 = 0;
    while i < n
        invariant
            i <= n,
            pos < p <= b@.len(),
            columns@.len() == i,
            forall|vs: Seq<ColumnView>|
                columns_fit(vs) && #[trigger] at(b@, pos as int, u32_bytes(vs.len() as int) + enc_columns(vs)) ==> (n
                    == vs.len() && p == pos + 4 + enc_columns(vs.take(i as int)).len() && column_views(columns@)
                    == vs.take(i as int)),
        decreases n - i,
    {
        proof {
            assert forall|vs: Seq<ColumnView>| columns_fit(vs) && #[trigger] at(b@, pos as int, u32_bytes(vs.len() as int)
                + enc_columns(vs)) implies at(b@, p as int, enc_column(vs[i as int])) by {
                lemma_columns_step(b@, pos as int, vs, i as int, p as int);
            }
        }
        let ghost old_p = p;
        let ghost old_columns = columns@;
        let (c, q) = match decode_column(b, p) {
            Some(t) => t,
            None => {
                proof {
                    assert forall|vs: Seq<ColumnView>| columns_fit(vs) && #[trigger] at(b@, pos as int, u32_bytes(vs.len() as int)
                        + enc_columns(vs)) implies false by {
                        assert(column_fits(vs[i as int]));
                    }
                }
                return None;
            },
        };
        let ghost cv = c@;
        columns.push(c);
        p = q;
        i = i + 1;
        proof {
            assert forall|vs: Seq<ColumnView>| columns_fit(vs) && #[trigger] at(b@, pos as int, u32_bytes(vs.len() as int)
                + enc_columns(vs)) implies (p == pos + 4 + enc_columns(vs.take(i as int)).len() && column_views(columns@)
                == vs.take(i as int)) by {
                lemma_columns_step(b@, pos as int, vs, i - 1, old_p as int);
                assert(column_fits(vs[i - 1]));
                assert(cv == vs[i - 1]);
                assert(column_views(old_columns) == vs.take(i - 1));
                assert(column_views(columns@) =~= vs.take(i as int)) by {
                    assert forall|k: int| 0 <= k < i implies #[trigger] column_views(columns@)[k] == vs.take(i as int)[k] by {
                        if k < i - 1 {
                            assert(columns@[k] == old_columns[k]);
                            assert(column_views(old_columns)[k] == vs.take(i - 1)[k]);
                        }
                    }
                }
            }
        }
    }
    proof {
        assert forall|vs: Seq<ColumnView>| columns_fit(vs) && #[trigger] at(b@, pos as int, u32_bytes(vs.len() as int)
            + enc_columns(vs)) implies (column_views(columns@) == vs && p == pos + 4 + enc_columns(vs).len()) by {
            assert(vs.take(n as int) =~= vs);
        }
    }
    Some((columns, p))
}

proof fn lemma_indexes_prefix(ms: Seq<IndexFileMetadata>, i: int)
    requires
        0 <= i < ms.len(),
    ensures
        enc_indexes(ms.take(i + 1)) == enc_indexes(ms.take(i)) + enc_index(ms[i]),
        enc_indexes(ms) == enc_indexes(ms.take(i + 1)) + enc_indexes(ms).subrange(
            enc_indexes(ms.take(i + 1)).len() as int,
            enc_indexes(ms).len() as int,
        ),
    decreases ms.len(),
{
    assert(ms.take(i + 1).drop_last() =~= ms.take(i));
    if i + 1 == ms.len() {
        assert(ms.take(i + 1) =~= ms);
        assert(enc_indexes(ms) =~= enc_indexes(ms.take(i + 1)) + enc_indexes(ms).subrange(
            enc_indexes(ms.take(i + 1)).len() as int,
            enc_indexes(ms).len() as int,
        ));
    } else {
        let d = ms.drop_last();
        lemma_indexes_prefix(d, i);
        assert(d.take(i) =~= ms.take(i));
        assert(d.take(i + 1) =~= ms.take(i + 1));
        assert(enc_indexes(ms) =~= enc_indexes(ms.take(i + 1)) + enc_indexes(ms).subrange(
            enc_indexes(ms.take(i + 1)).len() as int,
            enc_indexes(ms).len() as int,
        ));
    }
}

proof fn lemma_indexes_step(b: Seq<u8>, pos: int, ms: Seq<IndexFileMetadata>, i: int, q: int)
    requires
        at(b, pos, u32_bytes(ms.len() as int) + enc_indexes(ms)),
        ms.len() <= u32::MAX,
        0 <= i < ms.len(),
        q == pos + 4 + enc_indexes(ms.take(i)).len(),
    ensures
        at(b, q, enc_index(ms[i])),
        q + enc_index(ms[i]).len() == pos + 4 + enc_indexes(ms.take(i + 1)).len(),
{
    lemma_u32_bytes(ms.len() as int);
    lemma_at_concat(b, pos, u32_bytes(ms.len() as int), enc_indexes(ms));
    lemma_indexes_prefix(ms, i);
    let t = enc_indexes(ms);
    let rest = t.subrange(enc_indexes(ms.take(i + 1)).len() as int, t.len() as int);
    lemma_at_concat(b, pos + 4, enc_indexes(ms.take(i + 1)), rest);
    lemma_at_concat(b, pos + 4, enc_indexes(ms.take(i)), enc_index(ms[i]));
}

/// Decodes an index record count and that many records.
#[verifier::spinoff_prover]
fn decode_indexes(b: &[u8], pos: usize) -> (r: Option<(Vec<IndexFileMetadata>, usize)>)
    ensures
        r matches Some((_, p)) ==> pos < p <= b@.len(),
        forall|ms: Seq<IndexFileMetadata>|
            indexes_fit(ms) && #[trigger] at(b@, pos as int, u32_bytes(ms.len() as int) + enc_indexes(ms)) ==> (r matches Some((
                x,
                p,
            )) && index_views(x@) == index_views(ms) && p == pos + 4 + enc_indexes(ms).len()),
{
    let (n, start) = match read_u32(b, pos) {
        Some(t) => t,
        None => {
            proof {
                assert forall|ms: Seq<IndexFileMetadata>| indexes_fit(ms) && #[trigger] at(b@, pos as int, u32_bytes(ms.len() as int)
                    + enc_indexes(ms)) implies false by {
                    lemma_at_concat(b@, pos as int, u32_bytes(ms.len() as int), enc_indexes(ms));
                }
            }
            return None;
        },
    };
    proof {
        assert forall|ms: Seq<IndexFileMetadata>| indexes_fit(ms) && #[trigger] at(b@, pos as int, u32_bytes(ms.len() as int)
            + enc_indexes(ms)) implies n == ms.len() by {
            lemma_at_concat(b@, pos as int, u32_bytes(ms.len() as int), enc_indexes(ms));
            let w = ms.len() as u32;
            assert(at(b@, pos as int, u32_bytes(w as int)));
        }
    }
    let mut out: Vec<IndexFileMetadata> = Vec::new();
    let mut p = start;
    let mut i: u32 = 0;
    while i < n
        invariant
            i <= n,
            pos < p <= b@.len(),
            out@.len() == i,
            forall|ms: Seq<IndexFileMetadata>|
                indexes_fit(ms) && #[trigger] at(b@, pos as int, u32_bytes(ms.len() as int) + enc_indexes(ms)) ==> (n
                    == ms.len() && p == pos + 4 + enc_indexes(ms.take(i as int)).len() && index_views(out@)
                    == index_views(ms.take(i as int))),
        decreases n - i,
    {
        proof {
            assert forall|ms: Seq<IndexFileMetadata>| indexes_fit(ms) && #[trigger] at(b@, pos as int, u32_bytes(ms.len() as int)
                + enc_indexes(ms)) implies at(b@, p as int, enc_index(ms[i as int])) by {
                lemma_indexes_step(b@, pos as int, ms, i as int, p as int);
            }
        }
        let ghost old_p = p;
        let ghost old_out = out@;
        let (m, q) = match decode_index(b, p) {
            Some(t) => t,
            None => {
                proof {
                    assert forall|ms: Seq<IndexFileMetadata>| indexes_fit(ms) && #[trigger] at(b@, pos as int, u32_bytes(ms.len() as int)
                        + enc_indexes(ms)) implies false by {
                        assert(index_fits(ms[i as int]));
                    }
                }
                return None;
            },
        };
        let ghost mv = index_view(m);
        out.push(m);
        p = q;
        i = i + 1;
        proof {
            assert forall|ms: Seq<IndexFileMetadata>| indexes_fit(ms) && #[trigger] at(b@, pos as int, u32_bytes(ms.len() as int)
                + enc_indexes(ms)) implies (p == pos + 4 + enc_indexes(ms.take(i as int)).len() && index_views(out@)
                == index_views(ms.take(i as int))) by {
                lemma_indexes_step(b@, pos as int, ms, i - 1, old_p as int);
                assert(index_fits(ms[i - 1]));
                assert(mv == index_view(ms[i - 1]));
                assert(index_views(old_out) == index_views(ms.take(i - 1)));
                assert(index_views(out@) =~= index_views(ms.take(i as int))) by {
                    assert forall|k: int| 0 <= k < i implies #[trigger] index_views(out@)[k] == index_views(ms.take(i as int))[k] by {
                        if k < i - 1 {
                            assert(out@[k] == old_out[k]);
                            assert(index_views(old_out)[k] == index_views(ms.take(i - 1))[k]);
                        }
                    }
                }
            }
        }
    }
    proof {
        assert forall|ms: Seq<IndexFileMetadata>| indexes_fit(ms) && #[trigger] at(b@, pos as int, u32_bytes(ms.len() as int)
            + enc_indexes(ms)) implies (index_views(out@) == index_views(ms) && p == pos + 4 + enc_indexes(ms).len()) by {
            assert(ms.take(n as int) =~= ms);
        }
    }
    Some((out, p))
}

/// What a stored primary index field holds.
pub open spec fn primary_view(o: Option<IndexFileMetadata>) -> Option<(Seq<char>, Seq<char>, Seq<char>, u16, u16, Seq<char>)> {
    match o {
        Some(m) => Some(index_view(m)),
        None => None,
    }
}

/// Decodes a primary index field.
#[verifier::spinoff_prover]
fn decode_primary(b: &[u8], pos: usize) -> (r: Option<(Option<IndexFileMetadata>, usize)>)
    ensures
        r matches Some((_, p)) ==> pos < p <= b@.len(),
        forall|o: Option<IndexFileMetadata>|
            (o matches Some(m) ==> index_fits(m)) && #[trigger] at(b@, pos as int, enc_primary(o)) ==> (r matches Some((x, p))
                && primary_view(x) == primary_view(o) && p == pos + enc_primary(o).len()),
{
    let (flag, p) = match read_u8(b, pos) {
        Some(t) => t,
        None => {
            proof {
                assert forall|o: Option<IndexFileMetadata>| (o matches Some(m) ==> index_fits(m)) && #[trigger] at(b@, pos as int, enc_primary(o)) implies false by {
                    lemma_first_byte(b@, pos as int, enc_primary(o));
                }
            }
            return None;
        },
    };
    proof {
        assert forall|o: Option<IndexFileMetadata>| (o matches Some(m) ==> index_fits(m)) && #[trigger] at(b@, pos as int, enc_primary(o)) implies flag == enc_primary(o)[0] by {
            lemma_first_byte(b@, pos as int, enc_primary(o));
        }
    }
    if flag == 0 {
        return Some((None, p));
    }
    if flag != 1 {
        return None;
    }
    match decode_index(b, p) {
        Some((m, q)) => {
            proof {
                assert forall|o: Option<IndexFileMetadata>| (o matches Some(m) ==> index_fits(m)) && #[trigger] at(b@, pos as int, enc_primary(o)) implies (primary_view(Some(m)) == primary_view(o) && q == pos + enc_primary(o).len()) by {
                    if let Some(n) = o {
                        lemma_at_concat(b@, pos as int, seq![1u8], enc_index(n));
                    }
                }
            }
            Some((Some(m), q))
        },
        None => {
            proof {
                assert forall|o: Option<IndexFileMetadata>| (o matches Some(m) ==> index_fits(m)) && #[trigger] at(b@, pos as int, enc_primary(o)) implies false by {
                    if let Some(n) = o {
                        lemma_at_concat(b@, pos as int, seq![1u8], enc_index(n));
                    }
                }
            }
            None
        },
    }
}

/// What a table record holds, strings as characters.
pub open spec fn table_view(t: TableFileMetadata) -> (
    Seq<char>,
    Seq<char>,
    Seq<ColumnView>,
    u32,
    Option<(Seq<char>, Seq<char>, Seq<char>, u16, u16, Seq<char>)>,
    Seq<(Seq<char>, Seq<char>, Seq<char>, u16, u16, Seq<char>)>,
) {
    (
        t.name@,
        t.file_path@,
        column_views(t.schema.columns@),
        t.next_segment_id,
        primary_view(t.primary_index),
        index_views(t.secondary_indexes@),
    )
}

/// Whether the fields before a table record's primary index can be stored.
pub open spec fn head_fits(t: TableFileMetadata) -> bool {
    str_fits(t.name@) && str_fits(t.file_path@) && columns_fit(column_views(t.schema.columns@))
}

/// Whether a table record can be stored.
pub open spec fn table_fits(t: TableFileMetadata) -> bool {
    &&& head_fits(t)
    &&& (t.primary_index matches Some(m) ==> index_fits(m))
    &&& indexes_fit(t.secondary_indexes@)
}

proof fn lemma_head_parts(b: Seq<u8>, pos: int, t: TableFileMetadata)
    requires
        at(b, pos, enc_head(t)),
    ensures
        at(b, pos, enc_str(t.name@)),
        at(b, pos + enc_str(t.name@).len(), enc_str(t.file_path@)),
        at(
            b,
            pos + enc_str(t.name@).len() + enc_str(t.file_path@).len(),
            u32_bytes(t.schema.columns@.len() as int) + enc_columns(column_views(t.schema.columns@)),
        ),
        at(
            b,
            pos + enc_str(t.name@).len() + enc_str(t.file_path@).len() + 4 + enc_columns(
                column_views(t.schema.columns@),
            ).len(),
            u32_bytes(t.next_segment_id as int),
        ),
        enc_head(t).len() == enc_str(t.name@).len() + enc_str(t.file_path@).len() + 4 + enc_columns(
            column_views(t.schema.columns@),
        ).len() + 4,
{
    reveal(enc_head);
    let a = enc_str(t.name@);
    let f = enc_str(t.file_path@);
    let u = u32_bytes(t.schema.columns@.len() as int);
    let e = enc_columns(column_views(t.schema.columns@));
    let nx = u32_bytes(t.next_segment_id as int);
    lemma_u32_bytes(t.next_segment_id as int);
    lemma_u32_bytes(t.schema.columns@.len() as int % 0x1_0000_0000);
    lemma_at_concat(b, pos, a + f + u + e, nx);
    lemma_at_concat(b, pos, a + f + u, e);
    lemma_at_concat(b, pos, a + f, u);
    lemma_at_concat(b, pos, a, f);
    lemma_at_join(b, pos + a.len() + f.len(), u, e);
}

proof fn lemma_at_join(b: Seq<u8>, pos: int, t1: Seq<u8>, t2: Seq<u8>)
    requires
        at(b, pos, t1),
        at(b, pos + t1.len(), t2),
    ensures
        at(b, pos, t1 + t2),
{
    assert(b.subrange(pos, pos + t1.len() + t2.len()) =~= b.subrange(pos, pos + t1.len()) + b.subrange(
        pos + t1.len(),
        pos + t1.len() + t2.len(),
    ));
}

/// Decodes the fields of a table record before its primary index field.
#[verifier::spinoff_prover]
#[verifier::rlimit(100)]
fn decode_head(b: &[u8], pos: usize) -> (r: Option<(String, String, Vec<Column>, u32, usize)>)
    ensures
        r matches Some((_, _, _, _, p)) ==> pos < p <= b@.len(),
        forall|t: TableFileMetadata|
            head_fits(t) && #[trigger] at(b@, pos as int, enc_head(t)) ==> (r matches Some((n, f, cs, nx, p)) && n@
                == t.name@ && f@ == t.file_path@ && column_views(cs@) == column_views(t.schema.columns@) && nx
                == t.next_segment_id && p == pos + enc_head(t).len()),
{
    let (name, pos0) = match read_str(b, pos) {
        Some(t) => t,
        None => {
            proof {
                assert forall|t: TableFileMetadata| head_fits(t) && #[trigger] at(b@, pos as int, enc_head(t)) implies false by {
                    lemma_head_parts(b@, pos as int, t);
                }
            }
            return None;
        },
    };
    let (file_path, pos1) = match read_str(b, pos0) {
        Some(t) => t,
        None => {
            proof {
                assert forall|t: TableFileMetadata| head_fits(t) && #[trigger] at(b@, pos as int, enc_head(t)) implies false by {
                    lemma_head_parts(b@, pos as int, t);
                }
            }
            return None;
        },
    };
    let (columns, pos2) = match decode_columns(b, pos1) {
        Some(t) => t,
        None => {
            proof {
                assert forall|t: TableFileMetadata| head_fits(t) && #[trigger] at(b@, pos as int, enc_head(t)) implies false by {
                    lemma_head_parts(b@, pos as int, t);
                }
            }
            return None;
        },
    };
    let (next_segment_id, pos3) = match read_u32(b, pos2) {
        Some(t) => t,
        None => {
            proof {
                assert forall|t: TableFileMetadata| head_fits(t) && #[trigger] at(b@, pos as int, enc_head(t)) implies false by {
                    lemma_head_parts(b@, pos as int, t);
                    lemma_u32_bytes(t.next_segment_id as int);
                }
            }
            return None;
        },
    };
    proof {
        assert forall|t: TableFileMetadata| head_fits(t) && #[trigger] at(b@, pos as int, enc_head(t)) implies (name@
            == t.name@ && file_path@ == t.file_path@ && column_views(columns@) == column_views(t.schema.columns@)
            && next_segment_id == t.next_segment_id && pos3 == pos + enc_head(t).len()) by {
            lemma_head_parts(b@, pos as int, t);
        }
    }
    Some((name, file_path, columns, next_segment_id, pos3))
}

proof fn lemma_table_parts(b: Seq<u8>, pos: int, t: TableFileMetadata)
    requires
        at(b, pos, enc_table(t)),
    ensures
        at(b, pos, enc_head(t)),
        at(b, pos + enc_head(t).len(), enc_primary(t.primary_index)),
        at(
            b,
            pos + enc_head(t).len() + enc_primary(t.primary_index).len(),
            u32_bytes(t.secondary_indexes@.len() as int) + enc_indexes(t.secondary_indexes@),
        ),
        enc_table(t).len() == enc_head(t).len() + enc_primary(t.primary_index).len() + 4 + enc_indexes(
            t.secondary_indexes@,
        ).len(),
{
    lemma_at_concat(b, pos, enc_head(t) + enc_primary(t.primary_index), enc_tail(t));
    lemma_at_concat(b, pos, enc_head(t), enc_primary(t.primary_index));
    reveal(enc_tail);
    lemma_u32_bytes(t.secondary_indexes@.len() as int % 0x1_0000_0000);
}

/// Decodes a table record.
#[verifier::spinoff_prover]
#[verifier::rlimit(100)]
fn decode_table(b: &[u8], pos: usize) -> (r: Option<(TableFileMetadata, usize)>)
    ensures
        r matches Some((_, p)) ==> pos < p <= b@.len(),
        forall|t: TableFileMetadata|
            table_fits(t) && #[trigger] at(b@, pos as int, enc_table(t)) ==> (r matches Some((x, p)) && table_view(x)
                == table_view(t) && p == pos + enc_table(t).len()),
{
    let (name, file_path, columns, next_segment_id, pos3) = match decode_head(b, pos) {
        Some(t) => t,
        None => {
            proof {
                assert forall|t: TableFileMetadata| table_fits(t) && #[trigger] at(b@, pos as int, enc_table(t)) implies false by {
                    lemma_table_parts(b@, pos as int, t);
                }
            }
            return None;
        },
    };
    let (primary_index, pos4) = match decode_primary(b, pos3) {
        Some(t) => t,
        None => {
            proof {
                assert forall|t: TableFileMetadata| table_fits(t) && #[trigger] at(b@, pos as int, enc_table(t)) implies false by {
                    lemma_table_parts(b@, pos as int, t);
                }
            }
            return None;
        },
    };
    let (secondary_indexes, pos5) = match decode_indexes(b, pos4) {
        Some(t) => t,
        None => {
            proof {
                assert forall|t: TableFileMetadata| table_fits(t) && #[trigger] at(b@, pos as int, enc_table(t)) implies false by {
                    lemma_table_parts(b@, pos as int, t);
                }
            }
            return None;
        },
    };
    let x = TableFileMetadata {
        name,
        file_path,
        schema: Schema { columns },
        next_segment_id,
        primary_index,
        secondary_indexes,
    };
    proof {
        assert forall|t: TableFileMetadata| table_fits(t) && #[trigger] at(b@, pos as int, enc_table(t)) implies (table_view(x)
            == table_view(t) && pos5 == pos + enc_table(t).len()) by {
            lemma_table_parts(b@, pos as int, t);
        }
    }
    Some((x, pos5))
}

} // verus!
