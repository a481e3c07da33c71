//! Cell values, rows, columns and schemas.

use vstd::prelude::*;
use vstd::utf8::encode_utf8;
use crate::error::StorageError;

verus! {

/// One cell.
#[derive(Debug, Clone)]
pub enum Value {
    Null,
    Int(i64),
    /// A 64-bit IEEE-754 number, held as its bit pattern.
    Float(u64),
    String(String),
    Bool(bool),
    /// A value of an extension type: the type's oid and an opaque payload.
    Extension { type_oid: u32, data: Vec<u8> },
}

/// What a cell holds.
pub enum ValueView {
    Null,
    Int(i64),
    Float(u64),
    Str(Seq<char>),
    Bool(bool),
    Extension(u32, Seq<u8>),
}

impl View for Value {
    type V = ValueView;

    open spec fn view(&self) -> ValueView {
        match self {
            Value::Null => ValueView::Null,
            Value::Int(n) => ValueView::Int(*n),
            Value::Float(f) => ValueView::Float(*f),
            Value::String(s) => ValueView::Str(s@),
            Value::Bool(b) => ValueView::Bool(*b),
            Value::Extension { type_oid, data } => ValueView::Extension(*type_oid, data@),
        }
    }
}

/// The index key of a cell: an integer's two's-complement bits, a float's
/// bit pattern, a string's rolling hash over its UTF-8 bytes, 0 or 1 for a
/// boolean; a null or extension value has none.
pub open spec fn key_of(v: ValueView) -> Option<u64> {
    match v {
        ValueView::Int(n) => Some(n as u64),
        ValueView::Float(f) => Some(f),
        ValueView::Str(s) => Some(rolling_hash(encode_utf8(s))),
        ValueView::Bool(b) => Some(if b { 1u64 } else { 0u64 }),
        _ => None,
    }
}

/// The rolling multiply-add hash `acc = acc * 31 + byte` over `b`, modulo 2^64.
pub open spec fn rolling_hash(b: Seq<u8>) -> u64
    decreases b.len(),
{
    if b.len() == 0 {
        0
    } else {
        ((rolling_hash(b.drop_last()) as int * 31 + b.last() as int) % 0x1_0000_0000_0000_0000) as u64
    }
}

/// Computes `rolling_hash` of `data`.
pub fn rolling_hash_of(data: &[u8]) -> (r: u64)
    ensures
        r == rolling_hash(data@),
{
    let mut acc: u64 = 0;
    let mut i: usize = 0;
    while i < data.len()
        invariant
            i <= data@.len(),
            acc == rolling_hash(data@.take(i as int)),
        decreases data@.len() - i,
    {
        proof {
            assert(data@.take(i + 1).drop_last() =~= data@.take(i as int));
        }
        acc = acc.wrapping_mul(31).wrapping_add(data[i] as u64);
        i = i + 1;
    }
    assert(data@.take(i as int) =~= data@);
    acc
}

impl Value {
    /// The index key of this value; a null or extension value is refused.
    pub fn key(&self) -> (r: Result<u64, StorageError>)
        ensures
            match r {
                Ok(k) => key_of(self@) == Some(k),
                Err(e) => key_of(self@) is None && e == StorageError::Invalid("value cannot be an index key"),
            },
    {
        match self {
            Value::Int(n) => Ok(*n as u64),
            Value::Float(f) => Ok(*f),
            Value::String(s) => Ok(rolling_hash_of(s.as_str().as_bytes())),
            Value::Bool(b) => Ok(if *b { 1 } else { 0 }),
            _ => Err(StorageError::Invalid("value cannot be an index key")),
        }
    }

    pub fn as_i32(&self) -> (r: Option<i32>)
        ensures
            r == match self@ {
                ValueView::Int(n) => Some(n as i32),
                _ => None::<i32>,
            },
    {
        match self {
            Value::Int(n) => Some(*n as i32),
            _ => None,
        }
    }
}

/// One row: its cells in column order.
#[derive(Debug, Clone)]
pub struct Row {
    pub values: Vec<Value>,
}

/// What each of `vals` holds.
pub open spec fn views_of(vals: Seq<Value>) -> Seq<ValueView> {
    vals.map_values(|v: Value| v@)
}

impl View for Row {
    type V = Seq<ValueView>;

    open spec fn view(&self) -> Seq<ValueView> {
        views_of(self.values@)
    }
}

impl Row {
    pub fn new(values: Vec<Value>) -> (r: Self)
        ensures
            r.values@ == values@,
    {
        Row { values }
    }

    pub fn get(&self, idx: usize) -> (r: Option<&Value>)
        ensures
            match r {
                Some(v) => idx < self.values@.len() && *v == self.values@[idx as int],
                None => idx >= self.values@.len(),
            },
    {
        if idx < self.values.len() {
            Some(&self.values[idx])
        } else {
            None
        }
    }

    pub fn len(&self) -> (r: usize)
        ensures
            r == self.values@.len(),
    {
        self.values.len()
    }

    pub fn is_empty(&self) -> (r: bool)
        ensures
            r == (self.values@.len() == 0),
    {
        self.values.len() == 0
    }
}

/// The type of a column.
#[derive(Debug, Clone)]
pub enum DataType {
    Int,
    Float,
    String,
    Bool,
    Null,
    /// A type registered by an extension.
    Extension { type_oid: u32, name: String },
}

/// What a column type is.
pub enum DataTypeView {
    Int,
    Float,
    Str,
    Bool,
    Null,
    Extension(u32, Seq<char>),
}

impl View for DataType {
    type V = DataTypeView;

    open spec fn view(&self) -> DataTypeView {
        match self {
            DataType::Int => DataTypeView::Int,
            DataType::Float => DataTypeView::Float,
            DataType::String => DataTypeView::Str,
            DataType::Bool => DataTypeView::Bool,
            DataType::Null => DataTypeView::Null,
            DataType::Extension { type_oid, name } => DataTypeView::Extension(*type_oid, name@),
        }
    }
}

/// What a column is.
pub struct ColumnView {
    pub name: Seq<char>,
    pub data_type: DataTypeView,
    pub is_primary_key: bool,
}

impl View for Column {
    type V = ColumnView;

    open spec fn view(&self) -> ColumnView {
        ColumnView { name: self.name@, data_type: self.data_type@, is_primary_key: self.is_primary_key }
    }
}

/// What each of `cols` is.
pub open spec fn column_views(cols: Seq<Column>) -> Seq<ColumnView> {
    cols.map_values(|c: Column| c@)
}

/// A column of a schema.
#[derive(Debug, Clone)]
pub struct Column {
    pub name: String,
    pub data_type: DataType,
    pub is_primary_key: bool,
}

/// The shape of a table: its columns in order.
#[derive(Debug, Clone)]
pub struct Schema {
    pub columns: Vec<Column>,
}

/// The ASCII lower case of a byte.
pub open spec fn ascii_lower(b: u8) -> u8 {
    if 65 <= b <= 90 { (b + 32) as u8 } else { b }
}

/// Whether two byte strings are equal up to ASCII case.
pub open spec fn eq_ignore_ascii_case(a: Seq<u8>, b: Seq<u8>) -> bool {
    a.len() == b.len() && forall|i: int| 0 <= i < a.len() ==> ascii_lower(a[i]) == ascii_lower(b[i])
}

/// Compares two strings' UTF-8 bytes up to ASCII case.
pub fn same_ignoring_ascii_case(a: &str, b: &str) -> (r: bool)
    ensures
        r == eq_ignore_ascii_case(encode_utf8(a@), encode_utf8(b@)),
{
    let x = a.as_bytes();
    let y = b.as_bytes();
    assert(x@ == encode_utf8(a@));
    assert(y@ == encode_utf8(b@));
    if x.len() != y.len() {
        return false;
    }
    let mut i: usize = 0;
    while i < x.len()
        invariant
            x@ == encode_utf8(a@),
            y@ == encode_utf8(b@),
            x@.len() == y@.len(),
            i <= x@.len(),
            forall|j: int| 0 <= j < i ==> ascii_lower(x@[j]) == ascii_lower(y@[j]),
        decreases x@.len() - i,
    {
        let p = if 65 <= x[i] && x[i] <= 90 { x[i] + 32 } else { x[i] };
        let q = if 65 <= y[i] && y[i] <= 90 { y[i] + 32 } else { y[i] };
        assert(p == ascii_lower(x@[i as int]));
        assert(q == ascii_lower(y@[i as int]));
        if p != q {
            assert(ascii_lower(x@[i as int]) != ascii_lower(y@[i as int]));
            return false;
        }
        i = i + 1;
    }
    true
}

impl DataType {
    /// A copy of this type.
    pub fn copy(&self) -> (r: Self)
        ensures
            r@ == self@,
    {
        match self {
            DataType::Int => DataType::Int,
            DataType::Float => DataType::Float,
            DataType::String => DataType::String,
            DataType::Bool => DataType::Bool,
            DataType::Null => DataType::Null,
            DataType::Extension { type_oid, name } => DataType::Extension { type_oid: *type_oid, name: name.clone() },
        }
    }
}

impl Column {
    /// A copy of this column.
    pub fn copy(&self) -> (r: Self)
        ensures
            r@ == self@,
    {
        Column { name: self.name.clone(), data_type: self.data_type.copy(), is_primary_key: self.is_primary_key }
    }
}

impl Schema {
    /// A copy of this schema.
    pub fn copy(&self) -> (r: Self)
        ensures
            column_views(r.columns@) == column_views(self.columns@),
    {
        let mut columns: Vec<Column> = Vec::new();
        let mut i: usize = 0;
        while i < self.columns.len()
            invariant
                i <= self.columns@.len(),
                columns@.len() == i,
                forall|k: int| 0 <= k < i ==> #[trigger] columns@[k]@ == self.columns@[k]@,
            decreases self.columns@.len() - i,
        {
            columns.push(self.columns[i].copy());
            i = i + 1;
        }
        let r = Schema { columns };
        assert(column_views(r.columns@) =~= column_views(self.columns@));
        r
    }

    pub fn new(columns: Vec<Column>) -> (r: Self)
        ensures
            r.columns@ == columns@,
    {
        Schema { columns }
    }

    /// The position of the first column named `name`, up to ASCII case.
    pub fn get_column_index(&self, name: &str) -> (r: Option<usize>)
        ensures
            match r {
                Some(i) => i < self.columns@.len() && eq_ignore_ascii_case(
                    encode_utf8(self.columns@[i as int].name@),
                    encode_utf8(name@),
                ) && forall|j: int|
                    0 <= j < i ==> !eq_ignore_ascii_case(encode_utf8(self.columns@[j].name@), encode_utf8(name@)),
                None => forall|j: int|
                    0 <= j < self.columns@.len() ==> !eq_ignore_ascii_case(
                        encode_utf8(self.columns@[j].name@),
                        encode_utf8(name@),
                    ),
            },
    {
        let mut i: usize = 0;
        while i < self.columns.len()
            invariant
                i <= self.columns@.len(),
                forall|j: int|
                    0 <= j < i ==> !eq_ignore_ascii_case(encode_utf8(self.columns@[j].name@), encode_utf8(name@)),
            decreases self.columns@.len() - i,
        {
            if same_ignoring_ascii_case(self.columns[i].name.as_str(), name) {
                return Some(i);
            }
            i = i + 1;
        }
        None
    }

    pub fn len(&self) -> (r: usize)
        ensures
            r == self.columns@.len(),
    {
        self.columns.len()
    }

    pub fn is_empty(&self) -> (r: bool)
        ensures
            r == (self.columns@.len() == 0),
    {
        self.columns.len() == 0
    }
}

} // verus!
