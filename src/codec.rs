//! The row codec, and the length-prefixed fields it and the catalog are
//! built from. Integers are little-endian; a string is its UTF-8 byte count
//! as a `u32`, then the bytes.

use vstd::prelude::*;
use vstd::utf8::{decode_utf8, encode_utf8, valid_utf8};
use crate::bytes::{
    get_u16, get_u32, get_u64, lemma_u16_bytes, lemma_u32_bytes, lemma_u64_bytes, push_u32, push_u64,
    u16_bytes, u32_at, u32_bytes, u64_at, u64_bytes,
};
use crate::error::StorageError;
use crate::types::{views_of, Row, Value, ValueView};

verus! {

broadcast use vstd::utf8::group_utf8_lib;

/// Whether `b` holds `t` from position `pos` on.
pub open spec fn at(b: Seq<u8>, pos: int, t: Seq<u8>) -> bool {
    0 <= pos && pos + t.len() <= b.len() && b.subrange(pos, pos + t.len()) == t
}

pub proof fn lemma_at_concat(b: Seq<u8>, pos: int, t1: Seq<u8>, t2: Seq<u8>)
    requires
        at(b, pos, t1 + t2),
    ensures
        at(b, pos, t1),
        at(b, pos + t1.len(), t2),
{
    let whole = b.subrange(pos, pos + t1.len() + t2.len());
    assert(whole == t1 + t2);
    assert(b.subrange(pos, pos + t1.len()) =~= whole.subrange(0, t1.len() as int));
    assert((t1 + t2).subrange(0, t1.len() as int) =~= t1);
    assert(b.subrange(pos + t1.len(), pos + t1.len() + t2.len()) =~= whole.subrange(
        t1.len() as int,
        (t1 + t2).len() as int,
    ));
    assert((t1 + t2).subrange(t1.len() as int, (t1 + t2).len() as int) =~= t2);
}

proof fn lemma_at_u32(b: Seq<u8>, pos: int, v: u32)
    requires
        at(b, pos, u32_bytes(v as int)),
    ensures
        u32_at(b, pos) == v,
{
    lemma_u32_bytes(v as int);
    let t = u32_bytes(v as int);
    assert(b[pos] == t[0] && b[pos + 1] == t[1] && b[pos + 2] == t[2] && b[pos + 3] == t[3]) by {
        assert(b.subrange(pos, pos + 4)[0] == b[pos]);
        assert(b.subrange(pos, pos + 4)[1] == b[pos + 1]);
        assert(b.subrange(pos, pos + 4)[2] == b[pos + 2]);
        assert(b.subrange(pos, pos + 4)[3] == b[pos + 3]);
    }
}

proof fn lemma_at_u64(b: Seq<u8>, pos: int, v: u64)
    requires
        at(b, pos, u64_bytes(v as int)),
    ensures
        u64_at(b, pos) == v,
{
    lemma_u64_bytes(v as int);
    let t = u64_bytes(v as int);
    assert forall|k: int| 0 <= k < 8 implies b[pos + k] == t[k] by {
        assert(b.subrange(pos, pos + 8)[k] == b[pos + k]);
    }
}

/// A string as stored: its UTF-8 byte count, then its UTF-8 bytes.
pub open spec fn enc_str(s: Seq<char>) -> Seq<u8> {
    u32_bytes(encode_utf8(s).len() as int) + encode_utf8(s)
}

/// Whether a string's UTF-8 bytes can be counted in a `u32`.
pub open spec fn str_fits(s: Seq<char>) -> bool {
    encode_utf8(s).len() <= u32::MAX
}

/// Relies on std's `String::from_utf8`: it succeeds exactly on valid UTF-8,
/// with the characters those bytes encode.
#[verifier::external_body]
fn string_from_utf8(b: Vec<u8>) -> (r: Option<String>)
    ensures
        match r {
            Some(s) => valid_utf8(b@) && s@ == decode_utf8(b@),
            None => !valid_utf8(b@),
        },
{
    String::from_utf8(b).ok()
}

/// Appends a string as stored; a string too long to count is refused.
pub fn push_str(out: &mut Vec<u8>, s: &str) -> (r: bool)
    ensures
        r == str_fits(s@),
        r ==> final(out)@ == old(out)@ + enc_str(s@),
        !r ==> final(out)@ == old(out)@,
{
    let b = s.as_bytes();
    if b.len() > u32::MAX as usize {
        return false;
    }
    push_u32(out, b.len() as u32);
    let mut i: usize = 0;
    let ghost start = out@;
    while i < b.len()
        invariant
            i <= b@.len(),
            out@ == start + b@.take(i as int),
        decreases b@.len() - i,
    {
        out.push(b[i]);
        i = i + 1;
        assert(out@ =~= start + b@.take(i as int));
    }
    assert(b@.take(i as int) =~= b@);
    assert(out@ =~= old(out)@ + enc_str(s@));
    true
}

/// Reads a `u32` at `pos`; returns it and the position after it.
pub fn read_u32(b: &[u8], pos: usize) -> (r: Option<(u32, usize)>)
    ensures
        r matches Some((v, p)) ==> p == pos + 4 && p <= b@.len() && v == u32_at(b@, pos as int),
        r is Some <==> pos + 4 <= b@.len(),
        forall|v: u32| #[trigger] at(b@, pos as int, u32_bytes(v as int)) ==> r == Some((v, (pos + 4) as usize)),
{
    if pos > b.len() || b.len() - pos < 4 {
        proof {
            assert forall|v: u32| #[trigger] at(b@, pos as int, u32_bytes(v as int)) implies false by {
                lemma_u32_bytes(v as int);
            }
        }
        return None;
    }
    let v = get_u32(b, pos);
    proof {
        assert forall|w: u32| #[trigger] at(b@, pos as int, u32_bytes(w as int)) implies Some((v, (pos + 4) as usize)) == Some((w, (pos + 4) as usize)) by {
            lemma_at_u32(b@, pos as int, w);
        }
    }
    Some((v, pos + 4))
}

/// Reads a byte at `pos`; returns it and the position after it.
pub fn read_u8(b: &[u8], pos: usize) -> (r: Option<(u8, usize)>)
    ensures
        r matches Some((v, p)) ==> p == pos + 1 && p <= b@.len() && v == b@[pos as int],
        r is Some <==> pos < b@.len(),
        forall|v: u8| #[trigger] at(b@, pos as int, seq![v]) ==> r == Some((v, (pos + 1) as usize)),
{
    if pos >= b.len() {
        return None;
    }
    proof {
        assert forall|v: u8| #[trigger] at(b@, pos as int, seq![v]) implies b@[pos as int] == v by {
            assert(b@.subrange(pos as int, pos + 1)[0] == b@[pos as int]);
        }
    }
    Some((b[pos], pos + 1))
}

/// Reads a `u16` at `pos`; returns it and the position after it.
pub fn read_u16(b: &[u8], pos: usize) -> (r: Option<(u16, usize)>)
    ensures
        r matches Some((v, p)) ==> p == pos + 2 && p <= b@.len(),
        forall|v: u16| #[trigger] at(b@, pos as int, u16_bytes(v as int)) ==> r == Some((v, (pos + 2) as usize)),
{
    if pos > b.len() || b.len() - pos < 2 {
        proof {
            assert forall|v: u16| #[trigger] at(b@, pos as int, u16_bytes(v as int)) implies false by {
                lemma_u16_bytes(v as int);
            }
        }
        return None;
    }
    let v = get_u16(b, pos);
    proof {
        assert forall|w: u16| #[trigger] at(b@, pos as int, u16_bytes(w as int)) implies v == w by {
            lemma_u16_bytes(w as int);
            assert(b@.subrange(pos as int, pos + 2)[0] == b@[pos as int]);
            assert(b@.subrange(pos as int, pos + 2)[1] == b@[pos + 1]);
        }
    }
    Some((v, pos + 2))
}

/// Reads a `u64` at `pos`; returns it and the position after it.
pub fn read_u64(b: &[u8], pos: usize) -> (r: Option<(u64, usize)>)
    ensures
        r matches Some((v, p)) ==> p == pos + 8 && p <= b@.len() && v == u64_at(b@, pos as int),
        r is Some <==> pos + 8 <= b@.len(),
        forall|v: u64| #[trigger] at(b@, pos as int, u64_bytes(v as int)) ==> r == Some((v, (pos + 8) as usize)),
{
    if pos > b.len() || b.len() - pos < 8 {
        proof {
            assert forall|v: u64| #[trigger] at(b@, pos as int, u64_bytes(v as int)) implies false by {
                lemma_u64_bytes(v as int);
            }
        }
        return None;
    }
    let v = get_u64(b, pos);
    proof {
        assert forall|w: u64| #[trigger] at(b@, pos as int, u64_bytes(w as int)) implies Some((v, (pos + 8) as usize)) == Some((w, (pos + 8) as usize)) by {
            lemma_at_u64(b@, pos as int, w);
        }
    }
    Some((v, pos + 8))
}

/// Reads a stored string at `pos`; returns it and the position after it.
pub fn read_str(b: &[u8], pos: usize) -> (r: Option<(String, usize)>)
    ensures
        r matches Some((s, p)) ==> pos < p <= b@.len(),
        forall|s: Seq<char>|
            str_fits(s) && #[trigger] at(b@, pos as int, enc_str(s)) ==> (r matches Some((x, p)) && x@ == s && p
                == pos + enc_str(s).len()),
{
    let (n, start) = match read_u32(b, pos) {
        Some(t) => t,
        None => {
            proof {
                assert forall|s: Seq<char>| str_fits(s) && #[trigger] at(b@, pos as int, enc_str(s)) implies false by {
                    lemma_at_concat(b@, pos as int, u32_bytes(encode_utf8(s).len() as int), encode_utf8(s));
                }
            }
            return None;
        },
    };
    if start > b.len() || (n as usize) > b.len() - start {
        proof {
            assert forall|s: Seq<char>| str_fits(s) && #[trigger] at(b@, pos as int, enc_str(s)) implies false by {
                lemma_at_concat(b@, pos as int, u32_bytes(encode_utf8(s).len() as int), encode_utf8(s));
                lemma_u32_bytes(encode_utf8(s).len() as int);
            }
        }
        return None;
    }
    let end = start + n as usize;
    let mut bytes: Vec<u8> = Vec::new();
    let mut i = start;
    while i < end
        invariant
            start <= i <= end <= b@.len(),
            bytes@ == b@.subrange(start as int, i as int),
        decreases end - i,
    {
        bytes.push(b[i]);
        i = i + 1;
        assert(bytes@ =~= b@.subrange(start as int, i as int));
    }
    let ghost raw = bytes@;
    let text = string_from_utf8(bytes);
    proof {
        assert forall|s: Seq<char>| str_fits(s) && #[trigger] at(b@, pos as int, enc_str(s)) implies (text matches Some(x)
            && x@ == s) by {
            lemma_at_concat(b@, pos as int, u32_bytes(encode_utf8(s).len() as int), encode_utf8(s));
            lemma_u32_bytes(encode_utf8(s).len() as int);
            lemma_at_u32(b@, pos as int, encode_utf8(s).len() as u32);
            assert(raw =~= encode_utf8(s));
        }
    }
    match text {
        Some(x) => Some((x, end)),
        None => None,
    }
}

/// What decoding gives back for a stored value: extension values are not
/// kept, and come back as null.
pub open spec fn decoded(v: ValueView) -> ValueView {
    match v {
        ValueView::Extension(_, _) => ValueView::Null,
        _ => v,
    }
}

/// What decoding gives back for each of `vs`.
pub open spec fn decoded_all(vs: Seq<ValueView>) -> Seq<ValueView> {
    vs.map_values(|v: ValueView| decoded(v))
}

/// A value as stored: a tag byte, then its payload.
pub open spec fn enc_value(v: ValueView) -> Seq<u8> {
    match v {
        ValueView::Null => seq![0u8],
        ValueView::Int(n) => seq![1u8] + u64_bytes((n as u64) as int),
        ValueView::Float(f) => seq![2u8] + u64_bytes(f as int),
        ValueView::Str(s) => seq![3u8] + enc_str(s),
        ValueView::Bool(b) => seq![4u8, if b { 1u8 } else { 0u8 }],
        ValueView::Extension(oid, _) => seq![5u8] + u32_bytes(oid as int),
    }
}

/// Whether a value can be stored: a string's length must fit its count.
pub open spec fn value_fits(v: ValueView) -> bool {
    match v {
        ValueView::Str(s) => str_fits(s),
        _ => true,
    }
}

/// Values stored one after another.
pub open spec fn enc_values(vs: Seq<ValueView>) -> Seq<u8>
    decreases vs.len(),
{
    if vs.len() == 0 {
        Seq::empty()
    } else {
        enc_values(vs.drop_last()) + enc_value(vs.last())
    }
}

/// A row as stored: its value count as a `u32`, then its values.
pub open spec fn enc_row(vs: Seq<ValueView>) -> Seq<u8> {
    u32_bytes(vs.len() as int) + enc_values(vs)
}

/// Whether a row can be stored.
pub open spec fn row_fits(vs: Seq<ValueView>) -> bool {
    vs.len() <= u32::MAX && forall|i: int| 0 <= i < vs.len() ==> value_fits(#[trigger] vs[i])
}

/// Appends a value as stored.
pub fn push_value(out: &mut Vec<u8>, v: &Value) -> (r: bool)
    ensures
        r == value_fits(v@),
        r ==> final(out)@ == old(out)@ + enc_value(v@),
        !r ==> final(out)@ == old(out)@,
{
    match v {
        Value::Null => {
            out.push(0u8);
        },
        Value::Int(n) => {
            out.push(1u8);
            push_u64(out, *n as u64);
        },
        Value::Float(f) => {
            out.push(2u8);
            push_u64(out, *f);
        },
        Value::String(s) => {
            out.push(3u8);
            if !push_str(out, s.as_str()) {
                out.pop();
                assert(out@ =~= old(out)@);
                return false;
            }
        },
        Value::Bool(b) => {
            out.push(4u8);
            out.push(if *b { 1u8 } else { 0u8 });
        },
        Value::Extension { type_oid, data: _ } => {
            out.push(5u8);
            push_u32(out, *type_oid);
        },
    }
    assert(out@ =~= old(out)@ + enc_value(v@));
    true
}

/// Encodes a row; a row whose values cannot be counted is refused.
pub fn encode_row(row: &Row) -> (r: Result<Vec<u8>, StorageError>)
    ensures
        match r {
            Ok(b) => row_fits(row@) && b@ == enc_row(row@),
            Err(e) => !row_fits(row@) && e == StorageError::Serialization("row too large to encode"),
        },
{
    let n = row.values.len();
    if n > u32::MAX as usize {
        return Err(StorageError::Serialization("row too large to encode"));
    }
    let mut out: Vec<u8> = Vec::new();
    push_u32(&mut out, n as u32);
    let mut i: usize = 0;
    while i < n
        invariant
            n == row.values@.len() == row@.len(),
            n <= u32::MAX,
            i <= n,
            forall|k: int| 0 <= k < i ==> value_fits(#[trigger] row@[k]),
            out@ == u32_bytes(n as int) + enc_values(row@.take(i as int)),
        decreases n - i,
    {
        proof {
            assert(row@.take(i + 1).drop_last() =~= row@.take(i as int));
            assert(row@[i as int] == row.values@[i as int]@);
        }
        if !push_value(&mut out, &row.values[i]) {
            return Err(StorageError::Serialization("row too large to encode"));
        }
        i = i + 1;
        assert(out@ =~= u32_bytes(n as int) + enc_values(row@.take(i as int)));
    }
    assert(row@.take(n as int) =~= row@);
    Ok(out)
}

/// The tag byte of a stored value.
pub open spec fn tag_of(v: ValueView) -> u8 {
    match v {
        ValueView::Null => 0,
        ValueView::Int(_) => 1,
        ValueView::Float(_) => 2,
        ValueView::Str(_) => 3,
        ValueView::Bool(_) => 4,
        ValueView::Extension(_, _) => 5,
    }
}

proof fn lemma_tag(b: Seq<u8>, pos: int, v: ValueView)
    requires
        at(b, pos, enc_value(v)),
    ensures
        pos < b.len(),
        b[pos] == tag_of(v),
{
    assert(b.subrange(pos, pos + enc_value(v).len())[0] == b[pos]);
}

fn decode_number(b: &[u8], pos: usize, tag: u8) -> (r: Result<(Value, usize), StorageError>)
    requires
        tag == 1 || tag == 2,
        pos < b@.len(),
    ensures
        r matches Ok((x, p)) ==> pos < p <= b@.len(),
        forall|v: ValueView|
            tag_of(v) == tag && #[trigger] at(b@, pos as int, enc_value(v)) ==> (r matches Ok((x, p)) && x@ == decoded(v)
                && p == pos + enc_value(v).len()),
{
    let _len = b.len(); // positions below stay within usize
    let (n, p) = match read_u64(b, pos + 1) {
        Some(t) => t,
        None => {
            proof {
                assert forall|v: ValueView| tag_of(v) == tag && #[trigger] at(b@, pos as int, enc_value(v)) implies false by {
                    if let ValueView::Int(k) = v {
                        lemma_at_concat(b@, pos as int, seq![1u8], u64_bytes((k as u64) as int));
                    } else if let ValueView::Float(k) = v {
                        lemma_at_concat(b@, pos as int, seq![2u8], u64_bytes(k as int));
                    }
                }
            }
            return Err(StorageError::Serialization("value cut short"));
        },
    };
    let x = if tag == 1 { Value::Int(n as i64) } else { Value::Float(n) };
    proof {
        assert forall|v: ValueView| tag_of(v) == tag && #[trigger] at(b@, pos as int, enc_value(v)) implies (x@ == decoded(v)
            && p == pos + enc_value(v).len()) by {
            if let ValueView::Int(k) = v {
                lemma_at_concat(b@, pos as int, seq![1u8], u64_bytes((k as u64) as int));
                assert(n == k as u64);
                assert((n as i64) == k) by (bit_vector)
                    requires n == k as u64;
            } else if let ValueView::Float(k) = v {
                lemma_at_concat(b@, pos as int, seq![2u8], u64_bytes(k as int));
            }
        }
    }
    Ok((x, p))
}

fn decode_text(b: &[u8], pos: usize) -> (r: Result<(Value, usize), StorageError>)
    requires
        pos < b@.len(),
    ensures
        r matches Ok((x, p)) ==> pos < p <= b@.len(),
        forall|v: ValueView|
            tag_of(v) == 3 && value_fits(v) && #[trigger] at(b@, pos as int, enc_value(v)) ==> (r matches Ok((x, p))
                && x@ == decoded(v) && p == pos + enc_value(v).len()),
{
    let _len = b.len(); // positions below stay within usize
    let (s, p) = match read_str(b, pos + 1) {
        Some(t) => t,
        None => {
            proof {
                assert forall|v: ValueView| tag_of(v) == 3 && value_fits(v) && #[trigger] at(b@, pos as int, enc_value(v)) implies false by {
                    if let ValueView::Str(k) = v {
                        lemma_at_concat(b@, pos as int, seq![3u8], enc_str(k));
                    }
                }
            }
            return Err(StorageError::Serialization("value cut short"));
        },
    };
    proof {
        assert forall|v: ValueView| tag_of(v) == 3 && value_fits(v) && #[trigger] at(b@, pos as int, enc_value(v)) implies (
        Value::String(s)@ == decoded(v) && p == pos + enc_value(v).len()) by {
            if let ValueView::Str(k) = v {
                lemma_at_concat(b@, pos as int, seq![3u8], enc_str(k));
            }
        }
    }
    Ok((Value::String(s), p))
}

fn decode_flag(b: &[u8], pos: usize) -> (r: Result<(Value, usize), StorageError>)
    requires
        pos < b@.len(),
    ensures
        r matches Ok((x, p)) ==> pos < p <= b@.len(),
        forall|v: ValueView|
            tag_of(v) == 4 && #[trigger] at(b@, pos as int, enc_value(v)) ==> (r matches Ok((x, p)) && x@ == decoded(v)
                && p == pos + enc_value(v).len()),
{
    let _len = b.len(); // positions below stay within usize
    if pos + 1 >= b.len() || b[pos + 1] > 1 {
        proof {
            assert forall|v: ValueView| tag_of(v) == 4 && #[trigger] at(b@, pos as int, enc_value(v)) implies false by {
                assert(b@.subrange(pos as int, pos + enc_value(v).len())[1] == b@[pos + 1]);
            }
        }
        return Err(StorageError::Serialization("invalid boolean"));
    }
    let x = Value::Bool(b[pos + 1] == 1);
    proof {
        assert forall|v: ValueView| tag_of(v) == 4 && #[trigger] at(b@, pos as int, enc_value(v)) implies (x@ == decoded(v)
            && pos + 2 == pos + enc_value(v).len()) by {
            assert(b@.subrange(pos as int, pos + enc_value(v).len())[1] == b@[pos + 1]);
        }
    }
    Ok((x, pos + 2))
}

fn decode_extension(b: &[u8], pos: usize) -> (r: Result<(Value, usize), StorageError>)
    requires
        pos < b@.len(),
    ensures
        r matches Ok((x, p)) ==> pos < p <= b@.len(),
        forall|v: ValueView|
            tag_of(v) == 5 && #[trigger] at(b@, pos as int, enc_value(v)) ==> (r matches Ok((x, p)) && x@ == decoded(v)
                && p == pos + enc_value(v).len()),
{
    let _len = b.len(); // positions below stay within usize
    let (_oid, p) = match read_u32(b, pos + 1) {
        Some(t) => t,
        None => {
            proof {
                assert forall|v: ValueView| tag_of(v) == 5 && #[trigger] at(b@, pos as int, enc_value(v)) implies false by {
                    if let ValueView::Extension(k, _) = v {
                        lemma_at_concat(b@, pos as int, seq![5u8], u32_bytes(k as int));
                    }
                }
            }
            return Err(StorageError::Serialization("value cut short"));
        },
    };
    proof {
        assert forall|v: ValueView| tag_of(v) == 5 && #[trigger] at(b@, pos as int, enc_value(v)) implies (p == pos
            + enc_value(v).len()) by {
            if let ValueView::Extension(k, _) = v {
                lemma_at_concat(b@, pos as int, seq![5u8], u32_bytes(k as int));
            }
        }
    }
    Ok((Value::Null, p))
}

/// Decodes a value at `pos`; returns it and the position after it.
pub fn decode_value(b: &[u8], pos: usize) -> (r: Result<(Value, usize), StorageError>)
    ensures
        r matches Ok((x, p)) ==> pos < p <= b@.len(),
        pos >= b@.len() ==> r is Err,
        pos < b@.len() && b@[pos as int] > 5 ==> r == Err::<(Value, usize), StorageError>(
            StorageError::CorruptData("unknown value tag"),
        ),
        forall|v: ValueView|
            value_fits(v) && #[trigger] at(b@, pos as int, enc_value(v)) ==> (r matches Ok((x, p)) && x@ == decoded(v)
                && p == pos + enc_value(v).len()),
{
    if pos >= b.len() {
        proof {
            assert forall|v: ValueView| value_fits(v) && #[trigger] at(b@, pos as int, enc_value(v)) implies false by {
                lemma_tag(b@, pos as int, v);
            }
        }
        return Err(StorageError::Serialization("value cut short"));
    }
    let tag = b[pos];
    proof {
        assert forall|v: ValueView| value_fits(v) && #[trigger] at(b@, pos as int, enc_value(v)) implies tag_of(v) == tag by {
            lemma_tag(b@, pos as int, v);
        }
    }
    if tag == 0 {
        proof {
            assert forall|v: ValueView| value_fits(v) && #[trigger] at(b@, pos as int, enc_value(v)) implies (v
                == ValueView::Null) by {
                lemma_tag(b@, pos as int, v);
            }
        }
        Ok((Value::Null, pos + 1))
    } else if tag == 1 || tag == 2 {
        decode_number(b, pos, tag)
    } else if tag == 3 {
        decode_text(b, pos)
    } else if tag == 4 {
        decode_flag(b, pos)
    } else if tag == 5 {
        decode_extension(b, pos)
    } else {
        proof {
            assert forall|v: ValueView| value_fits(v) && #[trigger] at(b@, pos as int, enc_value(v)) implies false by {
                lemma_tag(b@, pos as int, v);
            }
        }
        Err(StorageError::CorruptData("unknown value tag"))
    }
}

proof fn lemma_enc_values_prefix(vs: Seq<ValueView>, i: int)
    requires
        0 <= i < vs.len(),
    ensures
        enc_values(vs) == enc_values(vs.take(i)) + enc_value(vs[i]) + enc_values(vs).subrange(
            enc_values(vs.take(i + 1)).len() as int,
            enc_values(vs).len() as int,
        ),
        enc_values(vs.take(i + 1)) == enc_values(vs.take(i)) + enc_value(vs[i]),
        enc_values(vs.take(i + 1)).len() <= enc_values(vs).len(),
    decreases vs.len(),
{
    assert(vs.take(i + 1).drop_last() =~= vs.take(i));
    if i + 1 == vs.len() {
        assert(vs.take(i + 1) =~= vs);
        assert(enc_values(vs) =~= enc_values(vs.take(i)) + enc_value(vs[i]) + enc_values(vs).subrange(
            enc_values(vs.take(i + 1)).len() as int,
            enc_values(vs).len() as int,
        ));
    } else {
        let d = vs.drop_last();
        lemma_enc_values_prefix(d, i);
        assert(d.take(i) =~= vs.take(i));
        assert(d.take(i + 1) =~= vs.take(i + 1));
        assert(enc_values(vs) =~= enc_values(vs.take(i)) + enc_value(vs[i]) + enc_values(vs).subrange(
            enc_values(vs.take(i + 1)).len() as int,
            enc_values(vs).len() as int,
        ));
    }
}

proof fn lemma_row_step(b: Seq<u8>, vs: Seq<ValueView>, i: int, pos: int)
    requires
        row_fits(vs),
        at(b, 0, enc_row(vs)),
        0 <= i < vs.len(),
        pos == 4 + enc_values(vs.take(i)).len(),
    ensures
        at(b, pos, enc_value(vs[i])),
        pos + enc_value(vs[i]).len() == 4 + enc_values(vs.take(i + 1)).len(),
{
    lemma_at_concat(b, 0, u32_bytes(vs.len() as int), enc_values(vs));
    lemma_u32_bytes(vs.len() as int);
    lemma_enc_values_prefix(vs, i);
    let t = enc_values(vs);
    let rest = t.subrange(enc_values(vs.take(i + 1)).len() as int, t.len() as int);
    lemma_at_concat(b, 4, enc_values(vs.take(i)) + enc_value(vs[i]), rest);
    lemma_at_concat(b, 4, enc_values(vs.take(i)), enc_value(vs[i]));
}

/// Decodes a row from the start of `b`. Whatever `encode_row` produced
/// decodes back to the same values, extension values coming back as null.
#[verifier::rlimit(80)]
pub fn decode_row(b: &[u8]) -> (r: Result<Row, StorageError>)
    ensures
        b@.len() < 4 ==> r is Err,
        forall|vs: Seq<ValueView>|
            row_fits(vs) && #[trigger] at(b@, 0, enc_row(vs)) ==> (r matches Ok(row) && row@ == decoded_all(vs)),
{
    let (n, start) = match read_u32(b, 0) {
        Some(t) => t,
        None => {
            proof {
                assert forall|vs: Seq<ValueView>| row_fits(vs) && #[trigger] at(b@, 0, enc_row(vs)) implies false by {
                    lemma_at_concat(b@, 0, u32_bytes(vs.len() as int), enc_values(vs));
                }
            }
            return Err(StorageError::Serialization("row cut short"));
        },
    };
    let mut values: Vec<Value> = Vec::new();
    let mut pos = start;
    let mut i: u32 = 0;
    proof {
        assert forall|vs: Seq<ValueView>| row_fits(vs) && #[trigger] at(b@, 0, enc_row(vs)) implies (n == vs.len() && pos
            == 4 + enc_values(vs.take(0)).len() && views_of(values@) == decoded_all(vs.take(0))) by {
            lemma_at_concat(b@, 0, u32_bytes(vs.len() as int), enc_values(vs));
            lemma_at_u32(b@, 0, vs.len() as u32);
            assert(vs.take(0) =~= Seq::<ValueView>::empty());
            assert(views_of(values@) =~= decoded_all(vs.take(0)));
        }
    }
    while i < n
        invariant
            i <= n,
            pos <= b@.len(),
            n == u32_at(b@, 0),
            forall|vs: Seq<ValueView>|
                row_fits(vs) && #[trigger] at(b@, 0, enc_row(vs)) ==> (n == vs.len() && pos == 4 + enc_values(
                    vs.take(i as int),
                ).len() && views_of(values@) == decoded_all(vs.take(i as int))),
        decreases n - i,
    {
        let ghost old_values = values@;
        let ghost old_pos = pos;
        proof {
            assert forall|vs: Seq<ValueView>| row_fits(vs) && #[trigger] at(b@, 0, enc_row(vs)) implies at(
                b@,
                pos as int,
                enc_value(vs[i as int]),
            ) by {
                lemma_row_step(b@, vs, i as int, pos as int);
            }
        }
        let (x, p) = match decode_value(b, pos) {
            Ok(t) => t,
            Err(e) => return Err(e),
        };
        let ghost xv = x@;
        values.push(x);
        pos = p;
        i = i + 1;
        proof {
            assert forall|vs: Seq<ValueView>| row_fits(vs) && #[trigger] at(b@, 0, enc_row(vs)) implies (n == vs.len() && pos
                == 4 + enc_values(vs.take(i as int)).len() && views_of(values@) == decoded_all(vs.take(
                i as int,
            ))) by {
                lemma_row_step(b@, vs, i - 1, old_pos as int);
                assert(value_fits(vs[i - 1]));
                assert(at(b@, old_pos as int, enc_value(vs[i - 1])));
                assert(xv == decoded(vs[i - 1]));
                assert(views_of(old_values) == decoded_all(vs.take(i - 1)));
                assert(values@.len() == i);
                assert forall|k: int| 0 <= k < i implies #[trigger] views_of(values@)[k] == decoded_all(vs.take(
                    i as int,
                ))[k] by {
                    if k < i - 1 {
                        assert(values@[k] == old_values[k]);
                        assert(views_of(old_values)[k] == decoded_all(vs.take(i - 1))[k]);
                    } else {
                        assert(values@[k]@ == xv);
                    }
                }
                assert(views_of(values@) =~= decoded_all(vs.take(i as int)));
            }
        }
    }
    let row = Row { values };
    proof {
        assert forall|vs: Seq<ValueView>| row_fits(vs) && #[trigger] at(b@, 0, enc_row(vs)) implies row@ == decoded_all(vs) by {
            assert(vs.take(n as int) =~= vs);
        }
    }
    Ok(row)
}

} // verus!
