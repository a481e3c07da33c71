//! Little-endian integer fields inside byte buffers.

use vstd::prelude::*;

verus! {


/// The value of the little-endian `u16` stored at `s[i..i + 2]`.
pub open spec fn u16_at(s: Seq<u8>, i: int) -> int {
    s[i] as int + 256 * (s[i + 1] as int)
}

/// The value of the little-endian `u32` stored at `s[i..i + 4]`.
pub open spec fn u32_at(s: Seq<u8>, i: int) -> int {
    u16_at(s, i) + 65536 * u16_at(s, i + 2)
}

/// The value of the little-endian `u64` stored at `s[i..i + 8]`.
pub open spec fn u64_at(s: Seq<u8>, i: int) -> int {
    u32_at(s, i) + 0x1_0000_0000 * u32_at(s, i + 4)
}

/// The two bytes of `v`, least significant first.
pub open spec fn u16_bytes(v: int) -> Seq<u8> {
    seq![(v % 256) as u8, ((v / 256) % 256) as u8]
}

/// The four bytes of `v`, least significant first.
pub open spec fn u32_bytes(v: int) -> Seq<u8> {
    u16_bytes(v % 65536) + u16_bytes(v / 65536)
}

/// The eight bytes of `v`, least significant first.
pub open spec fn u64_bytes(v: int) -> Seq<u8> {
    u32_bytes(v % 0x1_0000_0000) + u32_bytes(v / 0x1_0000_0000)
}

/// `s` with `t` written over it from position `i` on.
pub open spec fn overwrite(s: Seq<u8>, i: int, t: Seq<u8>) -> Seq<u8> {
    Seq::new(s.len(), |j: int| if i <= j < i + t.len() { t[j - i] } else { s[j] })
}

pub proof fn lemma_u16_bytes(v: int)
    requires
        0 <= v < 65536,
    ensures
        u16_bytes(v).len() == 2,
        u16_at(u16_bytes(v), 0) == v,
{
    assert(v % 256 + 256 * ((v / 256) % 256) == v) by (nonlinear_arith)
        requires 0 <= v < 65536;
}

pub proof fn lemma_u32_bytes(v: int)
    requires
        0 <= v < 0x1_0000_0000,
    ensures
        u32_bytes(v).len() == 4,
        u32_at(u32_bytes(v), 0) == v,
{
    assert(0 <= v / 65536 < 65536) by (nonlinear_arith)
        requires 0 <= v < 0x1_0000_0000;
    assert(v % 65536 + 65536 * (v / 65536) == v) by (nonlinear_arith)
        requires 0 <= v;
    lemma_u16_bytes(v % 65536);
    lemma_u16_bytes(v / 65536);
    let s = u32_bytes(v);
    assert(u16_at(s, 0) == u16_at(u16_bytes(v % 65536), 0));
    assert(u16_at(s, 2) == u16_at(u16_bytes(v / 65536), 0));
}

pub proof fn lemma_u64_bytes(v: int)
    requires
        0 <= v < 0x1_0000_0000_0000_0000,
    ensures
        u64_bytes(v).len() == 8,
        u64_at(u64_bytes(v), 0) == v,
{
    assert(0 <= v / 0x1_0000_0000 < 0x1_0000_0000) by (nonlinear_arith)
        requires 0 <= v < 0x1_0000_0000_0000_0000;
    assert(v % 0x1_0000_0000 + 0x1_0000_0000 * (v / 0x1_0000_0000) == v) by (nonlinear_arith)
        requires 0 <= v;
    lemma_u32_bytes(v % 0x1_0000_0000);
    lemma_u32_bytes(v / 0x1_0000_0000);
    let s = u64_bytes(v);
    let a = u32_bytes(v % 0x1_0000_0000);
    let b = u32_bytes(v / 0x1_0000_0000);
    assert(u32_at(s, 0) == u32_at(a, 0));
    assert(u32_at(s, 4) == u32_at(b, 0));
}

pub fn get_u16(s: &[u8], i: usize) -> (r: u16)
    requires
        i + 2 <= s@.len(),
    ensures
        r as int == u16_at(s@, i as int),
{
    s[i] as u16 + 256 * (s[i + 1] as u16)
}

pub fn get_u32(s: &[u8], i: usize) -> (r: u32)
    requires
        i + 4 <= s@.len(),
    ensures
        r as int == u32_at(s@, i as int),
{
    let _len = s.len(); // positions below stay within usize
    get_u16(s, i) as u32 + 65536 * (get_u16(s, i + 2) as u32)
}

pub fn get_u64(s: &[u8], i: usize) -> (r: u64)
    requires
        i + 8 <= s@.len(),
    ensures
        r as int == u64_at(s@, i as int),
{
    let _len = s.len(); // positions below stay within usize
    get_u32(s, i) as u64 + 0x1_0000_0000 * (get_u32(s, i + 4) as u64)
}

pub fn push_u16(v: &mut Vec<u8>, x: u16)
    ensures
        final(v)@ == old(v)@ + u16_bytes(x as int),
{
    v.push((x % 256) as u8);
    v.push((x / 256) as u8);
}

pub fn push_u32(v: &mut Vec<u8>, x: u32)
    ensures
        final(v)@ == old(v)@ + u32_bytes(x as int),
{
    push_u16(v, (x % 65536) as u16);
    push_u16(v, (x / 65536) as u16);
    assert(final(v)@ =~= old(v)@ + u32_bytes(x as int));
}

pub fn push_u64(v: &mut Vec<u8>, x: u64)
    ensures
        final(v)@ == old(v)@ + u64_bytes(x as int),
{
    push_u32(v, (x % 0x1_0000_0000) as u32);
    push_u32(v, (x / 0x1_0000_0000) as u32);
    assert(final(v)@ =~= old(v)@ + u64_bytes(x as int));
}

/// Copies `t` over `v` from position `i` on.
pub fn write_bytes(v: &mut Vec<u8>, i: usize, t: &[u8])
    requires
        i + t@.len() <= old(v)@.len(),
    ensures
        final(v)@ == overwrite(old(v)@, i as int, t@),
{
    let _len = v.len(); // positions below stay within usize
    let mut k: usize = 0;
    while k < t.len()
        invariant
            k <= t@.len(),
            i + t@.len() <= v@.len(),
            v@.len() == _len,
            v@ == overwrite(old(v)@, i as int, t@.subrange(0, k as int)),
        decreases t@.len() - k,
    {
        v.set(i + k, t[k]);
        k = k + 1;
        assert(v@ =~= overwrite(old(v)@, i as int, t@.subrange(0, k as int)));
    }
    assert(t@.subrange(0, t@.len() as int) =~= t@);
}

pub fn set_u16(v: &mut Vec<u8>, i: usize, x: u16)
    requires
        i + 2 <= old(v)@.len(),
    ensures
        final(v)@ == overwrite(old(v)@, i as int, u16_bytes(x as int)),
{
    let _len = v.len(); // positions below stay within usize
    v.set(i, (x % 256) as u8);
    v.set(i + 1, (x / 256) as u8);
    assert(final(v)@ =~= overwrite(old(v)@, i as int, u16_bytes(x as int)));
}

pub fn set_u32(v: &mut Vec<u8>, i: usize, x: u32)
    requires
        i + 4 <= old(v)@.len(),
    ensures
        final(v)@ == overwrite(old(v)@, i as int, u32_bytes(x as int)),
{
    let _len = v.len(); // positions below stay within usize
    set_u16(v, i, (x % 65536) as u16);
    set_u16(v, i + 2, (x / 65536) as u16);
    assert(final(v)@ =~= overwrite(old(v)@, i as int, u32_bytes(x as int)));
}

} // verus!
