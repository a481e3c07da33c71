//! The slotted block: a 64 KiB buffer with a header, a slot directory that
//! grows upward from byte 16, and a tuple heap that grows downward from the end.

use vstd::prelude::*;
use crate::bytes::{
    get_u16, get_u32, lemma_u16_bytes, lemma_u32_bytes, overwrite, set_u16, set_u32,
    u16_at, u16_bytes, u32_at, u32_bytes, write_bytes,
};
use crate::layout::{BlockHeader, SlotEntry, SlotId, BLOCK_HEADER_SIZE, BLOCK_SIZE, SLOT_ENTRY_SIZE};

verus! {

pub open spec fn slot_count_of(d: Seq<u8>) -> int {
    u16_at(d, 0)
}

pub open spec fn flags_of(d: Seq<u8>) -> int {
    u16_at(d, 2)
}

pub open spec fn free_start_of(d: Seq<u8>) -> int {
    u32_at(d, 4)
}

pub open spec fn free_end_of(d: Seq<u8>) -> int {
    u32_at(d, 8)
}

pub open spec fn slot_pos(i: int) -> int {
    16 + 4 * i
}

pub open spec fn slot_offset_of(d: Seq<u8>, i: int) -> int {
    u16_at(d, slot_pos(i))
}

pub open spec fn slot_length_of(d: Seq<u8>, i: int) -> int {
    u16_at(d, slot_pos(i) + 2)
}

pub open spec fn slot_empty(d: Seq<u8>, i: int) -> bool {
    slot_offset_of(d, i) == 0 && slot_length_of(d, i) == 0
}

/// What slot `i` of the block image `d` holds: nothing for an empty slot or
/// one past the directory, else its bytes.
pub open spec fn tuple_of(d: Seq<u8>, i: int) -> Option<Seq<u8>> {
    if i < 0 || i >= slot_count_of(d) || slot_empty(d, i) {
        None
    } else {
        Some(d.subrange(slot_offset_of(d, i), slot_offset_of(d, i) + slot_length_of(d, i)))
    }
}

/// The layout rules of a block image.
pub open spec fn block_wf(d: Seq<u8>) -> bool {
    &&& d.len() == BLOCK_SIZE
    &&& free_start_of(d) == 16 + 4 * slot_count_of(d)
    &&& free_start_of(d) <= free_end_of(d) <= BLOCK_SIZE
    &&& forall|i: int|
        0 <= i < slot_count_of(d) ==> #[trigger] slot_empty(d, i) || (free_end_of(d)
            <= slot_offset_of(d, i) && slot_offset_of(d, i) + slot_length_of(d, i) <= BLOCK_SIZE)
}

/// The image of a fresh block.
pub open spec fn empty_block_image() -> Seq<u8> {
    overwrite(
        overwrite(Seq::new(BLOCK_SIZE as nat, |i: int| 0u8), 4, u32_bytes(16)),
        8,
        u32_bytes(65536),
    )
}

/// Whether a tuple of `len` bytes and its slot fit in the free space.
pub open spec fn fits(d: Seq<u8>, len: int) -> bool {
    free_end_of(d) - free_start_of(d) >= len + 4
}

/// The image after appending `data`: the bytes go just below the heap, a
/// slot for them at the end of the directory, and the header follows.
#[verifier::opaque]
pub open spec fn append_image(d: Seq<u8>, data: Seq<u8>) -> Seq<u8> {
    let sc = slot_count_of(d);
    let fs = free_start_of(d);
    let nfe = free_end_of(d) - data.len();
    let d1 = overwrite(d, nfe, data);
    let d2 = overwrite(d1, fs, u16_bytes(nfe % 65536));
    let d3 = overwrite(d2, fs + 2, u16_bytes(data.len() as int));
    let d4 = overwrite(d3, 0, u16_bytes(sc + 1));
    let d5 = overwrite(d4, 4, u32_bytes(fs + 4));
    overwrite(d5, 8, u32_bytes(nfe))
}

/// Appending to a well-formed block keeps it well formed, adds one slot that
/// reads back the appended bytes, and leaves the other slots as they were.
pub proof fn lemma_append_image(d: Seq<u8>, data: Seq<u8>)
    requires
        block_wf(d),
        fits(d, data.len() as int),
    ensures
        block_wf(append_image(d, data)),
        slot_count_of(append_image(d, data)) == slot_count_of(d) + 1,
        flags_of(append_image(d, data)) == flags_of(d),
        free_start_of(append_image(d, data)) == free_start_of(d) + 4,
        free_end_of(append_image(d, data)) == free_end_of(d) - data.len(),
        forall|i: int| 0 <= i < slot_count_of(d) ==> #[trigger] tuple_of(append_image(d, data), i) == tuple_of(d, i),
        tuple_of(append_image(d, data), slot_count_of(d)) == if free_end_of(d) - data.len() == BLOCK_SIZE {
            None::<Seq<u8>>
        } else {
            Some(data)
        },
{
    let sc = slot_count_of(d);
    let fs = free_start_of(d);
    let fe = free_end_of(d);
    let nfe = fe - data.len();
    let d1 = overwrite(d, nfe, data);
    let d2 = overwrite(d1, fs, u16_bytes(nfe % 65536));
    let d3 = overwrite(d2, fs + 2, u16_bytes(data.len() as int));
    let d4 = overwrite(d3, 0, u16_bytes(sc + 1));
    let d5 = overwrite(d4, 4, u32_bytes(fs + 4));
    let d6 = overwrite(d5, 8, u32_bytes(nfe));
    reveal(append_image);
    assert(d6 == append_image(d, data));
    assert(0 <= sc < 65536);
    lemma_u16_bytes(nfe % 65536);
    lemma_u16_bytes(data.len() as int);
    lemma_u16_bytes(sc + 1);
    lemma_u32_bytes(fs + 4);
    lemma_u32_bytes(nfe);
    // bytes below the free area and above it are untouched except where written
    assert forall|j: int| 12 <= j < fs || fe <= j < BLOCK_SIZE implies d6[j] == d[j] by {}
    assert forall|j: int| nfe <= j < fe implies d6[j] == data[j - nfe] by {}
    assert(slot_count_of(d6) == sc + 1);
    assert(flags_of(d6) == flags_of(d));
    assert(free_start_of(d6) == fs + 4);
    assert(free_end_of(d6) == nfe);
    assert(slot_offset_of(d6, sc) == nfe % 65536);
    assert(slot_length_of(d6, sc) == data.len());
    assert forall|i: int| 0 <= i < sc implies slot_offset_of(d6, i) == slot_offset_of(d, i)
        && slot_length_of(d6, i) == slot_length_of(d, i) by {}
    assert forall|i: int| 0 <= i < sc + 1 implies #[trigger] slot_empty(d6, i) || (free_end_of(d6)
            <= slot_offset_of(d6, i) && slot_offset_of(d6, i) + slot_length_of(d6, i) <= BLOCK_SIZE) by {
        if i < sc {
            assert(slot_empty(d6, i) == slot_empty(d, i));
        }
    }
    assert forall|i: int| 0 <= i < sc implies #[trigger] tuple_of(d6, i) == tuple_of(d, i) by {
        assert(slot_empty(d6, i) == slot_empty(d, i));
        if !slot_empty(d, i) {
            let o = slot_offset_of(d, i);
            let l = slot_length_of(d, i);
            assert(d6.subrange(o, o + l) =~= d.subrange(o, o + l));
        }
    }
    if nfe == BLOCK_SIZE {
        assert(data.len() == 0);
        assert(slot_empty(d6, sc));
    } else {
        assert(nfe % 65536 == nfe);
        assert(!slot_empty(d6, sc));
        assert(d6.subrange(nfe, nfe + data.len()) =~= data);
    }
}

/// The image after appending each of `ss`, in order, to the image `d`.
pub open spec fn append_all(d: Seq<u8>, ss: Seq<Seq<u8>>) -> Seq<u8>
    decreases ss.len(),
{
    if ss.len() == 0 {
        d
    } else {
        append_image(append_all(d, ss.drop_last()), ss.last())
    }
}

/// The total number of bytes in `ss`.
pub open spec fn total_len(ss: Seq<Seq<u8>>) -> int
    decreases ss.len(),
{
    if ss.len() == 0 {
        0
    } else {
        total_len(ss.drop_last()) + ss.last().len()
    }
}

/// Whether each append of `ss` onto a fresh block finds room.
pub open spec fn each_fits(ss: Seq<Seq<u8>>) -> bool {
    forall|k: int|
        0 <= k < ss.len() ==> fits(#[trigger] append_all(empty_block_image(), ss.take(k)), ss[k].len() as int)
}

proof fn lemma_empty_block_image()
    ensures
        block_wf(empty_block_image()),
        slot_count_of(empty_block_image()) == 0,
        free_start_of(empty_block_image()) == 16,
        free_end_of(empty_block_image()) == 65536,
{
    lemma_u32_bytes(16);
    lemma_u32_bytes(65536);
    let d = empty_block_image();
    assert(u16_at(d, 0) == 0);
    assert(u32_at(d, 4) == 16);
    assert(u32_at(d, 8) == 65536);
}

/// Block accounting: after appends onto a fresh block that each succeed, the
/// payload bytes fill exactly the space between the free end and the block's
/// end, and the directory ends four bytes per slot after the header.
pub proof fn lemma_block_accounting(ss: Seq<Seq<u8>>)
    requires
        each_fits(ss),
    ensures
        block_wf(append_all(empty_block_image(), ss)),
        slot_count_of(append_all(empty_block_image(), ss)) == ss.len(),
        total_len(ss) + 4 * ss.len() == BLOCK_SIZE - free_end_of(append_all(empty_block_image(), ss))
            + 4 * slot_count_of(append_all(empty_block_image(), ss)),
        free_start_of(append_all(empty_block_image(), ss)) == 16 + 4 * slot_count_of(
            append_all(empty_block_image(), ss),
        ),
    decreases ss.len(),
{
    lemma_empty_block_image();
    if ss.len() > 0 {
        let p = ss.drop_last();
        assert forall|k: int| 0 <= k < p.len() implies fits(
            #[trigger] append_all(empty_block_image(), p.take(k)),
            p[k].len() as int,
        ) by {
            assert(p.take(k) == ss.take(k));
            assert(append_all(empty_block_image(), ss.take(k)) == append_all(empty_block_image(), p.take(k)));
        }
        lemma_block_accounting(p);
        assert(ss.take(ss.len() - 1) == p);
        assert(fits(append_all(empty_block_image(), ss.take(ss.len() - 1)), ss[ss.len() - 1].len() as int));
        lemma_append_image(append_all(empty_block_image(), p), ss.last());
    }
}

/// Append/read round trip: bytes appended in order onto a fresh block, with
/// room for all of them and their slots, read back from slots `0..k`. The one
/// exception is a slot whose bytes, and all bytes before them, are empty: it
/// sits at the block's very end and reads as an empty slot.
pub proof fn lemma_append_read_round_trip(ss: Seq<Seq<u8>>)
    requires
        total_len(ss) + 4 * ss.len() <= BLOCK_SIZE - BLOCK_HEADER_SIZE,
        forall|i: int| 0 <= i < ss.len() ==> total_len(#[trigger] ss.take(i + 1)) > 0,
    ensures
        forall|i: int| 0 <= i < ss.len() ==> #[trigger] tuple_of(append_all(empty_block_image(), ss), i) == Some(ss[i]),
    decreases ss.len(),
{
    if ss.len() > 0 {
        let p = ss.drop_last();
        lemma_total_len_nonneg(p);
        assert(total_len(p) + 4 * p.len() <= BLOCK_SIZE - BLOCK_HEADER_SIZE);
        assert forall|i: int| 0 <= i < p.len() implies total_len(#[trigger] p.take(i + 1)) > 0 by {
            assert(p.take(i + 1) == ss.take(i + 1));
        }
        lemma_append_read_round_trip(p);
        lemma_fits_all(ss);
        lemma_fits_all(p);
        lemma_block_accounting(p);
        let d = append_all(empty_block_image(), p);
        assert(ss.take(ss.len() - 1) == p);
        assert(fits(d, ss.last().len() as int));
        lemma_append_image(d, ss.last());
        assert(ss.take(ss.len() as int) == ss);
        assert(total_len(ss) > 0);
        assert(free_end_of(d) - ss.last().len() != BLOCK_SIZE);
        let e = append_all(empty_block_image(), ss);
        assert(e == append_image(d, ss.last()));
        assert forall|i: int| 0 <= i < ss.len() implies #[trigger] tuple_of(e, i) == Some(ss[i]) by {
            if i < p.len() {
                assert(tuple_of(d, i) == Some(p[i]));
                assert(tuple_of(e, i) == tuple_of(d, i));
            }
        }
    }
}

proof fn lemma_total_len_nonneg(ss: Seq<Seq<u8>>)
    ensures
        total_len(ss) >= 0,
    decreases ss.len(),
{
    if ss.len() > 0 {
        lemma_total_len_nonneg(ss.drop_last());
    }
}

proof fn lemma_fits_all(ss: Seq<Seq<u8>>)
    requires
        total_len(ss) + 4 * ss.len() <= BLOCK_SIZE - BLOCK_HEADER_SIZE,
    ensures
        each_fits(ss),
    decreases ss.len(),
{
    if ss.len() > 0 {
        let p = ss.drop_last();
        lemma_total_len_nonneg(p);
        lemma_fits_all(p);
        assert forall|k: int| 0 <= k < ss.len() implies fits(
            #[trigger] append_all(empty_block_image(), ss.take(k)),
            ss[k].len() as int,
        ) by {
            if k < p.len() {
                assert(p.take(k) == ss.take(k));
            } else {
                assert(ss.take(k) == p);
                lemma_block_accounting(p);
            }
        }
    }
}

/// A 64 KiB block held as its byte image.
pub struct Block {
    pub data: Vec<u8>,
}

impl Block {
    pub open spec fn wf(&self) -> bool {
        block_wf(self.data@)
    }

    /// A fresh block: no slots, the whole space free.
    pub fn new() -> (r: Self)
        ensures
            r.data@ == empty_block_image(),
            r.wf(),
            slot_count_of(r.data@) == 0,
            free_start_of(r.data@) == 16,
            free_end_of(r.data@) == 65536,
    {
        let mut data = vec![0u8; BLOCK_SIZE];
        let h = BlockHeader::new();
        set_u32(&mut data, 4, h.free_start);
        set_u32(&mut data, 8, h.free_end);
        proof {
            lemma_u32_bytes(16);
            lemma_u32_bytes(65536);
            assert(data@ =~= empty_block_image());
            let d = data@;
            assert(u16_at(d, 0) == 0);
            assert(u32_at(d, 4) == 16);
            assert(u32_at(d, 8) == 65536);
        }
        Block { data }
    }

    /// Takes a block image read from a file, checking the layout rules.
    pub fn from_bytes(data: Vec<u8>) -> (r: Option<Self>)
        ensures
            r matches Some(b) ==> b.data@ == data@ && b.wf(),
            r is None <==> !block_wf(data@),
    {
        if data.len() != BLOCK_SIZE {
            return None;
        }
        let sc = get_u16(data.as_slice(), 0);
        let fs = get_u32(data.as_slice(), 4);
        let fe = get_u32(data.as_slice(), 8);
        if fs as u64 != 16 + 4 * sc as u64 || fs > fe || fe as usize > BLOCK_SIZE {
            return None;
        }
        let mut i: u16 = 0;
        while i < sc
            invariant
                data@.len() == BLOCK_SIZE,
                sc as int == slot_count_of(data@),
                fs as int == free_start_of(data@),
                fe as int == free_end_of(data@),
                fs as int == 16 + 4 * sc as int,
                fs <= fe <= BLOCK_SIZE,
                i <= sc,
                forall|k: int|
                    0 <= k < i ==> #[trigger] slot_empty(data@, k) || (fe as int <= slot_offset_of(data@, k)
                        && slot_offset_of(data@, k) + slot_length_of(data@, k) <= BLOCK_SIZE),
            decreases sc - i,
        {
            let pos = BLOCK_HEADER_SIZE + i as usize * SLOT_ENTRY_SIZE;
            let off = get_u16(data.as_slice(), pos);
            let len = get_u16(data.as_slice(), pos + 2);
            if !(off == 0 && len == 0) && (off as u32) < fe || off as usize + len as usize > BLOCK_SIZE {
                assert(!(slot_empty(data@, i as int) || (fe as int <= slot_offset_of(data@, i as int)
                    && slot_offset_of(data@, i as int) + slot_length_of(data@, i as int) <= BLOCK_SIZE)));
                return None;
            }
            i = i + 1;
        }
        Some(Block { data })
    }

    pub fn as_bytes(&self) -> (r: &[u8])
        ensures
            r@ == self.data@,
    {
        self.data.as_slice()
    }

    pub fn header(&self) -> (r: BlockHeader)
        requires
            self.wf(),
        ensures
            r.slot_count as int == slot_count_of(self.data@),
            r.flags as int == flags_of(self.data@),
            r.free_start as int == free_start_of(self.data@),
            r.free_end as int == free_end_of(self.data@),
    {
        BlockHeader {
            slot_count: get_u16(self.data.as_slice(), 0),
            flags: get_u16(self.data.as_slice(), 2),
            free_start: get_u32(self.data.as_slice(), 4),
            free_end: get_u32(self.data.as_slice(), 8),
        }
    }

    pub fn slot(&self, slot_id: SlotId) -> (r: SlotEntry)
        requires
            self.wf(),
            slot_id < slot_count_of(self.data@),
        ensures
            r.offset as int == slot_offset_of(self.data@, slot_id as int),
            r.length as int == slot_length_of(self.data@, slot_id as int),
    {
        let pos = BLOCK_HEADER_SIZE + slot_id as usize * SLOT_ENTRY_SIZE;
        SlotEntry { offset: get_u16(self.data.as_slice(), pos), length: get_u16(self.data.as_slice(), pos + 2) }
    }

    /// The bytes of a slot, or nothing when the slot is empty or past the directory.
    pub fn read_tuple(&self, slot_id: SlotId) -> (r: Option<Vec<u8>>)
        requires
            self.wf(),
        ensures
            match r {
                Some(v) => tuple_of(self.data@, slot_id as int) == Some(v@),
                None => tuple_of(self.data@, slot_id as int) is None,
            },
    {
        let sc = get_u16(self.data.as_slice(), 0);
        if slot_id >= sc {
            return None;
        }
        let s = self.slot(slot_id);
        if s.is_empty() {
            return None;
        }
        let start = s.offset as usize;
        let end = start + s.length as usize;
        let mut out: Vec<u8> = Vec::new();
        let mut k = start;
        while k < end
            invariant
                start <= k <= end <= self.data@.len(),
                out@ == self.data@.subrange(start as int, k as int),
            decreases end - k,
        {
            out.push(self.data[k]);
            k = k + 1;
            assert(out@ =~= self.data@.subrange(start as int, k as int));
        }
        Some(out)
    }

    /// Appends a tuple in a new slot and returns the slot's id, or nothing
    /// when the tuple and its slot do not fit.
    pub fn append_tuple(&mut self, data: &[u8]) -> (r: Option<SlotId>)
        requires
            old(self).wf(),
        ensures
            final(self).wf(),
            match r {
                Some(id) => fits(old(self).data@, data@.len() as int)
                    && id as int == slot_count_of(old(self).data@)
                    && final(self).data@ == append_image(old(self).data@, data@),
                None => !fits(old(self).data@, data@.len() as int) && *final(self) == *old(self),
            },
    {
        let h = self.header();
        let slot_id = h.slot_count;
        let free_end = h.free_end;
        let free_space = h.free_space();
        if free_space < SLOT_ENTRY_SIZE || free_space - SLOT_ENTRY_SIZE < data.len() {
            return None;
        }
        proof {
            lemma_append_image(self.data@, data@);
        }
        let new_free_end = free_end - data.len() as u32;
        write_bytes(&mut self.data, new_free_end as usize, data);
        let off16: u16 = if new_free_end as usize == BLOCK_SIZE { 0 } else { new_free_end as u16 };
        let pos = BLOCK_HEADER_SIZE + slot_id as usize * SLOT_ENTRY_SIZE;
        set_u16(&mut self.data, pos, off16);
        set_u16(&mut self.data, pos + 2, data.len() as u16);
        set_u16(&mut self.data, 0, slot_id + 1);
        set_u32(&mut self.data, 4, h.free_start + SLOT_ENTRY_SIZE as u32);
        set_u32(&mut self.data, 8, new_free_end);
        proof {
            reveal(append_image);
        }
        Some(slot_id)
    }
}

} // verus!
