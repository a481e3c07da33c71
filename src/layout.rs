//! Sizes, addresses and the fixed-layout records of table files.

use vstd::prelude::*;

verus! {

/// Size of a data block, and of a segment header.
pub const BLOCK_SIZE: usize = 65536;

/// Size of a segment: its header followed by its data blocks.
pub const SEGMENT_SIZE: usize = 2097152;

/// Number of data blocks in a segment.
pub const BLOCKS_PER_UNCOMPRESSED_SEGMENT: usize = 31;

/// Size of the header at the start of every segment.
pub const SEGMENT_HEADER_SIZE: usize = 65536;

/// Size of the header at the start of every block.
pub const BLOCK_HEADER_SIZE: usize = 16;

/// Size of one slot directory entry.
pub const SLOT_ENTRY_SIZE: usize = 4;

/// Magic number at the start of every segment header ("FLNT").
pub const SEGMENT_MAGIC: u32 = 0x464C4E54;

/// Transaction id, for multi-version bookkeeping.
pub type TxId = u64;

/// Segment id: the segment starts at `segment_id * SEGMENT_SIZE` in its file.
pub type SegmentId = u32;

/// Block id within a segment.
pub type BlockId = u8;

/// Slot id within a block.
pub type SlotId = u16;

/// Stable address of a row.
#[derive(Debug, Clone, Copy, PartialEq, Eq, Structural, Hash)]
pub struct TuplePointer {
    pub segment_id: SegmentId,
    pub block_id: BlockId,
    pub slot_id: SlotId,
}

/// File offset of block `block_id` of segment `segment_id`.
pub open spec fn block_offset_of(segment_id: int, block_id: int) -> int {
    segment_id * SEGMENT_SIZE + SEGMENT_HEADER_SIZE + block_id * BLOCK_SIZE
}

/// File offset of the header of segment `segment_id`.
pub open spec fn segment_offset_of(segment_id: int) -> int {
    segment_id * SEGMENT_SIZE
}

pub fn segment_offset(segment_id: SegmentId) -> (r: u64)
    ensures
        r as int == segment_offset_of(segment_id as int),
{
    assert(segment_id as int * SEGMENT_SIZE <= 0xffff_ffff * 2097152) by (nonlinear_arith)
        requires segment_id <= 0xffff_ffff;
    segment_id as u64 * SEGMENT_SIZE as u64
}

pub fn block_offset(segment_id: SegmentId, block_id: BlockId) -> (r: u64)
    ensures
        r as int == block_offset_of(segment_id as int, block_id as int),
{
    segment_offset(segment_id) + SEGMENT_HEADER_SIZE as u64 + block_id as u64 * BLOCK_SIZE as u64
}

impl TuplePointer {
    pub fn new(segment_id: SegmentId, block_id: BlockId, slot_id: SlotId) -> (r: Self)
        ensures
            r == (TuplePointer { segment_id, block_id, slot_id }),
    {
        TuplePointer { segment_id, block_id, slot_id }
    }

    /// File offset of the block that holds this tuple.
    pub fn block_offset(&self) -> (r: u64)
        ensures
            r as int == block_offset_of(self.segment_id as int, self.block_id as int),
    {
        block_offset(self.segment_id, self.block_id)
    }
}

/// Multi-version metadata of a tuple.
#[derive(Debug, Clone, Copy, PartialEq, Eq, Structural)]
pub struct TupleMeta {
    /// Transaction that created the tuple.
    pub xmin: TxId,
    /// Transaction that deleted the tuple (0 while it is live).
    pub xmax: TxId,
}

impl TupleMeta {
    pub fn new(xmin: TxId) -> (r: Self)
        ensures
            r == (TupleMeta { xmin, xmax: 0 }),
    {
        TupleMeta { xmin, xmax: 0 }
    }

    pub fn is_deleted(&self) -> (r: bool)
        ensures
            r == (self.xmax != 0),
    {
        self.xmax != 0
    }

    pub fn mark_deleted(&mut self, xmax: TxId)
        ensures
            *final(self) == (TupleMeta { xmin: old(self).xmin, xmax }),
    {
        self.xmax = xmax;
    }
}

/// Whether bit `i` of a free-block bitmap is set (block `i` free).
pub open spec fn bit_set(bitmap: u32, i: int) -> bool {
    (bitmap >> (i as u32)) & 1u32 == 1u32
}

/// Number of cleared bits (blocks in use) among positions `0..n`.
pub open spec fn used_count(bitmap: u32, n: int) -> int
    decreases n,
{
    if n <= 0 {
        0
    } else {
        used_count(bitmap, n - 1) + if bit_set(bitmap, n - 1) { 0int } else { 1int }
    }
}

/// The first 16 bytes of a segment; the rest of its 64 KiB is reserved and zero.
#[derive(Debug, Clone, Copy, PartialEq, Eq, Structural)]
pub struct SegmentHeader {
    pub magic: u32,
    pub segment_id: SegmentId,
    /// Number of blocks in use.
    pub blocks_used: u32,
    /// Bit `i` set means block `i` is free.
    pub block_free_bitmap: u32,
}

proof fn lemma_bits(bitmap: u32, i: u32, j: u32)
    requires
        i < 32,
        j < 32,
    ensures
        ((bitmap & (1u32 << i)) != 0u32) == (((bitmap >> i) & 1u32) == 1u32),
        i != j ==> (((bitmap & !(1u32 << i)) >> j) & 1u32) == ((bitmap >> j) & 1u32),
        i != j ==> (((bitmap | (1u32 << i)) >> j) & 1u32) == ((bitmap >> j) & 1u32),
        ((bitmap & !(1u32 << i)) >> i) & 1u32 == 0u32,
        ((bitmap | (1u32 << i)) >> i) & 1u32 == 1u32,
        ((!0u32) >> i) & 1u32 == 1u32,
{
    assert(((bitmap & (1u32 << i)) != 0u32) == (((bitmap >> i) & 1u32) == 1u32)) by (bit_vector)
        requires i < 32;
    assert(i != j ==> (((bitmap & !(1u32 << i)) >> j) & 1u32) == ((bitmap >> j) & 1u32)) by (bit_vector)
        requires i < 32, j < 32;
    assert(i != j ==> (((bitmap | (1u32 << i)) >> j) & 1u32) == ((bitmap >> j) & 1u32)) by (bit_vector)
        requires i < 32, j < 32;
    assert(((bitmap & !(1u32 << i)) >> i) & 1u32 == 0u32) by (bit_vector)
        requires i < 32;
    assert(((bitmap | (1u32 << i)) >> i) & 1u32 == 1u32) by (bit_vector)
        requires i < 32;
    assert(((!0u32) >> i) & 1u32 == 1u32) by (bit_vector)
        requires i < 32;
}

/// Changing one bit of a bitmap changes the count of cleared bits below `n`
/// by at most one, and only where that bit lies below `n`.
pub proof fn lemma_used_count_change(a: u32, b: u32, k: int, n: int)
    requires
        0 <= k < 32,
        0 <= n <= 32,
        forall|j: int| 0 <= j < 32 && j != k ==> bit_set(a, j) == bit_set(b, j),
    ensures
        k >= n ==> used_count(b, n) == used_count(a, n),
        k < n && bit_set(a, k) && !bit_set(b, k) ==> used_count(b, n) == used_count(a, n) + 1,
        k < n && !bit_set(a, k) && bit_set(b, k) ==> used_count(b, n) == used_count(a, n) - 1,
        k < n && bit_set(a, k) == bit_set(b, k) ==> used_count(b, n) == used_count(a, n),
    decreases n,
{
    if n > 0 {
        lemma_used_count_change(a, b, k, n - 1);
    }
}

pub proof fn lemma_used_count_all_free(n: int)
    requires
        0 <= n <= 32,
    ensures
        used_count(!0u32, n) == 0,
    decreases n,
{
    if n > 0 {
        lemma_bits(0, (n - 1) as u32, 0);
        lemma_used_count_all_free(n - 1);
    }
}

pub proof fn lemma_used_count_bounds(a: u32, n: int)
    requires
        0 <= n,
    ensures
        0 <= used_count(a, n) <= n,
    decreases n,
{
    if n > 0 {
        lemma_used_count_bounds(a, n - 1);
    }
}

impl SegmentHeader {
    /// This header with block `b` taken into use.
    pub open spec fn marked_used(self, b: int) -> SegmentHeader {
        SegmentHeader {
            blocks_used: (self.blocks_used + 1) as u32,
            block_free_bitmap: self.block_free_bitmap & !(1u32 << (b as u32)),
            ..self
        }
    }

    /// This header with block `b` given back.
    pub open spec fn marked_free(self, b: int) -> SegmentHeader {
        SegmentHeader {
            blocks_used: if !bit_set(self.block_free_bitmap, b) && self.blocks_used > 0 {
                (self.blocks_used - 1) as u32
            } else {
                self.blocks_used
            },
            block_free_bitmap: self.block_free_bitmap | (1u32 << (b as u32)),
            ..self
        }
    }

    /// The header counts as much as its bitmap shows in use.
    pub open spec fn wf(&self) -> bool {
        &&& self.magic == SEGMENT_MAGIC
        &&& self.blocks_used as int == used_count(self.block_free_bitmap, 31)
    }

    pub open spec fn new_spec(segment_id: SegmentId) -> SegmentHeader {
        SegmentHeader { magic: SEGMENT_MAGIC, segment_id, blocks_used: 0, block_free_bitmap: !0u32 }
    }

    /// A fresh header: every block free.
    pub fn new(segment_id: SegmentId) -> (r: Self)
        ensures
            r == (SegmentHeader {
                magic: SEGMENT_MAGIC,
                segment_id,
                blocks_used: 0,
                block_free_bitmap: !0u32,
            }),
            r.wf(),
    {
        proof {
            lemma_used_count_all_free(31);
        }
        SegmentHeader { magic: SEGMENT_MAGIC, segment_id, blocks_used: 0, block_free_bitmap: !0u32 }
    }

    pub fn is_block_free(&self, block_id: BlockId) -> (r: bool)
        requires
            block_id < BLOCKS_PER_UNCOMPRESSED_SEGMENT,
        ensures
            r == bit_set(self.block_free_bitmap, block_id as int),
    {
        proof {
            lemma_bits(self.block_free_bitmap, block_id as u32, 0);
        }
        (self.block_free_bitmap & (1u32 << block_id as u32)) != 0
    }

    pub fn mark_block_used(&mut self, block_id: BlockId)
        requires
            block_id < BLOCKS_PER_UNCOMPRESSED_SEGMENT,
            old(self).blocks_used < u32::MAX,
        ensures
            *final(self) == old(self).marked_used(block_id as int),
            final(self).magic == old(self).magic,
            final(self).segment_id == old(self).segment_id,
            final(self).blocks_used == old(self).blocks_used + 1,
            !bit_set(final(self).block_free_bitmap, block_id as int),
            forall|j: int|
                0 <= j < 32 && j != block_id ==> bit_set(final(self).block_free_bitmap, j)
                    == bit_set(old(self).block_free_bitmap, j),
            old(self).wf() && bit_set(old(self).block_free_bitmap, block_id as int)
                ==> final(self).wf(),
    {
        let ghost a = self.block_free_bitmap;
        self.block_free_bitmap = self.block_free_bitmap & !(1u32 << block_id as u32);
        self.blocks_used = self.blocks_used + 1;
        proof {
            let b = self.block_free_bitmap;
            assert forall|j: int| 0 <= j < 32 && j != block_id implies bit_set(b, j) == bit_set(a, j) by {
                lemma_bits(a, block_id as u32, j as u32);
            }
            lemma_bits(a, block_id as u32, 0);
            lemma_used_count_change(a, b, block_id as int, 31);
        }
    }

    pub fn mark_block_free(&mut self, block_id: BlockId)
        requires
            block_id < BLOCKS_PER_UNCOMPRESSED_SEGMENT,
        ensures
            *final(self) == old(self).marked_free(block_id as int),
            final(self).magic == old(self).magic,
            final(self).segment_id == old(self).segment_id,
            bit_set(final(self).block_free_bitmap, block_id as int),
            forall|j: int|
                0 <= j < 32 && j != block_id ==> bit_set(final(self).block_free_bitmap, j)
                    == bit_set(old(self).block_free_bitmap, j),
            old(self).wf() ==> final(self).wf(),
    {
        let ghost a = self.block_free_bitmap;
        let was_free = self.is_block_free(block_id);
        self.block_free_bitmap = self.block_free_bitmap | (1u32 << block_id as u32);
        if !was_free && self.blocks_used > 0 {
            self.blocks_used = self.blocks_used - 1;
        }
        proof {
            let b = self.block_free_bitmap;
            assert forall|j: int| 0 <= j < 32 && j != block_id implies bit_set(b, j) == bit_set(a, j) by {
                lemma_bits(a, block_id as u32, j as u32);
            }
            lemma_bits(a, block_id as u32, 0);
            lemma_used_count_change(a, b, block_id as int, 31);
            lemma_used_count_bounds(b, 31);
        }
    }
}

/// The header after a run of allocations (`true`, block) and frees
/// (`false`, block), applied in order.
pub open spec fn apply_block_ops(h: SegmentHeader, ops: Seq<(bool, u8)>) -> SegmentHeader
    decreases ops.len(),
{
    if ops.len() == 0 {
        h
    } else {
        let g = apply_block_ops(h, ops.drop_last());
        if ops.last().0 {
            g.marked_used(ops.last().1 as int)
        } else {
            g.marked_free(ops.last().1 as int)
        }
    }
}

/// Whether each operation of `ops`, applied in order to `h`, allocates a
/// free block or frees any block, among the 31 blocks.
pub open spec fn ops_valid(h: SegmentHeader, ops: Seq<(bool, u8)>) -> bool
    decreases ops.len(),
{
    if ops.len() == 0 {
        true
    } else {
        let g = apply_block_ops(h, ops.drop_last());
        &&& ops_valid(h, ops.drop_last())
        &&& ops.last().1 < BLOCKS_PER_UNCOMPRESSED_SEGMENT
        &&& ops.last().0 ==> bit_set(g.block_free_bitmap, ops.last().1 as int)
    }
}

/// Segment allocator correctness: after any run of allocations of free
/// blocks and frees of blocks, in use or not, the count of blocks in use equals the
/// number of cleared bits among the 31 block positions of the bitmap.
pub proof fn lemma_segment_allocator(h: SegmentHeader, ops: Seq<(bool, u8)>)
    requires
        h.wf(),
        ops_valid(h, ops),
    ensures
        apply_block_ops(h, ops).wf(),
    decreases ops.len(),
{
    if ops.len() > 0 {
        lemma_segment_allocator(h, ops.drop_last());
        let g = apply_block_ops(h, ops.drop_last());
        let b = ops.last().1;
        let a = g.block_free_bitmap;
        if ops.last().0 {
            let c = g.marked_used(b as int).block_free_bitmap;
            assert forall|j: int| 0 <= j < 32 && j != b implies bit_set(c, j) == bit_set(a, j) by {
                lemma_bits(a, b as u32, j as u32);
            }
            lemma_bits(a, b as u32, 0);
            lemma_used_count_change(a, c, b as int, 31);
            lemma_used_count_bounds(a, 31);
        } else {
            let c = g.marked_free(b as int).block_free_bitmap;
            assert forall|j: int| 0 <= j < 32 && j != b implies bit_set(c, j) == bit_set(a, j) by {
                lemma_bits(a, b as u32, j as u32);
            }
            lemma_bits(a, b as u32, 0);
            lemma_used_count_change(a, c, b as int, 31);
            lemma_used_count_bounds(c, 31);
        }
    }
}

/// The first 16 bytes of a block.
#[derive(Debug, Clone, Copy, PartialEq, Eq, Structural)]
pub struct BlockHeader {
    pub slot_count: u16,
    pub flags: u16,
    /// Start of the free space; the slot directory ends here.
    pub free_start: u32,
    /// End of the free space; the tuple heap starts here.
    pub free_end: u32,
}

impl BlockHeader {
    pub fn new() -> (r: Self)
        ensures
            r == (BlockHeader { slot_count: 0, flags: 0, free_start: 16, free_end: 65536 }),
    {
        BlockHeader {
            slot_count: 0,
            flags: 0,
            free_start: BLOCK_HEADER_SIZE as u32,
            free_end: BLOCK_SIZE as u32,
        }
    }

    pub fn free_space(&self) -> (r: usize)
        requires
            self.free_start <= self.free_end,
        ensures
            r == self.free_end - self.free_start,
    {
        (self.free_end - self.free_start) as usize
    }
}

/// One slot of a block's directory: where a tuple lies; `(0, 0)` is an empty slot.
#[derive(Debug, Clone, Copy, PartialEq, Eq, Structural)]
pub struct SlotEntry {
    pub offset: u16,
    pub length: u16,
}

impl SlotEntry {
    pub fn new(offset: u16, length: u16) -> (r: Self)
        ensures
            r == (SlotEntry { offset, length }),
    {
        SlotEntry { offset, length }
    }

    pub fn is_empty(&self) -> (r: bool)
        ensures
            r == (self.offset == 0 && self.length == 0),
    {
        self.offset == 0 && self.length == 0
    }
}

/// Address of an index page: a segment number and an offset, packed as
/// `segment_id << 16 | page_offset`.
#[derive(Debug, Clone, Copy, PartialEq, Eq, Structural, Hash)]
pub struct PageId(pub u32);

impl PageId {
    pub fn new(segment_id: u16, page_offset: u16) -> (r: Self)
        ensures
            r.0 as int == segment_id as int * 65536 + page_offset as int,
    {
        PageId(segment_id as u32 * 65536 + page_offset as u32)
    }

    pub fn segment_id(&self) -> (r: u16)
        ensures
            r as int == self.0 as int / 65536,
    {
        (self.0 / 65536) as u16
    }

    pub fn page_offset(&self) -> (r: u16)
        ensures
            r as int == self.0 as int % 65536,
    {
        (self.0 % 65536) as u16
    }

    pub fn raw(&self) -> (r: u32)
        ensures
            r == self.0,
    {
        self.0
    }
}

} // verus!
