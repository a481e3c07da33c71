//! Table files, carved into 2 MiB segments of 31 blocks, and index files,
//! carved into 4 KiB pages.

use vstd::prelude::*;
use crate::block::{block_wf, Block};
use crate::bytes::{get_u32, lemma_u32_bytes, push_u32, u32_at, u32_bytes};
use crate::disk::{file_write, DiskFile};
use crate::error::StorageError;
use crate::layout::{
    bit_set, block_offset, block_offset_of, segment_offset, segment_offset_of, PageId,
    SegmentHeader, BLOCKS_PER_UNCOMPRESSED_SEGMENT, BLOCK_SIZE, SEGMENT_HEADER_SIZE, SEGMENT_MAGIC,
};

verus! {

/// Size of an index page.
pub const PAGE_SIZE: usize = 4096;

/// The 64 KiB image of a segment header: its four fields, then zeros.
pub open spec fn segment_header_image(h: SegmentHeader) -> Seq<u8> {
    u32_bytes(h.magic as int) + u32_bytes(h.segment_id as int) + u32_bytes(h.blocks_used as int)
        + u32_bytes(h.block_free_bitmap as int) + Seq::new(65520, |i: int| 0u8)
}

/// The header of segment `seg` in the file `f`, when one with the right
/// magic is there.
pub open spec fn segment_header_in(f: Seq<u8>, seg: int) -> Option<SegmentHeader> {
    let o = segment_offset_of(seg);
    if o + 16 <= f.len() && u32_at(f, o) == SEGMENT_MAGIC {
        Some(
            SegmentHeader {
                magic: SEGMENT_MAGIC,
                segment_id: u32_at(f, o + 4) as u32,
                blocks_used: u32_at(f, o + 8) as u32,
                block_free_bitmap: u32_at(f, o + 12) as u32,
            },
        )
    } else {
        None
    }
}

/// The first block of a segment that allocation may hand out: block 0 of
/// segment 0 is kept for a table-level header.
pub open spec fn first_allocatable(seg: int) -> int {
    if seg == 0 { 1 } else { 0 }
}

proof fn lemma_segment_header_round_trip(f: Seq<u8>, seg: int, h: SegmentHeader)
    requires
        0 <= seg,
        h.magic == SEGMENT_MAGIC,
    ensures
        segment_header_in(file_write(f, segment_offset_of(seg), segment_header_image(h)), seg) == Some(h),
{
    let o = segment_offset_of(seg);
    let img = segment_header_image(h);
    let g = file_write(f, o, img);
    lemma_u32_bytes(h.magic as int);
    lemma_u32_bytes(h.segment_id as int);
    lemma_u32_bytes(h.blocks_used as int);
    lemma_u32_bytes(h.block_free_bitmap as int);
    assert(seg * 2097152 >= 0) by (nonlinear_arith)
        requires seg >= 0;
    assert(u32_at(g, o) == u32_at(img, 0));
    assert(u32_at(g, o + 4) == u32_at(img, 4));
    assert(u32_at(g, o + 8) == u32_at(img, 8));
    assert(u32_at(g, o + 12) == u32_at(img, 12));
    assert(u32_at(img, 0) == u32_at(u32_bytes(h.magic as int), 0));
    assert(u32_at(img, 4) == u32_at(u32_bytes(h.segment_id as int), 0));
    assert(u32_at(img, 8) == u32_at(u32_bytes(h.blocks_used as int), 0));
    assert(u32_at(img, 12) == u32_at(u32_bytes(h.block_free_bitmap as int), 0));
}

/// The data of one table, in segments of a header and 31 blocks.
pub struct TableFile {
    pub disk: DiskFile,
    pub path: String,
    /// The next segment that `allocate_segment` hands out.
    pub next_segment_id: u32,
}

impl TableFile {
    /// A table file over the given contents; segments are handed out from 0.
    pub fn open(path: String, disk: DiskFile) -> (r: Self)
        ensures
            r.disk@ == disk@,
            r.path == path,
            r.next_segment_id == 0,
    {
        TableFile { disk, path, next_segment_id: 0 }
    }

    /// Reads the header of a segment, checking its magic.
    pub fn read_segment_header(&self, segment_id: u32) -> (r: Result<SegmentHeader, StorageError>)
        ensures
            match r {
                Ok(h) => segment_header_in(self.disk@, segment_id as int) == Some(h),
                Err(_) => segment_header_in(self.disk@, segment_id as int) is None,
            },
    {
        let offset = segment_offset(segment_id);
        let buf = match self.disk.read_at(offset, 16) {
            Ok(b) => b,
            Err(e) => return Err(e),
        };
        let magic = get_u32(buf.as_slice(), 0);
        if magic != SEGMENT_MAGIC {
            return Err(StorageError::CorruptData("invalid segment magic"));
        }
        Ok(SegmentHeader {
            magic,
            segment_id: get_u32(buf.as_slice(), 4),
            blocks_used: get_u32(buf.as_slice(), 8),
            block_free_bitmap: get_u32(buf.as_slice(), 12),
        })
    }

    /// Writes the header of a segment: its fields, then zeros to 64 KiB.
    pub fn write_segment_header(&mut self, segment_id: u32, header: &SegmentHeader) -> (r: Result<(), StorageError>)
        ensures
            final(self).path == old(self).path,
            final(self).next_segment_id == old(self).next_segment_id,
            match r {
                Ok(()) => final(self).disk@ == file_write(
                    old(self).disk@,
                    segment_offset_of(segment_id as int),
                    segment_header_image(*header),
                ),
                Err(_) => final(self).disk@ == old(self).disk@,
            },
            segment_offset_of(segment_id as int) + SEGMENT_HEADER_SIZE <= usize::MAX ==> r is Ok,
    {
        let offset = segment_offset(segment_id);
        let mut buf: Vec<u8> = Vec::new();
        push_u32(&mut buf, header.magic);
        push_u32(&mut buf, header.segment_id);
        push_u32(&mut buf, header.blocks_used);
        push_u32(&mut buf, header.block_free_bitmap);
        buf.resize(SEGMENT_HEADER_SIZE, 0u8);
        assert(buf@ =~= segment_header_image(*header));
        self.disk.write_at(offset, buf.as_slice())
    }

    /// Reads a block, checking its layout.
    pub fn read_block(&self, segment_id: u32, block_id: u8) -> (r: Result<Block, StorageError>)
        ensures
            match r {
                Ok(b) => block_id < BLOCKS_PER_UNCOMPRESSED_SEGMENT && b.wf()
                    && block_offset_of(segment_id as int, block_id as int) + BLOCK_SIZE <= self.disk@.len()
                    && b.data@ == self.disk@.subrange(
                    block_offset_of(segment_id as int, block_id as int),
                    block_offset_of(segment_id as int, block_id as int) + BLOCK_SIZE,
                ),
                Err(e) => block_id >= BLOCKS_PER_UNCOMPRESSED_SEGMENT ==> e == StorageError::Invalid(
                    "block id out of range",
                ),
            },
            block_id < BLOCKS_PER_UNCOMPRESSED_SEGMENT && block_offset_of(segment_id as int, block_id as int) + BLOCK_SIZE
                <= self.disk@.len() && block_wf(
                self.disk@.subrange(
                    block_offset_of(segment_id as int, block_id as int),
                    block_offset_of(segment_id as int, block_id as int) + BLOCK_SIZE,
                ),
            ) ==> r is Ok,
    {
        if block_id as usize >= BLOCKS_PER_UNCOMPRESSED_SEGMENT {
            return Err(StorageError::Invalid("block id out of range"));
        }
        let offset = block_offset(segment_id, block_id);
        let data = match self.disk.read_at(offset, BLOCK_SIZE) {
            Ok(d) => d,
            Err(e) => return Err(e),
        };
        match Block::from_bytes(data) {
            Some(b) => Ok(b),
            None => Err(StorageError::CorruptData("invalid block layout")),
        }
    }

    /// Writes a block in place.
    pub fn write_block(&mut self, segment_id: u32, block_id: u8, block: &Block) -> (r: Result<(), StorageError>)
        ensures
            final(self).path == old(self).path,
            final(self).next_segment_id == old(self).next_segment_id,
            match r {
                Ok(()) => block_id < BLOCKS_PER_UNCOMPRESSED_SEGMENT && final(self).disk@ == file_write(
                    old(self).disk@,
                    block_offset_of(segment_id as int, block_id as int),
                    block.data@,
                ),
                Err(e) => final(self).disk@ == old(self).disk@ && (block_id
                    >= BLOCKS_PER_UNCOMPRESSED_SEGMENT ==> e == StorageError::Invalid(
                    "block id out of range",
                )),
            },
            block_id < BLOCKS_PER_UNCOMPRESSED_SEGMENT && block_offset_of(segment_id as int, block_id as int)
                + block.data@.len() <= usize::MAX ==> r is Ok,
    {
        if block_id as usize >= BLOCKS_PER_UNCOMPRESSED_SEGMENT {
            return Err(StorageError::Invalid("block id out of range"));
        }
        let offset = block_offset(segment_id, block_id);
        self.disk.write_at(offset, block.as_bytes())
    }

    /// Writes a fresh header, every block free, for a segment.
    pub fn initialize_segment(&mut self, segment_id: u32) -> (r: Result<(), StorageError>)
        ensures
            final(self).path == old(self).path,
            final(self).next_segment_id == old(self).next_segment_id,
            r is Ok ==> segment_header_in(final(self).disk@, segment_id as int) == Some(
                SegmentHeader::new_spec(segment_id),
            ),
            r is Ok ==> final(self).disk@ == file_write(
                old(self).disk@,
                segment_offset_of(segment_id as int),
                segment_header_image(SegmentHeader::new_spec(segment_id)),
            ),
            r is Err ==> final(self).disk@ == old(self).disk@,
            segment_offset_of(segment_id as int) + SEGMENT_HEADER_SIZE <= usize::MAX ==> r is Ok,
    {
        let header = SegmentHeader::new(segment_id);
        let r = self.write_segment_header(segment_id, &header);
        proof {
            lemma_segment_header_round_trip(old(self).disk@, segment_id as int, header);
        }
        r
    }

    /// Takes the lowest free block of a segment into use and returns its id,
    /// or nothing when the segment is full.
    pub fn allocate_block(&mut self, segment_id: u32) -> (r: Result<Option<u8>, StorageError>)
        ensures
            final(self).path == old(self).path,
            final(self).next_segment_id == old(self).next_segment_id,
            match r {
                Ok(Some(b)) => {
                    &&& segment_header_in(old(self).disk@, segment_id as int) matches Some(h)
                    &&& first_allocatable(segment_id as int) <= b < BLOCKS_PER_UNCOMPRESSED_SEGMENT
                    &&& bit_set(h.block_free_bitmap, b as int)
                    &&& forall|j: int|
                        first_allocatable(segment_id as int) <= j < b ==> !bit_set(h.block_free_bitmap, j)
                    &&& segment_header_in(final(self).disk@, segment_id as int) == Some(h.marked_used(b as int))
                    &&& h.wf() ==> h.marked_used(b as int).wf()
                },
                Ok(None) => {
                    &&& segment_header_in(old(self).disk@, segment_id as int) matches Some(h)
                    &&& forall|j: int|
                        first_allocatable(segment_id as int) <= j < BLOCKS_PER_UNCOMPRESSED_SEGMENT
                            ==> !bit_set(h.block_free_bitmap, j)
                    &&& final(self).disk@ == old(self).disk@
                },
                Err(_) => final(self).disk@ == old(self).disk@,
            },
            segment_header_in(old(self).disk@, segment_id as int) matches Some(h) ==> (h.blocks_used < u32::MAX
                && segment_offset_of(segment_id as int) + SEGMENT_HEADER_SIZE <= usize::MAX ==> r is Ok),
    {
        let mut header = match self.read_segment_header(segment_id) {
            Ok(h) => h,
            Err(e) => return Err(e),
        };
        let ghost h0 = header;
        if header.blocks_used == u32::MAX {
            return Err(StorageError::CorruptData("segment header counts too many blocks"));
        }
        let start: u8 = if segment_id == 0 { 1 } else { 0 };
        let mut block_id: u8 = start;
        while (block_id as usize) < BLOCKS_PER_UNCOMPRESSED_SEGMENT
            invariant
                start as int == first_allocatable(segment_id as int),
                start <= block_id <= BLOCKS_PER_UNCOMPRESSED_SEGMENT,
                header == h0,
                forall|j: int| start <= j < block_id ==> !bit_set(h0.block_free_bitmap, j),
            ensures
                start <= block_id <= BLOCKS_PER_UNCOMPRESSED_SEGMENT,
                forall|j: int| start <= j < block_id ==> !bit_set(h0.block_free_bitmap, j),
                block_id < BLOCKS_PER_UNCOMPRESSED_SEGMENT ==> bit_set(h0.block_free_bitmap, block_id as int),
            decreases BLOCKS_PER_UNCOMPRESSED_SEGMENT - block_id as usize,
        {
            if header.is_block_free(block_id) {
                break;
            }
            block_id = block_id + 1;
        }
        if block_id as usize >= BLOCKS_PER_UNCOMPRESSED_SEGMENT {
            return Ok(None);
        }
        header.mark_block_used(block_id);
        let w = self.write_segment_header(segment_id, &header);
        if w.is_err() {
            return Err(StorageError::Io("cannot write segment header"));
        }
        proof {
            lemma_segment_header_round_trip(old(self).disk@, segment_id as int, header);
        }
        Ok(Some(block_id))
    }

    /// Hands out the next segment and writes its fresh header.
    pub fn allocate_segment(&mut self) -> (r: Result<u32, StorageError>)
        ensures
            final(self).path == old(self).path,
            match r {
                Ok(s) => s == old(self).next_segment_id && final(self).next_segment_id == s + 1
                    && segment_header_in(final(self).disk@, s as int) == Some(SegmentHeader::new_spec(s)),
                Err(_) => final(self).disk@ == old(self).disk@,
            },
            old(self).next_segment_id < u32::MAX && segment_offset_of(old(self).next_segment_id as int)
                + SEGMENT_HEADER_SIZE <= usize::MAX ==> r is Ok,
    {
        if self.next_segment_id == u32::MAX {
            return Err(StorageError::Invalid("no segment id left"));
        }
        let segment_id = self.next_segment_id;
        self.next_segment_id = segment_id + 1;
        match self.initialize_segment(segment_id) {
            Ok(()) => Ok(segment_id),
            Err(e) => Err(e),
        }
    }

    pub fn next_segment_id(&self) -> (r: u32)
        ensures
            r == self.next_segment_id,
    {
        self.next_segment_id
    }

    pub fn set_next_segment_id(&mut self, id: u32) -> (r: Result<(), StorageError>)
        ensures
            r is Ok,
            final(self).next_segment_id == id,
            final(self).disk@ == old(self).disk@,
            final(self).path == old(self).path,
    {
        self.next_segment_id = id;
        Ok(())
    }

    /// Gives a block of a segment back.
    pub fn free_block(&mut self, segment_id: u32, block_id: u8) -> (r: Result<(), StorageError>)
        ensures
            final(self).path == old(self).path,
            final(self).next_segment_id == old(self).next_segment_id,
            match r {
                Ok(()) => {
                    &&& block_id < BLOCKS_PER_UNCOMPRESSED_SEGMENT
                    &&& segment_header_in(old(self).disk@, segment_id as int) matches Some(h)
                    &&& segment_header_in(final(self).disk@, segment_id as int) == Some(h.marked_free(block_id as int))
                    &&& h.wf() ==> h.marked_free(block_id as int).wf()
                },
                Err(_) => final(self).disk@ == old(self).disk@,
            },
            block_id < BLOCKS_PER_UNCOMPRESSED_SEGMENT && segment_header_in(old(self).disk@, segment_id as int) is Some
                && segment_offset_of(segment_id as int) + SEGMENT_HEADER_SIZE <= usize::MAX ==> r is Ok,
    {
        if block_id as usize >= BLOCKS_PER_UNCOMPRESSED_SEGMENT {
            return Err(StorageError::Invalid("block id out of range"));
        }
        let mut header = match self.read_segment_header(segment_id) {
            Ok(h) => h,
            Err(e) => return Err(e),
        };
        header.mark_block_free(block_id);
        let w = self.write_segment_header(segment_id, &header);
        if w.is_err() {
            return Err(StorageError::Io("cannot write segment header"));
        }
        proof {
            lemma_segment_header_round_trip(old(self).disk@, segment_id as int, header);
        }
        Ok(())
    }

    pub fn path(&self) -> (r: &String)
        ensures
            r == &self.path,
    {
        &self.path
    }
}

/// The pages of one index.
pub struct IndexFile {
    pub disk: DiskFile,
    pub path: String,
    /// The next page that `allocate_page` hands out.
    pub next_page_id: u32,
}

/// The file offset of a page.
pub open spec fn page_offset_of(raw: int) -> int {
    raw * 4096
}

impl IndexFile {
    /// An index file over the given contents; pages are handed out from 0.
    pub fn open(path: String, disk: DiskFile) -> (r: Self)
        ensures
            r.disk@ == disk@,
            r.path == path,
            r.next_page_id == 0,
    {
        IndexFile { disk, path, next_page_id: 0 }
    }

    /// Reads the 4 KiB of a page.
    pub fn read_page(&self, page_id: PageId) -> (r: Result<Vec<u8>, StorageError>)
        ensures
            match r {
                Ok(v) => page_offset_of(page_id.0 as int) + 4096 <= self.disk@.len() && v@ == self.disk@.subrange(
                    page_offset_of(page_id.0 as int),
                    page_offset_of(page_id.0 as int) + 4096,
                ),
                Err(_) => page_offset_of(page_id.0 as int) + 4096 > self.disk@.len(),
            },
    {
        let offset = page_id.raw() as u64 * PAGE_SIZE as u64;
        self.disk.read_at(offset, PAGE_SIZE)
    }

    /// Writes a page; anything but exactly 4 KiB is refused.
    pub fn write_page(&mut self, page_id: PageId, data: &[u8]) -> (r: Result<(), StorageError>)
        ensures
            final(self).path == old(self).path,
            final(self).next_page_id == old(self).next_page_id,
            match r {
                Ok(()) => data@.len() == 4096 && final(self).disk@ == file_write(
                    old(self).disk@,
                    page_offset_of(page_id.0 as int),
                    data@,
                ),
                Err(e) => final(self).disk@ == old(self).disk@ && (data@.len() != 4096 ==> e
                    == StorageError::Invalid("page data must be exactly 4096 bytes")),
            },
            data@.len() == 4096 && page_offset_of(page_id.0 as int) + 4096 <= usize::MAX ==> r is Ok,
    {
        if data.len() != PAGE_SIZE {
            return Err(StorageError::Invalid("page data must be exactly 4096 bytes"));
        }
        let offset = page_id.raw() as u64 * PAGE_SIZE as u64;
        self.disk.write_at(offset, data)
    }

    /// Hands out the next page id; a file holds at most 65536 pages.
    pub fn allocate_page(&mut self) -> (r: Result<PageId, StorageError>)
        ensures
            final(self).disk@ == old(self).disk@,
            final(self).path == old(self).path,
            match r {
                Ok(p) => old(self).next_page_id < 65536 && final(self).next_page_id == old(self).next_page_id + 1
                    && p.0 == old(self).next_page_id,
                Err(_) => old(self).next_page_id >= 65536 && final(self).next_page_id == old(self).next_page_id,
            },
    {
        if self.next_page_id >= 65536 {
            return Err(StorageError::Invalid("no page id left"));
        }
        let id = self.next_page_id;
        self.next_page_id = id + 1;
        Ok(PageId::new(0, id as u16))
    }

    pub fn next_page_id(&self) -> (r: u32)
        ensures
            r == self.next_page_id,
    {
        self.next_page_id
    }

    pub fn set_next_page_id(&mut self, id: u32) -> (r: Result<(), StorageError>)
        ensures
            r is Ok,
            final(self).next_page_id == id,
            final(self).disk@ == old(self).disk@,
            final(self).path == old(self).path,
    {
        self.next_page_id = id;
        Ok(())
    }

    pub fn path(&self) -> (r: &String)
        ensures
            r == &self.path,
    {
        &self.path
    }
}

} // verus!
