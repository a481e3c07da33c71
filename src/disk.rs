//! A file held as its bytes, with positioned reads and writes that move
//! all the bytes asked for or fail.

use vstd::prelude::*;
use crate::bytes::write_bytes;
use crate::error::StorageError;

verus! {

/// The contents after writing `t` at `off`: the file grows to hold it, with
/// zeros in any gap.
pub open spec fn file_write(s: Seq<u8>, off: int, t: Seq<u8>) -> Seq<u8> {
    let n = if s.len() >= off + t.len() { s.len() as int } else { off + t.len() };
    Seq::new(
        n as nat,
        |j: int|
            if off <= j < off + t.len() {
                t[j - off]
            } else if j < s.len() {
                s[j]
            } else {
                0u8
            },
    )
}

/// What was written reads back, and the bytes before it stay as they were.
pub proof fn lemma_file_write_read(s: Seq<u8>, off: int, t: Seq<u8>)
    requires
        0 <= off,
    ensures
        file_write(s, off, t).subrange(off, off + t.len()) == t,
        forall|j: int| 0 <= j < s.len() && (j < off || off + t.len() <= j) ==> #[trigger] file_write(s, off, t)[j] == s[j],
{
    assert(file_write(s, off, t).subrange(off, off + t.len()) =~= t);
}

/// The bytes of one file.
pub struct DiskFile {
    pub bytes: Vec<u8>,
}

impl View for DiskFile {
    type V = Seq<u8>;

    open spec fn view(&self) -> Seq<u8> {
        self.bytes@
    }
}

impl DiskFile {
    /// An empty file.
    pub fn new() -> (r: Self)
        ensures
            r@.len() == 0,
    {
        DiskFile { bytes: Vec::new() }
    }

    /// A file with the given contents.
    pub fn from_bytes(bytes: Vec<u8>) -> (r: Self)
        ensures
            r@ == bytes@,
    {
        DiskFile { bytes }
    }

    pub fn len(&self) -> (r: usize)
        ensures
            r == self@.len(),
    {
        self.bytes.len()
    }

    /// Reads exactly `len` bytes at `offset`; a read past the end is an error.
    pub fn read_at(&self, offset: u64, len: usize) -> (r: Result<Vec<u8>, StorageError>)
        ensures
            match r {
                Ok(v) => offset + len <= self@.len() && v@ == self@.subrange(
                    offset as int,
                    offset + len,
                ),
                Err(e) => offset + len > self@.len() && e == StorageError::Io("unexpected end of file"),
            },
    {
        let n = self.bytes.len();
        if offset > n as u64 || len > n - offset as usize {
            return Err(StorageError::Io("unexpected end of file"));
        }
        let start = offset as usize;
        let mut out: Vec<u8> = Vec::with_capacity(len);
        let mut k: usize = 0;
        while k < len
            invariant
                start + len <= self@.len(),
                self@.len() == n,
                k <= len,
                out@ == self@.subrange(start as int, start + k),
            decreases len - k,
        {
            out.push(self.bytes[start + k]);
            k = k + 1;
            assert(out@ =~= self@.subrange(start as int, start + k));
        }
        Ok(out)
    }

    /// Writes all of `data` at `offset`, growing the file as needed.
    pub fn write_at(&mut self, offset: u64, data: &[u8]) -> (r: Result<(), StorageError>)
        ensures
            match r {
                Ok(()) => final(self)@ == file_write(old(self)@, offset as int, data@),
                Err(e) => *final(self) == *old(self) && offset + data@.len() > usize::MAX
                    && e == StorageError::Io("offset out of range"),
            },
    {
        if offset > usize::MAX as u64 || data.len() > usize::MAX - offset as usize {
            return Err(StorageError::Io("offset out of range"));
        }
        let end = offset as usize + data.len();
        let ghost s = self@;
        while self.bytes.len() < end
            invariant
                s.len() <= self@.len() <= end || self@.len() == s.len(),
                forall|j: int| 0 <= j < s.len() ==> self@[j] == s[j],
                forall|j: int| s.len() <= j < self@.len() ==> self@[j] == 0u8,
            decreases end - self@.len(),
        {
            self.bytes.push(0u8);
        }
        write_bytes(&mut self.bytes, offset as usize, data);
        assert(self@ =~= file_write(s, offset as int, data@));
        Ok(())
    }
}

} // verus!
