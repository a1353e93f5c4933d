//! Options for mapping a file into memory, and the arithmetic that turns
//! them into the region handed to the operating system. The mapping itself
//! is done by the caller.

use vstd::prelude::*;

verus! {

/// Why a mapping cannot be made.
#[derive(Clone, Copy, Debug, PartialEq, Eq, Structural)]
pub enum MapError {
    /// The configured offset lies past the end of the file.
    OffsetBeyondEnd,
    /// The length to map does not fit in `usize`.
    LengthOverflow,
    /// The region to map would be empty.
    ZeroLength,
}

/// A memory map builder: offset into the file, an explicit length (else
/// the rest of the file), and whether an anonymous map is meant as a stack.
#[derive(Clone, Debug)]
pub struct MmapOptions {
    pub offset: u64,
    pub len: Option<usize>,
    pub _stack: bool,
}

/// The page-aligned region to map, and where the requested bytes start in it.
#[derive(Clone, Copy, Debug, PartialEq, Eq, Structural)]
pub struct MapRegion {
    pub aligned_offset: u64,
    pub aligned_len: usize,
    pub alignment: usize,
}

impl MmapOptions {
    /// Options with offset 0, no explicit length, not a stack.
    pub fn new() -> (r: MmapOptions)
        ensures
            r.offset == 0,
            r.len is None,
            !r._stack,
    {
        MmapOptions { offset: 0, len: None, _stack: false }
    }

    /// Maps from byte `offset` of the file on.
    pub fn _offset(&mut self, offset: u64) -> (r: &mut Self)
        ensures
            r.offset == offset,
            r.len == old(self).len,
            r._stack == old(self)._stack,
            *final(self) == *final(r),
    {
        self.offset = offset;
        self
    }

    /// Maps `len` bytes instead of the rest of the file.
    pub fn _len(&mut self, len: usize) -> (r: &mut Self)
        ensures
            r.offset == old(self).offset,
            r.len == Some(len),
            r._stack == old(self)._stack,
            *final(self) == *final(r),
    {
        self.len = Some(len);
        self
    }

    /// Marks an anonymous map as a stack.
    pub fn _stack(&mut self) -> (r: &mut Self)
        ensures
            r.offset == old(self).offset,
            r.len == old(self).len,
            r._stack,
            *final(self) == *final(r),
    {
        self._stack = true;
        self
    }

    /// The number of bytes to map from a file of `file_len` bytes: the
    /// configured length, else what follows the offset.
    pub fn get_len(&self, file_len: u64) -> (r: Result<usize, MapError>)
        ensures
            self.len matches Some(l) ==> r == Ok::<usize, MapError>(l),
            self.len is None && self.offset > file_len ==> r == Err::<usize, MapError>(MapError::OffsetBeyondEnd),
            self.len is None && self.offset <= file_len && file_len - self.offset > usize::MAX
                ==> r == Err::<usize, MapError>(MapError::LengthOverflow),
            self.len is None && self.offset <= file_len && file_len - self.offset <= usize::MAX
                ==> r == Ok::<usize, MapError>((file_len - self.offset) as usize),
    {
        match self.len {
            Some(l) => Ok(l),
            None => {
                if self.offset > file_len {
                    Err(MapError::OffsetBeyondEnd)
                } else {
                    let rest = file_len - self.offset;
                    if rest > usize::MAX as u64 {
                        Err(MapError::LengthOverflow)
                    } else {
                        Ok(rest as usize)
                    }
                }
            },
        }
    }
}

/// Distance from the page boundary below `offset` to `offset`.
pub open spec fn page_alignment(offset: u64, page: usize) -> int {
    offset as int % page as int
}

/// The region for `len` bytes at `offset`, widened down to a multiple of
/// `page`.
pub fn map_region(len: usize, offset: u64, page: usize) -> (r: Result<MapRegion, MapError>)
    requires
        page >= 1,
    ensures
        len + page_alignment(offset, page) > usize::MAX ==> r == Err::<MapRegion, MapError>(MapError::LengthOverflow),
        len + page_alignment(offset, page) == 0 ==> r == Err::<MapRegion, MapError>(MapError::ZeroLength),
        0 < len + page_alignment(offset, page) <= usize::MAX ==> r == Ok::<MapRegion, MapError>(
            MapRegion {
                aligned_offset: (offset - page_alignment(offset, page)) as u64,
                aligned_len: (len + page_alignment(offset, page)) as usize,
                alignment: page_alignment(offset, page) as usize,
            },
        ),
{
    let pg = page as u64;
    let rem = offset % pg;
    proof {
        assert(rem <= offset && rem < pg) by (nonlinear_arith)
            requires rem == offset % pg, pg >= 1;
    }
    let alignment = rem as usize;
    let aligned_offset = offset - alignment as u64;
    if len > usize::MAX - alignment {
        return Err(MapError::LengthOverflow);
    }
    let aligned_len = len + alignment;
    if aligned_len == 0 {
        return Err(MapError::ZeroLength);
    }
    Ok(MapRegion { aligned_offset, aligned_len, alignment })
}

} // verus!
