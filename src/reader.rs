//! Fixed-width big-endian fields, and the pager over a database file image.
use crate::page::Page;
use crate::page_header::{page_header_at, read_page_header};
use crate::parsing_error::ParsingError;
use crate::sqlite_header::{header_bytes_ok, SqliteHeader};
use vstd::prelude::*;

verus! {

/// The big-endian `u16` at `off`.
pub open spec fn be_u16_at(b: Seq<u8>, off: int) -> u16 {
    (b[off] as int * 0x100 + b[off + 1] as int) as u16
}

/// The big-endian `u32` at `off`.
pub open spec fn be_u32_at(b: Seq<u8>, off: int) -> u32 {
    (b[off] as int * 0x1000000 + b[off + 1] as int * 0x10000 + b[off + 2] as int * 0x100
        + b[off + 3] as int) as u32
}

/// Returns the `size` bytes at `*offset` and moves `*offset` past them; a
/// buffer too short is `SliceConversionError`, with `*offset` left as it was.
pub fn offset_range<'a>(buffer: &'a [u8], offset: &mut usize, size: usize) -> (r: Result<
    &'a [u8],
    ParsingError,
>)
    ensures
        *old(offset) + size <= buffer@.len() ==> r is Ok && r->Ok_0@ == buffer@.subrange(
            *old(offset) as int,
            *old(offset) + size,
        ) && *final(offset) == *old(offset) + size,
        *old(offset) + size > buffer@.len() ==> r == Err::<&[u8], ParsingError>(
            ParsingError::SliceConversionError,
        ) && *final(offset) == *old(offset),
{
    let begin = *offset;
    if begin > buffer.len() || size > buffer.len() - begin {
        return Err(ParsingError::SliceConversionError);
    }
    *offset = begin + size;
    Ok(&buffer[begin..begin + size])
}

/// Reads the byte at `*offset` and moves past it.
pub fn get_u8(offset: &mut usize, bytes: &[u8]) -> (r: Result<u8, ParsingError>)
    ensures
        *old(offset) + 1 <= bytes@.len() ==> r == Ok::<u8, ParsingError>(bytes@[*old(offset) as int])
            && *final(offset) == *old(offset) + 1,
        *old(offset) + 1 > bytes@.len() ==> r == Err::<u8, ParsingError>(
            ParsingError::SliceConversionError,
        ) && *final(offset) == *old(offset),
{
    let begin = *offset;
    if begin >= bytes.len() {
        return Err(ParsingError::SliceConversionError);
    }
    *offset = begin + 1;
    Ok(bytes[begin])
}

/// Reads the big-endian `u16` at `*offset` and moves past it.
pub fn get_u16(offset: &mut usize, bytes: &[u8]) -> (r: Result<u16, ParsingError>)
    ensures
        *old(offset) + 2 <= bytes@.len() ==> r == Ok::<u16, ParsingError>(
            be_u16_at(bytes@, *old(offset) as int),
        ) && *final(offset) == *old(offset) + 2,
        *old(offset) + 2 > bytes@.len() ==> r == Err::<u16, ParsingError>(
            ParsingError::SliceConversionError,
        ) && *final(offset) == *old(offset),
{
    let begin = *offset;
    if begin > bytes.len() || 2 > bytes.len() - begin {
        return Err(ParsingError::SliceConversionError);
    }
    *offset = begin + 2;
    Ok((bytes[begin] as u16) * 0x100 + bytes[begin + 1] as u16)
}

/// Reads the big-endian `u32` at `*offset` and moves past it.
pub fn get_u32(offset: &mut usize, bytes: &[u8]) -> (r: Result<u32, ParsingError>)
    ensures
        *old(offset) + 4 <= bytes@.len() ==> r == Ok::<u32, ParsingError>(
            be_u32_at(bytes@, *old(offset) as int),
        ) && *final(offset) == *old(offset) + 4,
        *old(offset) + 4 > bytes@.len() ==> r == Err::<u32, ParsingError>(
            ParsingError::SliceConversionError,
        ) && *final(offset) == *old(offset),
{
    let begin = *offset;
    if begin > bytes.len() || 4 > bytes.len() - begin {
        return Err(ParsingError::SliceConversionError);
    }
    *offset = begin + 4;
    Ok((bytes[begin] as u32) * 0x1000000 + (bytes[begin + 1] as u32) * 0x10000 + (bytes[begin
        + 2] as u32) * 0x100 + bytes[begin + 3] as u32)
}

} // verus!

verus! {

/// The page numbered `n` (from 1) of a file image with pages of `page_size`
/// bytes: page 0, a page past the end of the image, or a cell-pointer array
/// that runs past the page is `SliceConversionError`; a bad header gives the
/// header's error. Page 1's B-tree header follows the 100-byte file header.
pub open spec fn page_at(data: Seq<u8>, page_size: u16, n: u64) -> Result<Page, ParsingError> {
    let base = (n - 1) * page_size;
    let end = base + page_size;
    let rel: int = if n == 1 { 100 } else { 0 };
    if n == 0 || end > data.len() {
        Err(ParsingError::SliceConversionError)
    } else {
        match page_header_at(data.subrange(base, end), rel) {
            Err(e) => Err(e),
            Ok((h, len)) => if base + rel + len + 2 * h.cell_count > end {
                Err(ParsingError::SliceConversionError)
            } else {
                Ok(
                    Page {
                        page_header: h,
                        page_number: n,
                        page_offset: base as usize,
                        page_start: (base + rel + len) as usize,
                        page_end: end as usize,
                    },
                )
            },
        }
    }
}

/// A database file image, held in memory, with its decoded file header.
pub struct SqliteReader {
    pub data: Vec<u8>,
    pub header: SqliteHeader,
}

impl SqliteReader {
    /// Takes the bytes of a database file and decodes its header.
    pub fn new(data: Vec<u8>) -> (r: Result<Self, ParsingError>)
        ensures
            data@.len() < 100 ==> r == Err::<Self, ParsingError>(ParsingError::SliceConversionError),
            data@.len() >= 100 && !header_bytes_ok(data@) ==> r == Err::<Self, ParsingError>(
                ParsingError::InvalidHeaderString,
            ),
            header_bytes_ok(data@) ==> r is Ok && r->Ok_0.data@ == data@
                && r->Ok_0.header.decoded_from(data@),
    {
        let header = SqliteHeader::from_bytes(data.as_slice())?;
        Ok(SqliteReader { data, header })
    }

    /// The page numbered `page` of the file, as `page_at` says.
    pub open spec fn page_spec(&self, page: u64) -> Result<Page, ParsingError> {
        page_at(self.data@, self.header.page_size, page)
    }

    /// Reads page number `page` (from 1).
    pub fn read_page(&self, page: u64) -> (r: Result<Page, ParsingError>)
        ensures
            r == self.page_spec(page),
            r is Ok ==> r->Ok_0.wf(self.data@),
    {
        let ps = self.header.page_size as u128;
        if page == 0 {
            return Err(ParsingError::SliceConversionError);
        }
        let ghost a: int = (page - 1) as int;
        let ghost p: int = ps as int;
        assert(a * p <= 0x10000 * 0x10000000000000000) by (nonlinear_arith)
            requires
                0 <= p < 0x10000,
                0 <= a < 0x10000000000000000,
        ;
        let base128 = (page - 1) as u128 * ps;
        if base128 + ps > self.data.len() as u128 {
            return Err(ParsingError::SliceConversionError);
        }
        let base = base128 as usize;
        let end = base + self.header.page_size as usize;
        let bytes = &self.data.as_slice()[base..end];
        let rel: usize = if page == 1 {
            100
        } else {
            0
        };
        let mut offset = rel;
        let page_header = read_page_header(&mut offset, bytes)?;
        let count = page_header.cell_count as usize;
        if base as u128 + offset as u128 + 2 * count as u128 > end as u128 {
            return Err(ParsingError::SliceConversionError);
        }
        Ok(
            Page {
                page_header,
                page_number: page,
                page_offset: base,
                page_start: base + offset,
                page_end: end,
            },
        )
    }
}

} // verus!
