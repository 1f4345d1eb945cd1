//! B-tree page headers.
use crate::parsing_error::ParsingError;
use crate::reader::{be_u16_at, be_u32_at, get_u16, get_u32, get_u8};
use vstd::prelude::*;

verus! {

/// The four kinds of B-tree page.
#[derive(Clone, Copy, Debug, PartialEq, Eq, Structural)]
pub enum BtreePageType {
    InteriorIndexPage,
    InteriorTablePage,
    LeafIndexPage,
    LeafTablePage,
}

/// The page kind that a page-type byte names.
pub open spec fn page_type_of(value: u8) -> Option<BtreePageType> {
    if value == 0x02 {
        Some(BtreePageType::InteriorIndexPage)
    } else if value == 0x05 {
        Some(BtreePageType::InteriorTablePage)
    } else if value == 0x0a {
        Some(BtreePageType::LeafIndexPage)
    } else if value == 0x0d {
        Some(BtreePageType::LeafTablePage)
    } else {
        None
    }
}

impl BtreePageType {
    pub open spec fn is_interior(self) -> bool {
        self is InteriorIndexPage || self is InteriorTablePage
    }

    /// The page kind of a page-type byte; any other byte is `InvalidPageType`.
    pub fn try_from(value: u8) -> (r: Result<Self, ParsingError>)
        ensures
            r == match page_type_of(value) {
                Some(t) => Ok::<BtreePageType, ParsingError>(t),
                None => Err(ParsingError::InvalidPageType),
            },
    {
        if value == 0x02 {
            Ok(BtreePageType::InteriorIndexPage)
        } else if value == 0x05 {
            Ok(BtreePageType::InteriorTablePage)
        } else if value == 0x0a {
            Ok(BtreePageType::LeafIndexPage)
        } else if value == 0x0d {
            Ok(BtreePageType::LeafTablePage)
        } else {
            Err(ParsingError::InvalidPageType)
        }
    }
}

/// The header at the start of every B-tree page.
#[derive(Clone, Copy, Debug, PartialEq, Eq, Structural)]
pub struct PageHeader {
    pub page_type: BtreePageType,
    pub first_freeblock: u16,
    pub cell_count: u16,
    pub cell_content_start: u16,
    pub fragmented_free_bytes_count: u8,
    /// Present exactly on interior pages.
    pub rightmost_pointer: Option<u32>,
}

impl PageHeader {
    /// The header is well formed: the rightmost pointer is there iff the page is interior.
    pub open spec fn wf(self) -> bool {
        self.rightmost_pointer is Some <==> self.page_type.is_interior()
    }
}

/// The header that starts at `off` in `b`, with its length (8 or 12 bytes).
pub open spec fn page_header_at(b: Seq<u8>, off: int) -> Result<(PageHeader, nat), ParsingError> {
    if off < 0 || off + 1 > b.len() {
        Err(ParsingError::SliceConversionError)
    } else {
        match page_type_of(b[off]) {
            None => Err(ParsingError::InvalidPageType),
            Some(t) => if off + 8 > b.len() {
                Err(ParsingError::SliceConversionError)
            } else if t.is_interior() && off + 12 > b.len() {
                Err(ParsingError::SliceConversionError)
            } else {
                let h = PageHeader {
                    page_type: t,
                    first_freeblock: be_u16_at(b, off + 1),
                    cell_count: be_u16_at(b, off + 3),
                    cell_content_start: be_u16_at(b, off + 5),
                    fragmented_free_bytes_count: b[off + 7],
                    rightmost_pointer: if t.is_interior() {
                        Some(be_u32_at(b, off + 8))
                    } else {
                        None
                    },
                };
                Ok((h, if t.is_interior() { 12nat } else { 8nat }))
            },
        }
    }
}

/// Reads the page header at `*offset` and moves `*offset` past it; on an
/// error `*offset` is left as it was.
pub fn read_page_header(offset: &mut usize, bytes: &[u8]) -> (r: Result<PageHeader, ParsingError>)
    ensures
        match page_header_at(bytes@, *old(offset) as int) {
            Ok((h, n)) => r == Ok::<PageHeader, ParsingError>(h) && *final(offset) == *old(offset) + n,
            Err(e) => r == Err::<PageHeader, ParsingError>(e) && *final(offset) == *old(offset),
        },
        r is Ok ==> r->Ok_0.wf(),
{
    let mut off = *offset;
    let page_type = get_u8(&mut off, bytes)?;
    let page_type = BtreePageType::try_from(page_type)?;
    if bytes.len() < 7 || off > bytes.len() - 7 {
        return Err(ParsingError::SliceConversionError);
    }
    let first_freeblock = get_u16(&mut off, bytes)?;
    let cell_count = get_u16(&mut off, bytes)?;
    let cell_content_start = get_u16(&mut off, bytes)?;
    let fragmented_free_bytes_count = get_u8(&mut off, bytes)?;
    let rightmost_pointer = match page_type {
        BtreePageType::InteriorIndexPage | BtreePageType::InteriorTablePage => {
            Some(get_u32(&mut off, bytes)?)
        },
        BtreePageType::LeafIndexPage | BtreePageType::LeafTablePage => None,
    };
    *offset = off;
    Ok(
        PageHeader {
            page_type,
            first_freeblock,
            cell_count,
            cell_content_start,
            fragmented_free_bytes_count,
            rightmost_pointer,
        },
    )
}

} // verus!
