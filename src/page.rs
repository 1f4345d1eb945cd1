//! A B-tree page of the database file.
use crate::page_header::PageHeader;
use crate::reader::be_u16_at;
use vstd::prelude::*;

verus! {

/// A page: its decoded header and where it lies in the file image. Cells and
/// column values are addressed by file offsets into that one shared image.
#[derive(Clone, Copy, Debug)]
pub struct Page {
    pub page_header: PageHeader,
    pub page_number: u64,
    /// File offset of the first byte of the page.
    pub page_offset: usize,
    /// File offset at which the cell-pointer array begins.
    pub page_start: usize,
    /// File offset one past the last byte of the page.
    pub page_end: usize,
}

/// The `count` big-endian cell pointers that start at `start`.
pub open spec fn cell_pointers(data: Seq<u8>, start: int, count: nat) -> Seq<u16> {
    Seq::new(count, |i: int| be_u16_at(data, start + 2 * i))
}

impl Page {
    /// The page lies within `data` and its cell-pointer array within the page.
    pub open spec fn wf(&self, data: Seq<u8>) -> bool {
        &&& self.page_header.wf()
        &&& self.page_offset <= self.page_start
        &&& self.page_start + 2 * self.page_header.cell_count <= self.page_end
        &&& self.page_end <= data.len()
    }

    /// The page's cell pointers in `data`, offsets relative to the page start.
    pub open spec fn pointers(&self, data: Seq<u8>) -> Seq<u16> {
        cell_pointers(data, self.page_start as int, self.page_header.cell_count as nat)
    }

    /// Reads the cell-pointer array of the page.
    pub fn parse_cell_pointer_array(&self, data: &[u8]) -> (r: Vec<u16>)
        requires
            self.wf(data@),
        ensures
            r@ == self.pointers(data@),
    {
        let count = self.page_header.cell_count as usize;
        let begin = self.page_start;
        let mut values: Vec<u16> = Vec::new();
        let mut i: usize = 0;
        while i < count
            invariant
                self.wf(data@),
                count == self.page_header.cell_count,
                begin == self.page_start,
                i <= count,
                values@ == cell_pointers(data@, begin as int, i as nat),
            decreases count - i,
        {
            let at = begin + 2 * i;
            let v = (data[at] as u16) * 0x100 + data[at + 1] as u16;
            values.push(v);
            i = i + 1;
            assert(values@ == cell_pointers(data@, begin as int, i as nat));
        }
        values
    }
}

} // verus!
