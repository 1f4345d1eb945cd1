//! The four cell layouts, and the B-tree traversals built on them.
use crate::interior_cell::InteriorCell;
use crate::page::Page;
use crate::page_header::BtreePageType;
use crate::reader::{page_at, SqliteReader};
use crate::leaf_cell::{serial_type_of, CellModel, LazyLeafCell, SerialType};
use crate::parsing_error::ParsingError;
use crate::reader::{be_u32_at, get_u32};
use crate::select_builder::{compare, compare_spec, operand, operand_spec, Op, WhereColumn};
use crate::text::{decimal_value, parse_decimal};
use crate::varint::{lemma_varint_at_bounds, parse_varint, varint_at};
use vstd::prelude::*;

verus! {

/// `p` put in front of the types that `res` holds.
pub open spec fn prepend_types(p: Seq<SerialType>, res: Result<(Seq<SerialType>, int), ParsingError>) -> Result<
    (Seq<SerialType>, int),
    ParsingError,
> {
    match res {
        Ok((ts, e)) => Ok((p + ts, e)),
        Err(e) => Err(e),
    }
}

/// The serial types of a record header that begins at `start` and spans `hs`
/// bytes, read from `off` on, with the offset after the last one.
pub open spec fn serial_types_at(b: Seq<u8>, off: int, start: int, hs: int) -> Result<
    (Seq<SerialType>, int),
    ParsingError,
>
    decreases b.len() - off,
{
    if off - start >= hs {
        Ok((seq![], off))
    } else if off < 0 || off >= b.len() {
        Err(ParsingError::InvalidVarint)
    } else {
        match varint_at(b, off) {
            Err(e) => Err(e),
            Ok((v, n)) => if n == 0 || off + n > b.len() {
                Err(ParsingError::InvalidVarint)
            } else {
                match serial_type_of(v) {
                    Err(e) => Err(e),
                    Ok(t) => prepend_types(seq![t], serial_types_at(b, off + n, start, hs)),
                }
            },
        }
    }
}

/// Reads the serial types of a record header that begins at `start` and
/// spans `header_size` bytes, from `*offset` on.
fn parse_serial_types(offset: &mut usize, bytes: &[u8], start: usize, header_size: i128) -> (r: Result<
    Vec<SerialType>,
    ParsingError,
>)
    requires
        start <= *old(offset),
    ensures
        match serial_types_at(bytes@, *old(offset) as int, start as int, header_size as int) {
            Ok((ts, e)) => r is Ok && r->Ok_0@ == ts && *final(offset) == e,
            Err(e) => r == Err::<Vec<SerialType>, ParsingError>(e),
        },
{
    let ghost b = bytes@;
    let ghost off0 = *offset as int;
    let mut serial_types: Vec<SerialType> = Vec::new();
    while ((*offset - start) as i128) < header_size
        invariant
            b == bytes@,
            off0 == *old(offset),
            start <= *offset,
            serial_types_at(b, off0, start as int, header_size as int) == prepend_types(
                serial_types@,
                serial_types_at(b, *offset as int, start as int, header_size as int),
            ),
        decreases bytes@.len() - *offset,
    {
        let ghost before = *offset as int;
        if *offset >= bytes.len() {
            assert(serial_types_at(b, before, start as int, header_size as int) is Err);
            return Err(ParsingError::InvalidVarint);
        }
        let v = parse_varint(offset, bytes)?;
        proof {
            lemma_varint_at_bounds(b, before);
        }
        let t = SerialType::from_varint(v)?;
        proof {
            let rest = serial_types_at(b, *offset as int, start as int, header_size as int);
            match rest {
                Ok((ts, e)) => {
                    assert(serial_types@ + (seq![t] + ts) == serial_types@.push(t) + ts);
                },
                Err(e) => {},
            }
        }
        serial_types.push(t);
    }
    assert(serial_types@ + seq![] == serial_types@);
    Ok(serial_types)
}

/// The table-leaf cell at `off`: record size, row-id, then the record header.
pub open spec fn leaf_cell_at(b: Seq<u8>, off: int) -> Result<CellModel, ParsingError> {
    match varint_at(b, off) {
        Err(e) => Err(e),
        Ok((record_size, n1)) => match varint_at(b, off + n1) {
            Err(e) => Err(e),
            Ok((rowid, n2)) => {
                let start = off + n1 + n2;
                match varint_at(b, start) {
                    Err(e) => Err(e),
                    Ok((hs, n3)) => match serial_types_at(b, start + n3, start, hs) {
                        Err(e) => Err(e),
                        Ok((ts, end)) => Ok(
                            CellModel { record_size, rowid: rowid as i128, records_begin: end, types: ts },
                        ),
                    },
                }
            },
        },
    }
}

/// Decodes the header of the table-leaf cell at `cell_offset` of the file image `bytes`.
pub fn parse_leaf_cell_lazy(bytes: &[u8], cell_offset: usize) -> (r: Result<LazyLeafCell, ParsingError>)
    ensures
        match leaf_cell_at(bytes@, cell_offset as int) {
            Ok(m) => r is Ok && r->Ok_0@ == m,
            Err(e) => r == Err::<LazyLeafCell, ParsingError>(e),
        },
{
    let mut offset = cell_offset;
    let record_size = parse_varint(&mut offset, bytes)?;
    let rowid = parse_varint(&mut offset, bytes)?;
    let start_offset = offset;
    let record_header_size = parse_varint(&mut offset, bytes)?;
    let serial_types = parse_serial_types(&mut offset, bytes, start_offset, record_header_size)?;
    Ok(LazyLeafCell { record_size, rowid, records_begin: offset, record_types: serial_types })
}

/// The table-interior cell at `off`: a 4-byte child page number, then the row-id.
pub open spec fn interior_cell_at(b: Seq<u8>, off: int) -> Result<InteriorCell, ParsingError> {
    if off + 4 > b.len() {
        Err(ParsingError::SliceConversionError)
    } else {
        match varint_at(b, off + 4) {
            Err(e) => Err(e),
            Ok((rowid, n)) => Ok(InteriorCell { page_number: be_u32_at(b, off), rowid: rowid as i128 }),
        }
    }
}

/// Decodes the table-interior cell at `cell_offset`.
pub fn parse_interior_cell(bytes: &[u8], cell_offset: usize) -> (r: Result<InteriorCell, ParsingError>)
    ensures
        r == interior_cell_at(bytes@, cell_offset as int),
{
    let mut offset = cell_offset;
    let page_number = get_u32(&mut offset, bytes)?;
    let rowid = parse_varint(&mut offset, bytes)?;
    Ok(InteriorCell { page_number, rowid })
}

/// The index-leaf cell at `off`: like a table leaf without the row-id, which
/// is read instead from the record's last column (see `rowid_from_last_column`).
pub open spec fn index_leaf_cell_at(b: Seq<u8>, off: int) -> Result<CellModel, ParsingError> {
    match varint_at(b, off) {
        Err(e) => Err(e),
        Ok((record_size, n1)) => {
            let start = off + n1;
            match varint_at(b, start) {
                Err(e) => Err(e),
                Ok((hs, n2)) => match serial_types_at(b, start + n2, start, hs) {
                    Err(e) => Err(e),
                    Ok((ts, end)) => {
                        let m = CellModel { record_size, rowid: 0, records_begin: end, types: ts };
                        if ts.len() == 0 {
                            Err(ParsingError::InvalidVarint)
                        } else {
                            match rowid_from_last_column(m, b) {
                                Err(e) => Err(e),
                                Ok(v) => Ok(CellModel { rowid: v, ..m }),
                            }
                        }
                    },
                },
            }
        },
    }
}

/// The row-id that the last column of an index record holds: the constants
/// 0 and 1 as such, any other value through its decimal text.
pub open spec fn rowid_from_last_column(m: CellModel, b: Seq<u8>) -> Result<i128, ParsingError> {
    match m.types.last() {
        SerialType::False => Ok(0),
        SerialType::True => Ok(1),
        _ => match m.column(b, m.types.len() - 1) {
            Err(e) => Err(e),
            Ok(text) => match decimal_value(text) {
                None => Err(ParsingError::InvalidVarint),
                Some(v) => Ok(v as i128),
            },
        },
    }
}

/// Decodes the index-leaf cell at `cell_offset`, with its row-id.
pub fn parse_index_leaf_cell(bytes: &[u8], cell_offset: usize) -> (r: Result<LazyLeafCell, ParsingError>)
    ensures
        match index_leaf_cell_at(bytes@, cell_offset as int) {
            Ok(m) => r is Ok && r->Ok_0@ == m,
            Err(e) => r == Err::<LazyLeafCell, ParsingError>(e),
        },
{
    let mut offset = cell_offset;
    let record_size = parse_varint(&mut offset, bytes)?;
    let start_offset = offset;
    let record_header_size = parse_varint(&mut offset, bytes)?;
    let serial_types = parse_serial_types(&mut offset, bytes, start_offset, record_header_size)?;
    let count = serial_types.len();
    let mut cell = LazyLeafCell {
        record_size,
        rowid: 0,
        records_begin: offset,
        record_types: serial_types,
    };
    if count == 0 {
        return Err(ParsingError::InvalidVarint);
    }
    let last_type = cell.get_column_type(count - 1);
    let rowid = match last_type {
        SerialType::False => 0,
        SerialType::True => 1,
        _ => {
            let text = cell.get_column(bytes, count - 1)?;
            match parse_decimal(text.as_slice()) {
                Some(v) => v,
                None => return Err(ParsingError::InvalidVarint),
            }
        },
    };
    cell.rowid = rowid;
    Ok(cell)
}

/// The index-interior cell at `off`: a 4-byte child page number, then an
/// index-leaf payload that holds the separator key.
pub open spec fn index_interior_cell_at(b: Seq<u8>, off: int) -> Result<(u32, CellModel), ParsingError> {
    if off + 4 > b.len() {
        Err(ParsingError::SliceConversionError)
    } else {
        match index_leaf_cell_at(b, off + 4) {
            Err(e) => Err(e),
            Ok(m) => Ok((be_u32_at(b, off), m)),
        }
    }
}

/// Decodes the index-interior cell at `cell_offset`.
pub fn parse_index_interior_cell(bytes: &[u8], cell_offset: usize) -> (r: Result<(u32, LazyLeafCell), ParsingError>)
    ensures
        match index_interior_cell_at(bytes@, cell_offset as int) {
            Ok((p, m)) => r is Ok && r->Ok_0.0 == p && r->Ok_0.1@ == m,
            Err(e) => r == Err::<(u32, LazyLeafCell), ParsingError>(e),
        },
{
    let mut offset = cell_offset;
    let page_number = get_u32(&mut offset, bytes)?;
    let cell = parse_index_leaf_cell(bytes, offset)?;
    Ok((page_number, cell))
}

} // verus!

verus! {

/// The models of a sequence of decoded cells.
pub open spec fn views(v: Seq<LazyLeafCell>) -> Seq<CellModel> {
    v.map_values(|c: LazyLeafCell| c@)
}

/// The models of a sequence of decoded index-interior cells.
pub open spec fn iviews(v: Seq<(u32, LazyLeafCell)>) -> Seq<(u32, CellModel)> {
    v.map_values(|c: (u32, LazyLeafCell)| (c.0, c.1@))
}

/// The file offset of the `i`-th cell of page `p`.
pub open spec fn cell_offset(data: Seq<u8>, p: Page, i: int) -> int {
    p.page_offset + p.pointers(data)[i]
}

/// The results of `f` on `0..n` in order, or the first error among them.
pub open spec fn collect<T>(n: nat, f: spec_fn(int) -> Result<T, ParsingError>) -> Result<Seq<T>, ParsingError>
    decreases n,
{
    if n == 0 {
        Ok(seq![])
    } else {
        match collect((n - 1) as nat, f) {
            Err(e) => Err(e),
            Ok(s) => match f(n - 1) {
                Err(e) => Err(e),
                Ok(c) => Ok(s.push(c)),
            },
        }
    }
}

/// Once an error occurs, it is the result of the whole collection.
pub proof fn lemma_collect_err<T>(n: nat, m: nat, f: spec_fn(int) -> Result<T, ParsingError>)
    requires
        m <= n,
        collect(m, f) is Err,
    ensures
        collect(n, f) == collect(m, f),
    decreases n - m,
{
    if m < n {
        lemma_collect_err((n - 1) as nat, m, f);
    }
}

/// A collection that succeeds holds one result for each index.
pub proof fn lemma_collect_ok<T>(n: nat, f: spec_fn(int) -> Result<T, ParsingError>)
    requires
        collect(n, f) is Ok,
    ensures
        collect(n, f)->Ok_0.len() == n,
        forall|i: int| 0 <= i < n ==> f(i) == Ok::<T, ParsingError>(#[trigger] collect(n, f)->Ok_0[i]),
    decreases n,
{
    if n > 0 {
        lemma_collect_ok((n - 1) as nat, f);
    }
}

/// Decoding the `i`-th cell of a table-leaf page.
pub open spec fn leaf_cell_fn(data: Seq<u8>, p: Page) -> spec_fn(int) -> Result<CellModel, ParsingError> {
    |i: int| leaf_cell_at(data, cell_offset(data, p, i))
}

/// Decoding the `i`-th cell of an index-leaf page.
pub open spec fn index_leaf_cell_fn(data: Seq<u8>, p: Page) -> spec_fn(int) -> Result<CellModel, ParsingError> {
    |i: int| index_leaf_cell_at(data, cell_offset(data, p, i))
}

/// Decoding the `i`-th cell of a table-interior page.
pub open spec fn interior_cell_fn(data: Seq<u8>, p: Page) -> spec_fn(int) -> Result<InteriorCell, ParsingError> {
    |i: int| interior_cell_at(data, cell_offset(data, p, i))
}

/// Decoding the `i`-th cell of an index-interior page.
pub open spec fn index_interior_cell_fn(data: Seq<u8>, p: Page) -> spec_fn(int) -> Result<(u32, CellModel), ParsingError> {
    |i: int| index_interior_cell_at(data, cell_offset(data, p, i))
}

/// The cells of a table-leaf page, decoded in order; the first failure wins.
pub open spec fn leaf_cells_of(data: Seq<u8>, p: Page) -> Result<Seq<CellModel>, ParsingError> {
    collect(p.page_header.cell_count as nat, leaf_cell_fn(data, p))
}

/// The cells of an index-leaf page, decoded in order.
pub open spec fn index_leaf_cells_of(data: Seq<u8>, p: Page) -> Result<Seq<CellModel>, ParsingError> {
    collect(p.page_header.cell_count as nat, index_leaf_cell_fn(data, p))
}

/// The cells of a table-interior page, decoded in order.
pub open spec fn interior_cells_of(data: Seq<u8>, p: Page) -> Result<Seq<InteriorCell>, ParsingError> {
    collect(p.page_header.cell_count as nat, interior_cell_fn(data, p))
}

/// The cells of an index-interior page, decoded in order.
pub open spec fn index_interior_cells_of(data: Seq<u8>, p: Page) -> Result<Seq<(u32, CellModel)>, ParsingError> {
    collect(p.page_header.cell_count as nat, index_interior_cell_fn(data, p))
}

/// The file offset of a cell of `page`, or the image length for one past the image.
fn cell_position(data: &[u8], page: &Page, ptr: u16) -> (r: usize)
    requires
        page.wf(data@),
    ensures
        r == page.page_offset + ptr || (r == data@.len() && page.page_offset + ptr > data@.len()),
{
    if ptr as usize <= data.len() - page.page_offset {
        page.page_offset + ptr as usize
    } else {
        data.len()
    }
}

/// Decodes every cell of a table-leaf page.
fn parse_leaf_cells(data: &[u8], page: &Page) -> (r: Result<Vec<LazyLeafCell>, ParsingError>)
    requires
        page.wf(data@),
    ensures
        match leaf_cells_of(data@, *page) {
            Ok(s) => r is Ok && views(r->Ok_0@) == s,
            Err(e) => r == Err::<Vec<LazyLeafCell>, ParsingError>(e),
        },
{
    let pointers = page.parse_cell_pointer_array(data);
    let ghost f = leaf_cell_fn(data@, *page);
    let ghost n = page.page_header.cell_count as nat;
    let mut cells: Vec<LazyLeafCell> = Vec::new();
    let mut i: usize = 0;
    assert(views(cells@) =~= seq![]);
    while i < pointers.len()
        invariant
            page.wf(data@),
            pointers@ == page.pointers(data@),
            n == pointers@.len(),
            f == leaf_cell_fn(data@, *page),
            i <= pointers@.len(),
            collect(i as nat, f) == Ok::<Seq<_>, ParsingError>(views(cells@)),
        decreases pointers@.len() - i,
    {
        let at = cell_position(data, page, pointers[i]);
        let ghost prev = cells@;
        let res = parse_leaf_cell_lazy(data, at);
        proof {
            assert(f(i as int) == leaf_cell_at(data@, at as int));
        }
        match res {
            Ok(cell) => {
                cells.push(cell);
            },
            Err(e) => {
                proof {
                    lemma_collect_err(n, (i + 1) as nat, f);
                }
                return Err(e);
            },
        }
        i = i + 1;
        assert(views(cells@) =~= views(prev).push(cells@.last()@));
    }
    Ok(cells)
}

/// Decodes every cell of an index-leaf page.
fn parse_index_leaf_cells(data: &[u8], page: &Page) -> (r: Result<Vec<LazyLeafCell>, ParsingError>)
    requires
        page.wf(data@),
    ensures
        match index_leaf_cells_of(data@, *page) {
            Ok(s) => r is Ok && views(r->Ok_0@) == s,
            Err(e) => r == Err::<Vec<LazyLeafCell>, ParsingError>(e),
        },
{
    let pointers = page.parse_cell_pointer_array(data);
    let ghost f = index_leaf_cell_fn(data@, *page);
    let ghost n = page.page_header.cell_count as nat;
    let mut cells: Vec<LazyLeafCell> = Vec::new();
    let mut i: usize = 0;
    assert(views(cells@) =~= seq![]);
    while i < pointers.len()
        invariant
            page.wf(data@),
            pointers@ == page.pointers(data@),
            n == pointers@.len(),
            f == index_leaf_cell_fn(data@, *page),
            i <= pointers@.len(),
            collect(i as nat, f) == Ok::<Seq<_>, ParsingError>(views(cells@)),
        decreases pointers@.len() - i,
    {
        let at = cell_position(data, page, pointers[i]);
        let ghost prev = cells@;
        let res = parse_index_leaf_cell(data, at);
        proof {
            assert(f(i as int) == index_leaf_cell_at(data@, at as int));
        }
        match res {
            Ok(cell) => {
                cells.push(cell);
            },
            Err(e) => {
                proof {
                    lemma_collect_err(n, (i + 1) as nat, f);
                }
                return Err(e);
            },
        }
        i = i + 1;
        assert(views(cells@) =~= views(prev).push(cells@.last()@));
    }
    Ok(cells)
}

/// Decodes every cell of a table-interior page.
fn parse_interior_cells(data: &[u8], page: &Page) -> (r: Result<Vec<InteriorCell>, ParsingError>)
    requires
        page.wf(data@),
    ensures
        match interior_cells_of(data@, *page) {
            Ok(s) => r is Ok && r->Ok_0@ == s,
            Err(e) => r == Err::<Vec<InteriorCell>, ParsingError>(e),
        },
{
    let pointers = page.parse_cell_pointer_array(data);
    let ghost f = interior_cell_fn(data@, *page);
    let ghost n = page.page_header.cell_count as nat;
    let mut cells: Vec<InteriorCell> = Vec::new();
    let mut i: usize = 0;
    assert(cells@ =~= seq![]);
    while i < pointers.len()
        invariant
            page.wf(data@),
            pointers@ == page.pointers(data@),
            n == pointers@.len(),
            f == interior_cell_fn(data@, *page),
            i <= pointers@.len(),
            collect(i as nat, f) == Ok::<Seq<_>, ParsingError>(cells@),
        decreases pointers@.len() - i,
    {
        let at = cell_position(data, page, pointers[i]);
        let ghost prev = cells@;
        let res = parse_interior_cell(data, at);
        proof {
            assert(f(i as int) == interior_cell_at(data@, at as int));
        }
        match res {
            Ok(cell) => {
                cells.push(cell);
            },
            Err(e) => {
                proof {
                    lemma_collect_err(n, (i + 1) as nat, f);
                }
                return Err(e);
            },
        }
        i = i + 1;
        
    }
    Ok(cells)
}

/// Decodes every cell of an index-interior page.
fn parse_index_interior_cells(data: &[u8], page: &Page) -> (r: Result<Vec<(u32, LazyLeafCell)>, ParsingError>)
    requires
        page.wf(data@),
    ensures
        match index_interior_cells_of(data@, *page) {
            Ok(s) => r is Ok && iviews(r->Ok_0@) == s,
            Err(e) => r == Err::<Vec<(u32, LazyLeafCell)>, ParsingError>(e),
        },
{
    let pointers = page.parse_cell_pointer_array(data);
    let ghost f = index_interior_cell_fn(data@, *page);
    let ghost n = page.page_header.cell_count as nat;
    let mut cells: Vec<(u32, LazyLeafCell)> = Vec::new();
    let mut i: usize = 0;
    assert(iviews(cells@) =~= seq![]);
    while i < pointers.len()
        invariant
            page.wf(data@),
            pointers@ == page.pointers(data@),
            n == pointers@.len(),
            f == index_interior_cell_fn(data@, *page),
            i <= pointers@.len(),
            collect(i as nat, f) == Ok::<Seq<_>, ParsingError>(iviews(cells@)),
        decreases pointers@.len() - i,
    {
        let at = cell_position(data, page, pointers[i]);
        let ghost prev = cells@;
        let res = parse_index_interior_cell(data, at);
        proof {
            assert(f(i as int) == index_interior_cell_at(data@, at as int));
        }
        match res {
            Ok(cell) => {
                cells.push(cell);
            },
            Err(e) => {
                proof {
                    lemma_collect_err(n, (i + 1) as nat, f);
                }
                return Err(e);
            },
        }
        i = i + 1;
        assert(iviews(cells@) =~= iviews(prev).push((cells@.last().0, cells@.last().1@)));
    }
    Ok(cells)
}


/// The deepest B-tree that a traversal follows; a deeper one (a cycle of
/// child pointers, in a corrupt file) is `InvalidPageType`.
pub const MAX_DEPTH: u64 = 20;

/// The child pages of a table-interior page, left to right, the rightmost pointer last.
pub open spec fn child_pages(cells: Seq<InteriorCell>, right: u32) -> Seq<u32> {
    cells.map_values(|c: InteriorCell| c.page_number).push(right)
}

/// The rightmost pointer of a page (0 when it has none).
pub open spec fn right_of(p: Page) -> u32 {
    match p.page_header.rightmost_pointer {
        Some(r) => r,
        None => 0,
    }
}

/// The cells of the table B-tree rooted at page `p`, in the order of a
/// left-to-right descent, following at most `fuel` levels of interior pages.
/// An index page is `InvalidPageType`.
pub open spec fn table_cells(data: Seq<u8>, ps: u16, p: Page, fuel: nat) -> Result<Seq<CellModel>, ParsingError>
    decreases fuel, 0nat, 0nat,
{
    match p.page_header.page_type {
        BtreePageType::LeafTablePage => leaf_cells_of(data, p),
        BtreePageType::InteriorTablePage => if fuel == 0 {
            Err(ParsingError::InvalidPageType)
        } else {
            match interior_cells_of(data, p) {
                Err(e) => Err(e),
                Ok(cells) => {
                    let pages = child_pages(cells, right_of(p));
                    subtree_cells(data, ps, pages, (fuel - 1) as nat, pages.len())
                },
            }
        },
        _ => Err(ParsingError::InvalidPageType),
    }
}

/// The cells of the subtrees rooted at the first `n` of `pages`, concatenated.
pub open spec fn subtree_cells(data: Seq<u8>, ps: u16, pages: Seq<u32>, fuel: nat, n: nat) -> Result<
    Seq<CellModel>,
    ParsingError,
>
    decreases fuel, 1nat, n,
{
    if n == 0 || n > pages.len() {
        Ok(seq![])
    } else {
        match subtree_cells(data, ps, pages, fuel, (n - 1) as nat) {
            Err(e) => Err(e),
            Ok(s) => match page_at(data, ps, pages[n - 1] as u64) {
                Err(e) => Err(e),
                Ok(c) => match table_cells(data, ps, c, fuel) {
                    Err(e) => Err(e),
                    Ok(t) => Ok(s + t),
                },
            },
        }
    }
}

proof fn lemma_subtree_err(data: Seq<u8>, ps: u16, pages: Seq<u32>, fuel: nat, n: nat, m: nat)
    requires
        m <= n <= pages.len(),
        subtree_cells(data, ps, pages, fuel, m) is Err,
    ensures
        subtree_cells(data, ps, pages, fuel, n) == subtree_cells(data, ps, pages, fuel, m),
    decreases n - m,
{
    if m < n {
        lemma_subtree_err(data, ps, pages, fuel, (n - 1) as nat, m);
    }
}

/// The cells of the table B-tree rooted at `page`, within `fuel` levels.
fn table_cells_rec(reader: &SqliteReader, page: &Page, fuel: u64) -> (r: Result<Vec<LazyLeafCell>, ParsingError>)
    requires
        page.wf(reader.data@),
    ensures
        match table_cells(reader.data@, reader.header.page_size, *page, fuel as nat) {
            Ok(s) => r is Ok && views(r->Ok_0@) == s,
            Err(e) => r == Err::<Vec<LazyLeafCell>, ParsingError>(e),
        },
    decreases fuel,
{
    let data = reader.data.as_slice();
    match page.page_header.page_type {
        BtreePageType::LeafTablePage => parse_leaf_cells(data, page),
        BtreePageType::InteriorTablePage => {
            if fuel == 0 {
                return Err(ParsingError::InvalidPageType);
            }
            let cells = parse_interior_cells(data, page)?;
            let right = match page.page_header.rightmost_pointer {
                Some(r) => r,
                None => 0,
            };
            let pages = child_page_numbers(&cells, right);
            let ghost ps = reader.header.page_size;
            let ghost f = (fuel - 1) as nat;
            let mut out: Vec<LazyLeafCell> = Vec::new();
            let mut i: usize = 0;
            assert(views(out@) =~= seq![]);
            assert(table_cells(reader.data@, ps, *page, fuel as nat) == subtree_cells(reader.data@, ps, pages@, f, pages@.len()));
            while i < pages.len()
                invariant
                    i <= pages@.len(),
                    table_cells(reader.data@, ps, *page, fuel as nat) == subtree_cells(reader.data@, ps, pages@, f, pages@.len()),
                    f == fuel - 1,
                    fuel > 0,
                    ps == reader.header.page_size,
                    subtree_cells(reader.data@, ps, pages@, f, i as nat) == Ok::<Seq<CellModel>, ParsingError>(
                        views(out@),
                    ),
                decreases pages@.len() - i,
            {
                let child = match reader.read_page(pages[i] as u64) {
                    Ok(c) => c,
                    Err(e) => {
                        proof {
                            lemma_subtree_err(reader.data@, ps, pages@, f, pages@.len(), (i + 1) as nat);
                        }
                        return Err(e);
                    },
                };
                let mut sub = match table_cells_rec(reader, &child, fuel - 1) {
                    Ok(v) => v,
                    Err(e) => {
                        proof {
                            lemma_subtree_err(reader.data@, ps, pages@, f, pages@.len(), (i + 1) as nat);
                        }
                        return Err(e);
                    },
                };
                let ghost prev = out@;
                let ghost subv = sub@;
                out.append(&mut sub);
                assert(views(out@) =~= views(prev) + views(subv));
                i = i + 1;
            }
            Ok(out)
        },
        _ => Err(ParsingError::InvalidPageType),
    }
}

/// The child page numbers of an interior page, the rightmost pointer last.
fn child_page_numbers(cells: &Vec<InteriorCell>, right: u32) -> (r: Vec<u32>)
    ensures
        r@ == child_pages(cells@, right),
{
    let mut pages: Vec<u32> = Vec::new();
    let mut i: usize = 0;
    while i < cells.len()
        invariant
            i <= cells@.len(),
            pages@ == cells@.subrange(0, i as int).map_values(|c: InteriorCell| c.page_number),
        decreases cells@.len() - i,
    {
        pages.push(cells[i].page_number);
        i = i + 1;
        assert(pages@ =~= cells@.subrange(0, i as int).map_values(|c: InteriorCell| c.page_number));
    }
    assert(cells@.subrange(0, i as int) == cells@);
    pages.push(right);
    pages
}

/// Every cell of the table B-tree rooted at `page`, in left-to-right order.
/// An index page, or a tree deeper than `MAX_DEPTH`, is `InvalidPageType`.
pub fn get_cells_lazy(page: &Page, reader: &SqliteReader) -> (r: Result<Vec<LazyLeafCell>, ParsingError>)
    requires
        page.wf(reader.data@),
    ensures
        match table_cells(reader.data@, reader.header.page_size, *page, MAX_DEPTH as nat) {
            Ok(s) => r is Ok && views(r->Ok_0@) == s,
            Err(e) => r == Err::<Vec<LazyLeafCell>, ParsingError>(e),
        },
{
    table_cells_rec(reader, page, MAX_DEPTH)
}


/// Whether `r` lies between the optional bounds: `lo` inclusive, `hi`
/// inclusive or exclusive as `hi_inclusive` says.
pub open spec fn in_range(r: i128, lo: Option<i128>, hi: Option<i128>, hi_inclusive: bool) -> bool {
    &&& match lo {
        Some(l) => l <= r,
        None => true,
    }
    &&& match hi {
        Some(h) => if hi_inclusive {
            r <= h
        } else {
            r < h
        },
        None => true,
    }
}

/// The row-ids of `ids` within the bounds, in order.
pub open spec fn ids_in(ids: Seq<i128>, lo: Option<i128>, hi: Option<i128>, hi_inclusive: bool) -> Seq<i128>
    decreases ids.len(),
{
    if ids.len() == 0 {
        seq![]
    } else {
        let s = ids_in(ids.drop_last(), lo, hi, hi_inclusive);
        if in_range(ids.last(), lo, hi, hi_inclusive) {
            s.push(ids.last())
        } else {
            s
        }
    }
}

/// The cells of `cells` whose row-id is among `ids`, in order.
pub open spec fn keep_rows(cells: Seq<CellModel>, ids: Seq<i128>) -> Seq<CellModel>
    decreases cells.len(),
{
    if cells.len() == 0 {
        seq![]
    } else {
        let s = keep_rows(cells.drop_last(), ids);
        if ids.contains(cells.last().rowid) {
            s.push(cells.last())
        } else {
            s
        }
    }
}

/// The row-ids of `ids` within the bounds.
fn filter_ids(ids: &[i128], lo: Option<i128>, hi: Option<i128>, hi_inclusive: bool) -> (r: Vec<i128>)
    ensures
        r@ == ids_in(ids@, lo, hi, hi_inclusive),
{
    let mut out: Vec<i128> = Vec::new();
    let mut i: usize = 0;
    while i < ids.len()
        invariant
            i <= ids@.len(),
            out@ == ids_in(ids@.subrange(0, i as int), lo, hi, hi_inclusive),
        decreases ids@.len() - i,
    {
        let r = ids[i];
        let above = match lo {
            Some(l) => l <= r,
            None => true,
        };
        let below = match hi {
            Some(h) => if hi_inclusive {
                r <= h
            } else {
                r < h
            },
            None => true,
        };
        assert(ids@.subrange(0, i + 1).drop_last() == ids@.subrange(0, i as int));
        if above && below {
            out.push(r);
        }
        i = i + 1;
    }
    assert(ids@.subrange(0, i as int) == ids@);
    out
}

/// Whether `r` is among `ids`.
fn contains_id(ids: &[i128], r: i128) -> (b: bool)
    ensures
        b == ids@.contains(r),
{
    let mut i: usize = 0;
    while i < ids.len()
        invariant
            i <= ids@.len(),
            forall|j: int| 0 <= j < i ==> ids@[j] != r,
        decreases ids@.len() - i,
    {
        if ids[i] == r {
            assert(ids@[i as int] == r);
            return true;
        }
        i = i + 1;
    }
    false
}

/// The cells of a table-leaf page whose row-ids are among `ids`. The ids are
/// first narrowed to the range between the page's first and last row-id; an
/// empty page or an empty narrowed set gives no cells.
pub open spec fn leaf_find(data: Seq<u8>, p: Page, ids: Seq<i128>) -> Result<Seq<CellModel>, ParsingError> {
    let count = p.page_header.cell_count as int;
    if count == 0 {
        Ok(seq![])
    } else {
        match leaf_cell_at(data, cell_offset(data, p, 0)) {
            Err(e) => Err(e),
            Ok(first) => match leaf_cell_at(data, cell_offset(data, p, count - 1)) {
                Err(e) => Err(e),
                Ok(last) => {
                    let sel = ids_in(ids, Some(first.rowid), Some(last.rowid), true);
                    if sel.len() == 0 {
                        Ok(seq![])
                    } else {
                        match leaf_cells_of(data, p) {
                            Err(e) => Err(e),
                            Ok(cells) => Ok(keep_rows(cells, sel)),
                        }
                    }
                },
            },
        }
    }
}

/// The cells found under the rowid-targeted descent from page `p` for `ids`,
/// following at most `fuel` levels of interior pages. At an interior page,
/// `ids` at most the last separator go to the left children, each child `i`
/// taking those with `sep[i-1] <= r < sep[i]`, and those at least the last
/// separator go to the rightmost pointer. A child page is read only when
/// some id falls in its range.
pub open spec fn find_rows_spec(data: Seq<u8>, ps: u16, p: Page, ids: Seq<i128>, fuel: nat) -> Result<
    Seq<CellModel>,
    ParsingError,
>
    decreases fuel, 0nat, 0nat,
{
    match p.page_header.page_type {
        BtreePageType::LeafTablePage => leaf_find(data, p, ids),
        BtreePageType::InteriorTablePage => if fuel == 0 {
            Err(ParsingError::InvalidPageType)
        } else {
            let f = (fuel - 1) as nat;
            let count = p.page_header.cell_count as int;
            if count == 0 {
                if ids.len() == 0 {
                    Ok(seq![])
                } else {
                    match page_at(data, ps, right_of(p) as u64) {
                        Err(e) => Err(e),
                        Ok(rp) => find_rows_spec(data, ps, rp, ids, f),
                    }
                }
            } else {
                match interior_cell_at(data, cell_offset(data, p, count - 1)) {
                    Err(e) => Err(e),
                    Ok(last) => match interior_find(data, ps, p, ids_in(ids, None, Some(last.rowid), true), f) {
                        Err(e) => Err(e),
                        Ok(res) => {
                            let above = ids_in(ids, Some(last.rowid), None, true);
                            if above.len() == 0 {
                                Ok(res)
                            } else {
                                match page_at(data, ps, right_of(p) as u64) {
                                    Err(e) => Err(e),
                                    Ok(rp) => match find_rows_spec(data, ps, rp, above, f) {
                                        Err(e) => Err(e),
                                        Ok(t) => Ok(res + t),
                                    },
                                }
                            }
                        },
                    },
                }
            }
        },
        _ => Err(ParsingError::InvalidPageType),
    }
}

/// The cells found under the left children of the interior page `p` for
/// `ids`; no ids, or no cells, find nothing.
pub open spec fn interior_find(data: Seq<u8>, ps: u16, p: Page, ids: Seq<i128>, fuel: nat) -> Result<
    Seq<CellModel>,
    ParsingError,
>
    decreases fuel, 2nat, 0nat,
{
    if ids.len() == 0 || p.page_header.cell_count == 0 {
        Ok(seq![])
    } else {
        match interior_cells_of(data, p) {
            Err(e) => Err(e),
            Ok(cells) => interior_search(data, ps, cells, ids, fuel, cells.len()),
        }
    }
}

/// The bounds of the left child of the `i`-th cell of an interior page.
pub open spec fn child_lo(cells: Seq<InteriorCell>, i: int) -> Option<i128> {
    if i == 0 {
        None
    } else {
        Some(cells[i - 1].rowid)
    }
}

/// The cells found under the left children of the first `n` of `cells`, each
/// searched for the ids of `ids` in its range; a child with none is skipped.
pub open spec fn interior_search(data: Seq<u8>, ps: u16, cells: Seq<InteriorCell>, ids: Seq<i128>, fuel: nat, n: nat) -> Result<
    Seq<CellModel>,
    ParsingError,
>
    decreases fuel, 1nat, n,
{
    if n == 0 || n > cells.len() {
        Ok(seq![])
    } else {
        match interior_search(data, ps, cells, ids, fuel, (n - 1) as nat) {
            Err(e) => Err(e),
            Ok(s) => {
                let m = ids_in(ids, child_lo(cells, n - 1), Some(cells[n - 1].rowid), false);
                if m.len() == 0 {
                    Ok(s)
                } else {
                    match page_at(data, ps, cells[n - 1].page_number as u64) {
                        Err(e) => Err(e),
                        Ok(c) => match find_rows_spec(data, ps, c, m, fuel) {
                            Err(e) => Err(e),
                            Ok(t) => Ok(s + t),
                        },
                    }
                }
            },
        }
    }
}

proof fn lemma_interior_search_err(data: Seq<u8>, ps: u16, cells: Seq<InteriorCell>, ids: Seq<i128>, fuel: nat, n: nat, m: nat)
    requires
        m <= n <= cells.len(),
        interior_search(data, ps, cells, ids, fuel, m) is Err,
    ensures
        interior_search(data, ps, cells, ids, fuel, n) == interior_search(data, ps, cells, ids, fuel, m),
    decreases n - m,
{
    if m < n {
        lemma_interior_search_err(data, ps, cells, ids, fuel, (n - 1) as nat, m);
    }
}

/// The cells of a table-leaf page whose row-ids are among `rowids`.
pub fn binary_search_leaf_page(page: &Page, reader: &SqliteReader, rowids: &[i128]) -> (r: Result<
    Vec<LazyLeafCell>,
    ParsingError,
>)
    requires
        page.wf(reader.data@),
    ensures
        match leaf_find(reader.data@, *page, rowids@) {
            Ok(s) => r is Ok && views(r->Ok_0@) == s,
            Err(e) => r == Err::<Vec<LazyLeafCell>, ParsingError>(e),
        },
{
    let data = reader.data.as_slice();
    let pointers = page.parse_cell_pointer_array(data);
    let count = pointers.len();
    if count == 0 {
        return Ok(Vec::new());
    }
    let first = parse_leaf_cell_lazy(data, cell_position(data, page, pointers[0]))?;
    let last = parse_leaf_cell_lazy(data, cell_position(data, page, pointers[count - 1]))?;
    let selected = filter_ids(rowids, Some(first.rowid), Some(last.rowid), true);
    if selected.len() == 0 {
        return Ok(Vec::new());
    }
    let cells = parse_leaf_cells(data, page)?;
    let mut out: Vec<LazyLeafCell> = Vec::new();
    let mut i: usize = 0;
    assert(views(out@) =~= seq![]);
    while i < cells.len()
        invariant
            i <= cells@.len(),
            views(out@) == keep_rows(views(cells@).subrange(0, i as int), selected@),
        decreases cells@.len() - i,
    {
        let ghost prev = out@;
        assert(views(cells@).subrange(0, i + 1).drop_last() == views(cells@).subrange(0, i as int));
        if contains_id(selected.as_slice(), cells[i].rowid) {
            out.push(cells[i].duplicate());
            assert(views(out@) =~= views(prev).push(cells@[i as int]@));
        }
        i = i + 1;
    }
    assert(views(cells@).subrange(0, i as int) == views(cells@));
    Ok(out)
}


/// The cells under `page` whose row-ids are among `rowids`, within `fuel` levels.
fn find_rows_at(reader: &SqliteReader, page: &Page, rowids: &[i128], fuel: u64) -> (r: Result<
    Vec<LazyLeafCell>,
    ParsingError,
>)
    requires
        page.wf(reader.data@),
    ensures
        match find_rows_spec(reader.data@, reader.header.page_size, *page, rowids@, fuel as nat) {
            Ok(s) => r is Ok && views(r->Ok_0@) == s,
            Err(e) => r == Err::<Vec<LazyLeafCell>, ParsingError>(e),
        },
    decreases fuel, 0nat,
{
    let data = reader.data.as_slice();
    match page.page_header.page_type {
        BtreePageType::LeafTablePage => binary_search_leaf_page(page, reader, rowids),
        BtreePageType::InteriorTablePage => {
            if fuel == 0 {
                return Err(ParsingError::InvalidPageType);
            }
            let right = match page.page_header.rightmost_pointer {
                Some(r) => r,
                None => 0,
            };
            let pointers = page.parse_cell_pointer_array(data);
            let count = pointers.len();
            if count == 0 {
                if rowids.len() == 0 {
                    return Ok(Vec::new());
                }
                let right_page = reader.read_page(right as u64)?;
                return find_rows_at(reader, &right_page, rowids, fuel - 1);
            }
            let last = parse_interior_cell(data, cell_position(data, page, pointers[count - 1]))?;
            let below = filter_ids(rowids, None, Some(last.rowid), true);
            let mut result = binary_search_interior_table_page(page, reader, below.as_slice(), fuel - 1)?;
            let above = filter_ids(rowids, Some(last.rowid), None, true);
            if above.len() == 0 {
                return Ok(result);
            }
            let right_page = reader.read_page(right as u64)?;
            let mut tail = find_rows_at(reader, &right_page, above.as_slice(), fuel - 1)?;
            let ghost prev = result@;
            let ghost tv = tail@;
            result.append(&mut tail);
            assert(views(result@) =~= views(prev) + views(tv));
            Ok(result)
        },
        _ => Err(ParsingError::InvalidPageType),
    }
}

/// The cells under the left children of the interior table page `page` whose
/// row-ids are among `rowids`: each child is searched, `depth` levels deep at
/// most, for the ids in its range, and a child with none is skipped.
pub fn binary_search_interior_table_page(page: &Page, reader: &SqliteReader, rowids: &[i128], depth: u64) -> (r:
    Result<Vec<LazyLeafCell>, ParsingError>)
    requires
        page.wf(reader.data@),
    ensures
        match interior_find(reader.data@, reader.header.page_size, *page, rowids@, depth as nat) {
            Ok(s) => r is Ok && views(r->Ok_0@) == s,
            Err(e) => r == Err::<Vec<LazyLeafCell>, ParsingError>(e),
        },
    decreases depth, 2nat,
{
    if rowids.len() == 0 || page.page_header.cell_count == 0 {
        return Ok(Vec::new());
    }
    let data = reader.data.as_slice();
    let cells = parse_interior_cells(data, page)?;
    let ghost ps = reader.header.page_size;
    let ghost d = depth as nat;
    let mut results: Vec<LazyLeafCell> = Vec::new();
    let mut i: usize = 0;
    assert(views(results@) =~= seq![]);
    while i < cells.len()
        invariant
            i <= cells@.len(),
            ps == reader.header.page_size,
            d == depth,
            interior_find(reader.data@, ps, *page, rowids@, d) == interior_search(reader.data@, ps, cells@, rowids@, d, cells@.len()),
            interior_search(reader.data@, ps, cells@, rowids@, d, i as nat) == Ok::<Seq<CellModel>, ParsingError>(
                views(results@),
            ),
        decreases cells@.len() - i,
    {
        let lo = if i == 0 {
            None
        } else {
            Some(cells[i - 1].rowid)
        };
        let matching = filter_ids(rowids, lo, Some(cells[i].rowid), false);
        if matching.len() > 0 {
            let child = match reader.read_page(cells[i].page_number as u64) {
                Ok(c) => c,
                Err(e) => {
                    proof {
                        lemma_interior_search_err(reader.data@, ps, cells@, rowids@, d, cells@.len(), (i + 1) as nat);
                    }
                    return Err(e);
                },
            };
            let mut sub = match find_rows_at(reader, &child, matching.as_slice(), depth) {
                Ok(v) => v,
                Err(e) => {
                    proof {
                        lemma_interior_search_err(reader.data@, ps, cells@, rowids@, d, cells@.len(), (i + 1) as nat);
                    }
                    return Err(e);
                },
            };
            let ghost prev = results@;
            let ghost sv = sub@;
            results.append(&mut sub);
            assert(views(results@) =~= views(prev) + views(sv));
        }
        i = i + 1;
    }
    Ok(results)
}

/// The cells of the table B-tree rooted at `page` whose row-ids are among
/// `rowids`, found by descending only into subtrees whose row-id range may
/// hold one of them (see `find_rows_spec`).
pub fn binary_search_cells_lazy(page: &Page, reader: &SqliteReader, rowids: &[i128]) -> (r: Result<
    Vec<LazyLeafCell>,
    ParsingError,
>)
    requires
        page.wf(reader.data@),
    ensures
        match find_rows_spec(reader.data@, reader.header.page_size, *page, rowids@, MAX_DEPTH as nat) {
            Ok(s) => r is Ok && views(r->Ok_0@) == s,
            Err(e) => r == Err::<Vec<LazyLeafCell>, ParsingError>(e),
        },
{
    find_rows_at(reader, page, rowids, MAX_DEPTH)
}


/// `out` put in front of the row-ids that `res` holds.
pub open spec fn prepend_ids(out: Seq<i128>, res: Result<Seq<i128>, ParsingError>) -> Result<Seq<i128>, ParsingError> {
    match res {
        Ok(t) => Ok(out + t),
        Err(e) => Err(e),
    }
}

/// The row-ids found by the index descent from page `p` for the cells whose
/// indexed value stands in relation `op` to `value`, following at most `fuel`
/// levels of interior pages.
///
/// At an interior page, for `=`: the separators are walked in order; one
/// equal to `value` gives its row-id and a descent into its left child, one
/// above `value` gives a descent into its left child and ends the walk; the
/// rightmost child is always searched. For the other operators every
/// separator that satisfies `op` gives its row-id; for `<` and `<=` every
/// left child is searched, for `>` and `>=` the left child of each separator
/// at least `value` (a child below a smaller separator holds no match); the
/// rightmost child is always searched. At a leaf page, the row-ids of the cells satisfying `op` come out
/// in page order. A table page is `InvalidPageType`.
pub open spec fn index_search_spec(data: Seq<u8>, ps: u16, p: Page, column: WhereColumn, value: Seq<u8>, op: Op, fuel: nat) -> Result<
    Seq<i128>,
    ParsingError,
>
    decreases fuel, 0nat, 0nat,
{
    match p.page_header.page_type {
        BtreePageType::InteriorIndexPage => if fuel == 0 {
            Err(ParsingError::InvalidPageType)
        } else {
            let f = (fuel - 1) as nat;
            if p.page_header.cell_count == 0 {
                match page_at(data, ps, right_of(p) as u64) {
                    Err(e) => Err(e),
                    Ok(rp) => index_search_spec(data, ps, rp, column, value, op, f),
                }
            } else {
                match index_interior_cells_of(data, p) {
                    Err(e) => Err(e),
                    Ok(cells) => {
                        let scanned = if op == Op::Eq {
                            eq_scan(data, ps, cells, column, value, f, 0)
                        } else {
                            range_scan(data, ps, cells, column, value, op, f, 0)
                        };
                        match scanned {
                            Err(e) => Err(e),
                            Ok(res) => {
                                match page_at(data, ps, right_of(p) as u64) {
                                    Err(e) => Err(e),
                                    Ok(rp) => prepend_ids(res, index_search_spec(data, ps, rp, column, value, op, f)),
                                }
                            },
                        }
                    },
                }
            }
        },
        BtreePageType::LeafIndexPage => match index_leaf_cells_of(data, p) {
            Err(e) => Err(e),
            Ok(cells) => leaf_index_scan(data, cells, column, value, op, cells.len()),
        },
        _ => Err(ParsingError::InvalidPageType),
    }
}

/// The `=` walk over the separators of an interior index page, from the `i`-th on.
pub open spec fn eq_scan(data: Seq<u8>, ps: u16, cells: Seq<(u32, CellModel)>, column: WhereColumn, value: Seq<u8>, fuel: nat, i: int) -> Result<
    Seq<i128>,
    ParsingError,
>
    decreases fuel, 1nat, cells.len() - i,
{
    if i < 0 || i >= cells.len() {
        Ok(seq![])
    } else {
        match operand_spec(column, data, cells[i].1) {
            Err(e) => Err(e),
            Ok(key) => if compare_spec(key, value, Op::Eq) {
                match page_at(data, ps, cells[i].0 as u64) {
                    Err(e) => Err(e),
                    Ok(c) => match index_search_spec(data, ps, c, column, value, Op::Eq, fuel) {
                        Err(e) => Err(e),
                        Ok(t) => prepend_ids(seq![cells[i].1.rowid] + t, eq_scan(data, ps, cells, column, value, fuel, i + 1)),
                    },
                }
            } else if compare_spec(value, key, Op::Lt) {
                match page_at(data, ps, cells[i].0 as u64) {
                    Err(e) => Err(e),
                    Ok(c) => index_search_spec(data, ps, c, column, value, Op::Eq, fuel),
                }
            } else {
                eq_scan(data, ps, cells, column, value, fuel, i + 1)
            },
        }
    }
}

/// Whether the range walk descends into the left child of a separator `key`.
pub open spec fn descend_left(key: Seq<u8>, value: Seq<u8>, op: Op) -> bool {
    match op {
        Op::Lt | Op::LtEq => true,
        Op::Gt | Op::GtEq => compare_spec(key, value, Op::GtEq),
        Op::Eq => false,
    }
}

/// The walk for `<`, `<=`, `>`, `>=` over the separators of an interior index
/// page, from the `i`-th on.
pub open spec fn range_scan(data: Seq<u8>, ps: u16, cells: Seq<(u32, CellModel)>, column: WhereColumn, value: Seq<u8>, op: Op, fuel: nat, i: int) -> Result<
    Seq<i128>,
    ParsingError,
>
    decreases fuel, 1nat, cells.len() - i,
{
    if i < 0 || i >= cells.len() {
        Ok(seq![])
    } else {
        match operand_spec(column, data, cells[i].1) {
            Err(e) => Err(e),
            Ok(key) => {
                let emit: Seq<i128> = if compare_spec(key, value, op) {
                    seq![cells[i].1.rowid]
                } else {
                    seq![]
                };
                if descend_left(key, value, op) {
                    match page_at(data, ps, cells[i].0 as u64) {
                        Err(e) => Err(e),
                        Ok(c) => match index_search_spec(data, ps, c, column, value, op, fuel) {
                            Err(e) => Err(e),
                            Ok(t) => prepend_ids(emit + t, range_scan(data, ps, cells, column, value, op, fuel, i + 1)),
                        },
                    }
                } else {
                    prepend_ids(emit, range_scan(data, ps, cells, column, value, op, fuel, i + 1))
                }
            },
        }
    }
}

/// The row-ids of the first `n` cells of an index leaf that satisfy `op`.
pub open spec fn leaf_index_scan(data: Seq<u8>, cells: Seq<CellModel>, column: WhereColumn, value: Seq<u8>, op: Op, n: nat) -> Result<
    Seq<i128>,
    ParsingError,
>
    decreases n,
{
    if n == 0 || n > cells.len() {
        Ok(seq![])
    } else {
        match leaf_index_scan(data, cells, column, value, op, (n - 1) as nat) {
            Err(e) => Err(e),
            Ok(s) => match operand_spec(column, data, cells[n - 1]) {
                Err(e) => Err(e),
                Ok(k) => Ok(
                    if compare_spec(k, value, op) {
                        s.push(cells[n - 1].rowid)
                    } else {
                        s
                    },
                ),
            },
        }
    }
}

proof fn lemma_leaf_index_scan_err(data: Seq<u8>, cells: Seq<CellModel>, column: WhereColumn, value: Seq<u8>, op: Op, n: nat, m: nat)
    requires
        m <= n <= cells.len(),
        leaf_index_scan(data, cells, column, value, op, m) is Err,
    ensures
        leaf_index_scan(data, cells, column, value, op, n) == leaf_index_scan(data, cells, column, value, op, m),
    decreases n - m,
{
    if m < n {
        lemma_leaf_index_scan_err(data, cells, column, value, op, (n - 1) as nat, m);
    }
}


/// The `=` walk over the separators `cells` of an interior index page.
fn eq_walk(reader: &SqliteReader, cells: &Vec<(u32, LazyLeafCell)>, column: WhereColumn, value: &[u8], fuel: u64) -> (r:
    Result<Vec<i128>, ParsingError>)
    ensures
        match eq_scan(reader.data@, reader.header.page_size, iviews(cells@), column, value@, fuel as nat, 0) {
            Ok(s) => r is Ok && r->Ok_0@ == s,
            Err(e) => r == Err::<Vec<i128>, ParsingError>(e),
        },
    decreases fuel, 1nat,
{
    let data = reader.data.as_slice();
    let ghost ps = reader.header.page_size;
    let ghost cs = iviews(cells@);
    let ghost f = fuel as nat;
    let ghost spec0 = eq_scan(reader.data@, ps, cs, column, value@, f, 0);
    let mut results: Vec<i128> = Vec::new();
    let mut done = false;
    let mut i: usize = 0;
    assert(results@ + seq![] == results@);
    while i < cells.len() && !done
        invariant
            i <= cells@.len(),
            cs == iviews(cells@),
            data@ == reader.data@,
            ps == reader.header.page_size,
            f == fuel,
            spec0 == eq_scan(reader.data@, ps, cs, column, value@, f, 0),
            done ==> spec0 == Ok::<Seq<i128>, ParsingError>(results@),
            !done ==> spec0 == prepend_ids(results@, eq_scan(reader.data@, ps, cs, column, value@, f, i as int)),
        decreases cells@.len() - i, if done { 0int } else { 1int },
    {
        let ghost before = results@;
        let ghost rest = eq_scan(reader.data@, ps, cs, column, value@, f, i + 1);
        assert(cs[i as int] == (cells@[i as int].0, cells@[i as int].1@));
        let key = operand(column, data, &cells[i].1)?;
        if compare(key.as_slice(), value, Op::Eq) {
            results.push(cells[i].1.rowid);
            let child = reader.read_page(cells[i].0 as u64)?;
            let mut t = index_search_at(reader, &child, column, value, Op::Eq, fuel)?;
            let ghost tv = t@;
            results.append(&mut t);
            proof {
                match rest {
                    Ok(rs) => {
                        assert(before + (seq![cs[i as int].1.rowid] + tv + rs) == results@ + rs);
                    },
                    Err(e) => {},
                }
            }
            i = i + 1;
        } else if compare(value, key.as_slice(), Op::Lt) {
            let child = reader.read_page(cells[i].0 as u64)?;
            let mut t = index_search_at(reader, &child, column, value, Op::Eq, fuel)?;
            results.append(&mut t);
            done = true;
        } else {
            i = i + 1;
        }
    }
    proof {
        if !done {
            assert(results@ + seq![] == results@);
        }
    }
    Ok(results)
}

/// The `<`, `<=`, `>`, `>=` walk over the separators `cells` of an interior index page.
fn range_walk(reader: &SqliteReader, cells: &Vec<(u32, LazyLeafCell)>, column: WhereColumn, value: &[u8], op: Op, fuel: u64) -> (r:
    Result<Vec<i128>, ParsingError>)
    ensures
        match range_scan(reader.data@, reader.header.page_size, iviews(cells@), column, value@, op, fuel as nat, 0) {
            Ok(s) => r is Ok && r->Ok_0@ == s,
            Err(e) => r == Err::<Vec<i128>, ParsingError>(e),
        },
    decreases fuel, 1nat,
{
    let data = reader.data.as_slice();
    let ghost ps = reader.header.page_size;
    let ghost cs = iviews(cells@);
    let ghost f = fuel as nat;
    let ghost spec0 = range_scan(reader.data@, ps, cs, column, value@, op, f, 0);
    let mut results: Vec<i128> = Vec::new();
    let mut i: usize = 0;
    assert(results@ + seq![] == results@);
    while i < cells.len()
        invariant
            i <= cells@.len(),
            cs == iviews(cells@),
            data@ == reader.data@,
            ps == reader.header.page_size,
            f == fuel,
            spec0 == range_scan(reader.data@, ps, cs, column, value@, op, f, 0),
            spec0 == prepend_ids(results@, range_scan(reader.data@, ps, cs, column, value@, op, f, i as int)),
        decreases cells@.len() - i,
    {
        let ghost before = results@;
        let ghost rest = range_scan(reader.data@, ps, cs, column, value@, op, f, i + 1);
        assert(cs[i as int] == (cells@[i as int].0, cells@[i as int].1@));
        let key = operand(column, data, &cells[i].1)?;
        let ghost emit: Seq<i128> = if compare_spec(key@, value@, op) {
            seq![cs[i as int].1.rowid]
        } else {
            seq![]
        };
        if compare(key.as_slice(), value, op) {
            results.push(cells[i].1.rowid);
        }
        assert(results@ == before + emit);
        let descend = match op {
            Op::Lt | Op::LtEq => true,
            Op::Gt | Op::GtEq => compare(key.as_slice(), value, Op::GtEq),
            Op::Eq => false,
        };
        if descend {
            let child = reader.read_page(cells[i].0 as u64)?;
            let mut t = index_search_at(reader, &child, column, value, op, fuel)?;
            let ghost tv = t@;
            results.append(&mut t);
            proof {
                match rest {
                    Ok(rs) => {
                        assert(before + (emit + tv + rs) == results@ + rs);
                    },
                    Err(e) => {},
                }
            }
        } else {
            proof {
                match rest {
                    Ok(rs) => {
                        assert(before + (emit + rs) == results@ + rs);
                    },
                    Err(e) => {},
                }
            }
        }
        i = i + 1;
    }
    assert(results@ + seq![] == results@);
    Ok(results)
}

/// The row-ids that the index descent from `page` finds, within `fuel` levels.
fn index_search_at(reader: &SqliteReader, page: &Page, column: WhereColumn, value: &[u8], op: Op, fuel: u64) -> (r: Result<
    Vec<i128>,
    ParsingError,
>)
    requires
        page.wf(reader.data@),
    ensures
        match index_search_spec(reader.data@, reader.header.page_size, *page, column, value@, op, fuel as nat) {
            Ok(s) => r is Ok && r->Ok_0@ == s,
            Err(e) => r == Err::<Vec<i128>, ParsingError>(e),
        },
    decreases fuel, 0nat,
{
    let data = reader.data.as_slice();
    match page.page_header.page_type {
        BtreePageType::InteriorIndexPage => {
            if fuel == 0 {
                return Err(ParsingError::InvalidPageType);
            }
            let right = match page.page_header.rightmost_pointer {
                Some(r) => r,
                None => 0,
            };
            if page.page_header.cell_count == 0 {
                let right_page = reader.read_page(right as u64)?;
                return index_search_at(reader, &right_page, column, value, op, fuel - 1);
            }
            let cells = parse_index_interior_cells(data, page)?;
            let mut results = match op {
                Op::Eq => eq_walk(reader, &cells, column, value, fuel - 1)?,
                _ => range_walk(reader, &cells, column, value, op, fuel - 1)?,
            };
            let right_page = reader.read_page(right as u64)?;
            let mut t = index_search_at(reader, &right_page, column, value, op, fuel - 1)?;
            results.append(&mut t);
            Ok(results)
        },
        BtreePageType::LeafIndexPage => {
            let cells = parse_index_leaf_cells(data, page)?;
            let ghost cs = views(cells@);
            let mut results: Vec<i128> = Vec::new();
            let mut i: usize = 0;
            assert(index_search_spec(reader.data@, reader.header.page_size, *page, column, value@, op, fuel as nat)
                == leaf_index_scan(reader.data@, cs, column, value@, op, cs.len()));
            while i < cells.len()
                invariant
                    i <= cells@.len(),
                    cs == views(cells@),
                    index_search_spec(reader.data@, reader.header.page_size, *page, column, value@, op, fuel as nat)
                        == leaf_index_scan(reader.data@, cs, column, value@, op, cs.len()),
                    data@ == reader.data@,
                    leaf_index_scan(reader.data@, cs, column, value@, op, i as nat) == Ok::<Seq<i128>, ParsingError>(results@),
                decreases cells@.len() - i,
            {
                assert(cs[i as int] == cells@[i as int]@);
                let ghost n1 = (i + 1) as nat;
                assert(n1 - 1 == i);
                assert(leaf_index_scan(reader.data@, cs, column, value@, op, (n1 - 1) as nat) == Ok::<Seq<i128>, ParsingError>(results@));
                let key = match operand(column, data, &cells[i]) {
                    Ok(k) => k,
                    Err(e) => {
                        proof {
                            assert(operand_spec(column, reader.data@, cs[n1 - 1]) == Err::<Seq<u8>, ParsingError>(e));
                            assert(leaf_index_scan(reader.data@, cs, column, value@, op, n1) is Err);
                            lemma_leaf_index_scan_err(reader.data@, cs, column, value@, op, cs.len(), (i + 1) as nat);
                        }
                        return Err(e);
                    },
                };
                if compare(key.as_slice(), value, op) {
                    results.push(cells[i].rowid);
                }
                i = i + 1;
            }
            Ok(results)
        },
        _ => Err(ParsingError::InvalidPageType),
    }
}

/// The row-ids that the index B-tree rooted at `page` yields for the
/// predicate `column op value` (see `index_search_spec`), in descent order.
pub fn index_search(page: &Page, reader: &SqliteReader, column: WhereColumn, value: &[u8], op: Op) -> (r: Result<
    Vec<i128>,
    ParsingError,
>)
    requires
        page.wf(reader.data@),
    ensures
        match index_search_spec(reader.data@, reader.header.page_size, *page, column, value@, op, MAX_DEPTH as nat) {
            Ok(s) => r is Ok && r->Ok_0@ == s,
            Err(e) => r == Err::<Vec<i128>, ParsingError>(e),
        },
{
    index_search_at(reader, page, column, value, op, MAX_DEPTH)
}

} // verus!
