//! Row-id order in table B-trees, what the traversals give on ordered trees,
//! and what the index descent gives on a leaf index.
use crate::cell::{
    cell_offset, child_lo, index_interior_cells_of, index_leaf_cells_of, index_search_spec, leaf_index_scan,
    prepend_ids, range_scan, child_pages, find_rows_spec, ids_in, in_range, interior_cell_at,
    interior_cell_fn, interior_cells_of, interior_find, interior_search, keep_rows, leaf_cell_at, leaf_cell_fn,
    leaf_cells_of, leaf_find, lemma_collect_ok, right_of, subtree_cells, table_cells,
};
use crate::parsing_error::ParsingError;
use crate::select_builder::{compare_spec, operand_spec, Op, WhereColumn};
use crate::interior_cell::InteriorCell;
use crate::leaf_cell::CellModel;
use crate::page::Page;
use crate::page_header::BtreePageType;
use crate::reader::page_at;
use vstd::prelude::*;

verus! {

/// Whether the row-ids of `s` strictly increase and all lie in `[lo, hi)`.
pub open spec fn sorted_within(s: Seq<CellModel>, lo: Option<i128>, hi: Option<i128>) -> bool {
    &&& forall|i: int, j: int| 0 <= i < j < s.len() ==> s[i].rowid < s[j].rowid
    &&& forall|i: int| 0 <= i < s.len() ==> in_range(#[trigger] s[i].rowid, lo, hi, false)
}

/// The row-id range `[lo, hi)` of the `i`-th child of an interior page whose
/// own range is `[lo, hi)`: the left child of cell `i` lies below its
/// separator and at or above the previous one; the rightmost child (`i` equal
/// to the number of cells) at or above the last separator.
pub open spec fn child_bounds(cells: Seq<InteriorCell>, lo: Option<i128>, hi: Option<i128>, i: int) -> (
    Option<i128>,
    Option<i128>,
) {
    (
        if i == 0 {
            lo
        } else {
            Some(cells[i - 1].rowid)
        },
        if i < cells.len() {
            Some(cells[i].rowid)
        } else {
            hi
        },
    )
}

/// Whether the table B-tree rooted at `p` is ordered within `[lo, hi)` and
/// at most `fuel` levels of interior pages deep: every page decodes, leaf
/// row-ids strictly increase, separators strictly increase and lie in the
/// range, and each child is ordered within its own range (`child_bounds`).
pub open spec fn ordered_table(data: Seq<u8>, ps: u16, p: Page, fuel: nat, lo: Option<i128>, hi: Option<i128>) -> bool
    decreases fuel, 0nat, 0nat,
{
    match p.page_header.page_type {
        BtreePageType::LeafTablePage => leaf_cells_of(data, p) is Ok && sorted_within(leaf_cells_of(data, p)->Ok_0, lo, hi),
        BtreePageType::InteriorTablePage => fuel > 0 && interior_cells_of(data, p) is Ok && {
            let cells = interior_cells_of(data, p)->Ok_0;
            let pages = child_pages(cells, right_of(p));
            &&& forall|i: int, j: int| 0 <= i < j < cells.len() ==> cells[i].rowid < cells[j].rowid
            &&& forall|i: int| 0 <= i < cells.len() ==> in_range(#[trigger] cells[i].rowid, lo, hi, false)
            &&& ordered_children(data, ps, cells, pages, (fuel - 1) as nat, lo, hi, pages.len())
        },
        _ => false,
    }
}

/// Whether the first `n` children `pages` of an interior page with cells
/// `cells` and range `[lo, hi)` decode and are ordered within their ranges.
pub open spec fn ordered_children(
    data: Seq<u8>,
    ps: u16,
    cells: Seq<InteriorCell>,
    pages: Seq<u32>,
    fuel: nat,
    lo: Option<i128>,
    hi: Option<i128>,
    n: nat,
) -> bool
    decreases fuel, 1nat, n,
{
    if n == 0 || n > pages.len() {
        true
    } else {
        &&& ordered_children(data, ps, cells, pages, fuel, lo, hi, (n - 1) as nat)
        &&& match page_at(data, ps, pages[n - 1] as u64) {
            Ok(c) => ordered_table(
                data,
                ps,
                c,
                fuel,
                child_bounds(cells, lo, hi, n - 1).0,
                child_bounds(cells, lo, hi, n - 1).1,
            ),
            Err(_) => false,
        }
    }
}

/// On an ordered table B-tree the full scan succeeds and yields its cells in
/// strictly ascending row-id order, all within the tree's row-id range; on a
/// leaf page, exactly its cells.
pub proof fn lemma_scan_is_sorted(data: Seq<u8>, ps: u16, p: Page, fuel: nat, lo: Option<i128>, hi: Option<i128>)
    requires
        ordered_table(data, ps, p, fuel, lo, hi),
    ensures
        table_cells(data, ps, p, fuel) is Ok,
        sorted_within(table_cells(data, ps, p, fuel)->Ok_0, lo, hi),
        p.page_header.page_type == BtreePageType::LeafTablePage ==> table_cells(data, ps, p, fuel)->Ok_0.len()
            == p.page_header.cell_count,
    decreases fuel, 0nat, 0nat,
{
    match p.page_header.page_type {
        BtreePageType::LeafTablePage => {
            lemma_collect_ok(p.page_header.cell_count as nat, leaf_cell_fn(data, p));
        },
        BtreePageType::InteriorTablePage => {
            let cells = interior_cells_of(data, p)->Ok_0;
            let pages = child_pages(cells, right_of(p));
            lemma_children_sorted(data, ps, cells, pages, (fuel - 1) as nat, lo, hi, pages.len());
        },
        _ => {},
    }
}

proof fn lemma_children_sorted(
    data: Seq<u8>,
    ps: u16,
    cells: Seq<InteriorCell>,
    pages: Seq<u32>,
    fuel: nat,
    lo: Option<i128>,
    hi: Option<i128>,
    n: nat,
)
    requires
        n <= pages.len(),
        pages.len() == cells.len() + 1,
        forall|i: int, j: int| 0 <= i < j < cells.len() ==> cells[i].rowid < cells[j].rowid,
        forall|i: int| 0 <= i < cells.len() ==> in_range(#[trigger] cells[i].rowid, lo, hi, false),
        ordered_children(data, ps, cells, pages, fuel, lo, hi, n),
    ensures
        subtree_cells(data, ps, pages, fuel, n) is Ok,
        n == 0 ==> subtree_cells(data, ps, pages, fuel, n)->Ok_0.len() == 0,
        n > 0 ==> sorted_within(subtree_cells(data, ps, pages, fuel, n)->Ok_0, lo, child_bounds(cells, lo, hi, n - 1).1),
    decreases fuel, 1nat, n,
{
    if n > 0 {
        lemma_children_sorted(data, ps, cells, pages, fuel, lo, hi, (n - 1) as nat);
        let c = page_at(data, ps, pages[n - 1] as u64)->Ok_0;
        let (l, h) = child_bounds(cells, lo, hi, n - 1);
        lemma_scan_is_sorted(data, ps, c, fuel, l, h);
        let prev = subtree_cells(data, ps, pages, fuel, (n - 1) as nat)->Ok_0;
        let new = table_cells(data, ps, c, fuel)->Ok_0;
        let all = prev + new;
        assert(subtree_cells(data, ps, pages, fuel, n) == Ok::<Seq<CellModel>, crate::parsing_error::ParsingError>(all));
        if n == 1 {
            assert(all =~= new);
        } else {
            let sep = cells[n - 2].rowid;
            assert forall|i: int| 0 <= i < prev.len() implies #[trigger] prev[i].rowid < sep by {
                assert(in_range(prev[i].rowid, lo, child_bounds(cells, lo, hi, n - 2).1, false));
            }
            assert forall|j: int| 0 <= j < new.len() implies sep <= #[trigger] new[j].rowid by {
                assert(in_range(new[j].rowid, l, h, false));
            }
            assert(in_range(sep, lo, hi, false));
            if n - 1 < cells.len() {
                assert(sep < cells[n - 1].rowid);
            }
            assert forall|i: int, j: int| 0 <= i < j < all.len() implies all[i].rowid < all[j].rowid by {
                if j < prev.len() {
                } else if i >= prev.len() {
                    assert(all[i] == new[i - prev.len()]);
                    assert(all[j] == new[j - prev.len()]);
                } else {
                    assert(all[i] == prev[i]);
                    assert(all[j] == new[j - prev.len()]);
                }
            }
            assert forall|i: int| 0 <= i < all.len() implies in_range(#[trigger] all[i].rowid, lo, h, false) by {
                if i < prev.len() {
                    assert(all[i] == prev[i]);
                    assert(in_range(prev[i].rowid, lo, child_bounds(cells, lo, hi, n - 2).1, false));
                } else {
                    assert(all[i] == new[i - prev.len()]);
                    assert(in_range(new[i - prev.len()].rowid, l, h, false));
                }
            }
        }
    }
}


proof fn lemma_keep_concat(a: Seq<CellModel>, b: Seq<CellModel>, ids: Seq<i128>)
    ensures
        keep_rows(a + b, ids) == keep_rows(a, ids) + keep_rows(b, ids),
    decreases b.len(),
{
    if b.len() == 0 {
        assert(a + b =~= a);
        assert(keep_rows(a, ids) + keep_rows(b, ids) =~= keep_rows(a, ids));
    } else {
        lemma_keep_concat(a, b.drop_last(), ids);
        assert((a + b).drop_last() =~= a + b.drop_last());
        assert((a + b).last() == b.last());
        if ids.contains(b.last().rowid) {
            assert(keep_rows(a, ids) + keep_rows(b, ids) =~= (keep_rows(a, ids) + keep_rows(b.drop_last(), ids)).push(b.last()));
        } else {
        }
    }
}

proof fn lemma_keep_same(s: Seq<CellModel>, ids1: Seq<i128>, ids2: Seq<i128>)
    requires
        forall|i: int| 0 <= i < s.len() ==> (ids1.contains(#[trigger] s[i].rowid) == ids2.contains(s[i].rowid)),
    ensures
        keep_rows(s, ids1) == keep_rows(s, ids2),
    decreases s.len(),
{
    if s.len() > 0 {
        assert forall|i: int| 0 <= i < s.drop_last().len() implies (ids1.contains(#[trigger] s.drop_last()[i].rowid)
            == ids2.contains(s.drop_last()[i].rowid)) by {
            assert(s.drop_last()[i] == s[i]);
        }
        lemma_keep_same(s.drop_last(), ids1, ids2);
        assert(s.last() == s[s.len() - 1]);
    }
}

proof fn lemma_keep_none(s: Seq<CellModel>, ids: Seq<i128>)
    requires
        forall|i: int| 0 <= i < s.len() ==> !ids.contains(#[trigger] s[i].rowid),
    ensures
        keep_rows(s, ids) == Seq::<CellModel>::empty(),
    decreases s.len(),
{
    if s.len() > 0 {
        assert forall|i: int| 0 <= i < s.drop_last().len() implies !ids.contains(#[trigger] s.drop_last()[i].rowid) by {
            assert(s.drop_last()[i] == s[i]);
        }
        lemma_keep_none(s.drop_last(), ids);
        assert(s.last() == s[s.len() - 1]);
    }
}

proof fn lemma_ids_in_contains(ids: Seq<i128>, lo: Option<i128>, hi: Option<i128>, incl: bool, r: i128)
    ensures
        ids_in(ids, lo, hi, incl).contains(r) == (ids.contains(r) && in_range(r, lo, hi, incl)),
    decreases ids.len(),
{
    if ids.len() > 0 {
        lemma_ids_in_contains(ids.drop_last(), lo, hi, incl, r);
        let s = ids_in(ids.drop_last(), lo, hi, incl);
        if ids.contains(r) {
            let k = choose|k: int| 0 <= k < ids.len() && ids[k] == r;
            if k < ids.len() - 1 {
                assert(ids.drop_last()[k] == r);
            }
        }
        if ids.drop_last().contains(r) {
            let k = choose|k: int| 0 <= k < ids.drop_last().len() && ids.drop_last()[k] == r;
            assert(ids[k] == r);
        }
        if in_range(ids.last(), lo, hi, incl) {
            assert(s.push(ids.last())[s.len() as int] == ids.last());
            if s.contains(r) {
                let k = choose|k: int| 0 <= k < s.len() && s[k] == r;
                assert(s.push(ids.last())[k] == r);
            }
            if s.push(ids.last()).contains(r) {
                let k = choose|k: int| 0 <= k < s.len() + 1 && s.push(ids.last())[k] == r;
                if k < s.len() {
                    assert(s[k] == r);
                }
            }
        }
        assert(ids.last() == ids[ids.len() - 1]);
    }
}

/// On an ordered table B-tree the row-id targeted search finds exactly the
/// cells of the full scan whose row-id is among `ids`, in scan order.
pub proof fn lemma_find_rows_is_filtered_scan(
    data: Seq<u8>,
    ps: u16,
    p: Page,
    ids: Seq<i128>,
    fuel: nat,
    lo: Option<i128>,
    hi: Option<i128>,
)
    requires
        ordered_table(data, ps, p, fuel, lo, hi),
    ensures
        table_cells(data, ps, p, fuel) is Ok,
        find_rows_spec(data, ps, p, ids, fuel) == Ok::<Seq<CellModel>, ParsingError>(
            keep_rows(table_cells(data, ps, p, fuel)->Ok_0, ids),
        ),
    decreases fuel, 0nat, 2nat,
{
    lemma_scan_is_sorted(data, ps, p, fuel, lo, hi);
    match p.page_header.page_type {
        BtreePageType::LeafTablePage => lemma_leaf_find(data, p, ids, lo, hi),
        BtreePageType::InteriorTablePage => lemma_interior_find_rows(data, ps, p, ids, fuel, lo, hi),
        _ => {},
    }
}

proof fn lemma_leaf_find(data: Seq<u8>, p: Page, ids: Seq<i128>, lo: Option<i128>, hi: Option<i128>)
    requires
        p.page_header.page_type == BtreePageType::LeafTablePage,
        leaf_cells_of(data, p) is Ok,
        sorted_within(leaf_cells_of(data, p)->Ok_0, lo, hi),
    ensures
        leaf_find(data, p, ids) == Ok::<Seq<CellModel>, ParsingError>(keep_rows(leaf_cells_of(data, p)->Ok_0, ids)),
{
    let cells = leaf_cells_of(data, p)->Ok_0;
    let count = p.page_header.cell_count as int;
    lemma_collect_ok(count as nat, leaf_cell_fn(data, p));
    if count == 0 {
        assert(cells.len() == 0);
    } else {
        let first = cells[0];
        let last = cells[count - 1];
        assert(leaf_cell_fn(data, p)(0) == leaf_cell_at(data, cell_offset(data, p, 0)));
        assert(leaf_cell_fn(data, p)(count - 1) == leaf_cell_at(data, cell_offset(data, p, count - 1)));
        let sel = ids_in(ids, Some(first.rowid), Some(last.rowid), true);
        assert forall|i: int| 0 <= i < cells.len() implies (sel.contains(#[trigger] cells[i].rowid) == ids.contains(
            cells[i].rowid,
        )) by {
            lemma_ids_in_contains(ids, Some(first.rowid), Some(last.rowid), true, cells[i].rowid);
            if i > 0 {
                assert(cells[0].rowid < cells[i].rowid);
            }
            if i < count - 1 {
                assert(cells[i].rowid < cells[count - 1].rowid);
            }
        }
        lemma_keep_same(cells, sel, ids);
        if sel.len() == 0 {
            assert forall|i: int| 0 <= i < cells.len() implies !sel.contains(#[trigger] cells[i].rowid) by {}
            lemma_keep_none(cells, sel);
        }
    }
}

proof fn lemma_child_ordered(
    data: Seq<u8>,
    ps: u16,
    cells: Seq<InteriorCell>,
    pages: Seq<u32>,
    fuel: nat,
    lo: Option<i128>,
    hi: Option<i128>,
    n: nat,
    i: int,
)
    requires
        0 <= i < n <= pages.len(),
        ordered_children(data, ps, cells, pages, fuel, lo, hi, n),
    ensures
        page_at(data, ps, pages[i] as u64) is Ok,
        ordered_table(
            data,
            ps,
            page_at(data, ps, pages[i] as u64)->Ok_0,
            fuel,
            child_bounds(cells, lo, hi, i).0,
            child_bounds(cells, lo, hi, i).1,
        ),
    decreases n,
{
    if i < n - 1 {
        lemma_child_ordered(data, ps, cells, pages, fuel, lo, hi, (n - 1) as nat, i);
    }
}

proof fn lemma_ordered_prefix(
    data: Seq<u8>,
    ps: u16,
    cells: Seq<InteriorCell>,
    pages: Seq<u32>,
    fuel: nat,
    lo: Option<i128>,
    hi: Option<i128>,
    n: nat,
    m: nat,
)
    requires
        m <= n <= pages.len(),
        ordered_children(data, ps, cells, pages, fuel, lo, hi, n),
    ensures
        ordered_children(data, ps, cells, pages, fuel, lo, hi, m),
    decreases n,
{
    if m < n {
        lemma_ordered_prefix(data, ps, cells, pages, fuel, lo, hi, (n - 1) as nat, m);
    }
}

proof fn lemma_interior_find_rows(
    data: Seq<u8>,
    ps: u16,
    p: Page,
    ids: Seq<i128>,
    fuel: nat,
    lo: Option<i128>,
    hi: Option<i128>,
)
    requires
        p.page_header.page_type == BtreePageType::InteriorTablePage,
        ordered_table(data, ps, p, fuel, lo, hi),
    ensures
        table_cells(data, ps, p, fuel) is Ok,
        find_rows_spec(data, ps, p, ids, fuel) == Ok::<Seq<CellModel>, ParsingError>(
            keep_rows(table_cells(data, ps, p, fuel)->Ok_0, ids),
        ),
    decreases fuel, 0nat, 1nat,
{
    let f = (fuel - 1) as nat;
    let cells = interior_cells_of(data, p)->Ok_0;
    let k = cells.len() as int;
    let pages = child_pages(cells, right_of(p));
    let count = p.page_header.cell_count as int;
    lemma_collect_ok(count as nat, interior_cell_fn(data, p));
    assert(k == count);
    lemma_scan_is_sorted(data, ps, p, fuel, lo, hi);
    lemma_children_sorted(data, ps, cells, pages, f, lo, hi, pages.len());
    lemma_child_ordered(data, ps, cells, pages, f, lo, hi, pages.len(), k);
    assert(pages[k] == right_of(p));
    let rp = page_at(data, ps, right_of(p) as u64)->Ok_0;
    let (rl, rh) = child_bounds(cells, lo, hi, k);
    lemma_scan_is_sorted(data, ps, rp, f, rl, rh);
    let tk = table_cells(data, ps, rp, f)->Ok_0;
    lemma_ordered_prefix(data, ps, cells, pages, f, lo, hi, pages.len(), k as nat);
    lemma_children_sorted(data, ps, cells, pages, f, lo, hi, k as nat);
    let before = subtree_cells(data, ps, pages, f, k as nat)->Ok_0;
    let all = before + tk;
    assert(subtree_cells(data, ps, pages, f, pages.len()) == Ok::<Seq<CellModel>, ParsingError>(all));
    assert(table_cells(data, ps, p, fuel) == Ok::<Seq<CellModel>, ParsingError>(all));
    lemma_keep_concat(before, tk, ids);
    if k == 0 {
        assert(before.len() == 0);
        assert(all =~= tk);
        assert(keep_rows(before, ids) =~= seq![]);
        if ids.len() == 0 {
            assert forall|i: int| 0 <= i < tk.len() implies !ids.contains(#[trigger] tk[i].rowid) by {}
            lemma_keep_none(tk, ids);
        } else {
            lemma_find_rows_is_filtered_scan(data, ps, rp, ids, f, rl, rh);
        }
    } else {
        lemma_interior_find_rows_nonempty(data, ps, p, ids, fuel, lo, hi);
    }
}

proof fn lemma_interior_find_rows_nonempty(
    data: Seq<u8>,
    ps: u16,
    p: Page,
    ids: Seq<i128>,
    fuel: nat,
    lo: Option<i128>,
    hi: Option<i128>,
)
    requires
        p.page_header.page_type == BtreePageType::InteriorTablePage,
        ordered_table(data, ps, p, fuel, lo, hi),
        p.page_header.cell_count > 0,
    ensures
        table_cells(data, ps, p, fuel) is Ok,
        find_rows_spec(data, ps, p, ids, fuel) == Ok::<Seq<CellModel>, ParsingError>(
            keep_rows(table_cells(data, ps, p, fuel)->Ok_0, ids),
        ),
    decreases fuel, 0nat, 0nat,
{
    let f = (fuel - 1) as nat;
    let cells = interior_cells_of(data, p)->Ok_0;
    let k = cells.len() as int;
    let pages = child_pages(cells, right_of(p));
    let count = p.page_header.cell_count as int;
    lemma_collect_ok(count as nat, interior_cell_fn(data, p));
    lemma_children_sorted(data, ps, cells, pages, f, lo, hi, pages.len());
    lemma_child_ordered(data, ps, cells, pages, f, lo, hi, pages.len(), k);
    assert(pages[k] == right_of(p));
    let rp = page_at(data, ps, right_of(p) as u64)->Ok_0;
    let (rl, rh) = child_bounds(cells, lo, hi, k);
    lemma_scan_is_sorted(data, ps, rp, f, rl, rh);
    let tk = table_cells(data, ps, rp, f)->Ok_0;
    lemma_ordered_prefix(data, ps, cells, pages, f, lo, hi, pages.len(), k as nat);
    lemma_children_sorted(data, ps, cells, pages, f, lo, hi, k as nat);
    let before = subtree_cells(data, ps, pages, f, k as nat)->Ok_0;
    let all = before + tk;
    assert(subtree_cells(data, ps, pages, f, pages.len()) == Ok::<Seq<CellModel>, ParsingError>(all));
    assert(table_cells(data, ps, p, fuel) == Ok::<Seq<CellModel>, ParsingError>(all));
    lemma_keep_concat(before, tk, ids);
    let big = cells[k - 1].rowid;
    assert(interior_cell_fn(data, p)(k - 1) == interior_cell_at(data, cell_offset(data, p, k - 1)));
    let below = ids_in(ids, None, Some(big), true);
    let above = ids_in(ids, Some(big), None, true);
    assert forall|i: int| 0 <= i < before.len() implies (#[trigger] before[i]).rowid < big by {
        assert(in_range(before[i].rowid, lo, child_bounds(cells, lo, hi, k - 1).1, false));
    }
    assert forall|i: int| 0 <= i < tk.len() implies big <= (#[trigger] tk[i]).rowid by {
        assert(in_range(tk[i].rowid, rl, rh, false));
    }
    // the row-ids below the last separator find the cells left of it
    if below.len() == 0 {
        assert forall|i: int| 0 <= i < before.len() implies !ids.contains(#[trigger] before[i].rowid) by {
            lemma_ids_in_contains(ids, None, Some(big), true, before[i].rowid);
        }
        lemma_keep_none(before, ids);
        assert(interior_find(data, ps, p, below, f) == Ok::<Seq<CellModel>, ParsingError>(keep_rows(before, ids)));
    } else {
        lemma_search_found(data, ps, cells, pages, f, lo, hi, ids, big, k as nat);
        assert(interior_find(data, ps, p, below, f) == interior_search(data, ps, cells, below, f, cells.len()));
    }
    // those at or above it find the rightmost child's
    if above.len() == 0 {
        assert forall|i: int| 0 <= i < tk.len() implies !ids.contains(#[trigger] tk[i].rowid) by {
            lemma_ids_in_contains(ids, Some(big), None, true, tk[i].rowid);
        }
        lemma_keep_none(tk, ids);
        assert(keep_rows(before, ids) + keep_rows(tk, ids) =~= keep_rows(before, ids));
    } else {
        lemma_find_rows_is_filtered_scan(data, ps, rp, above, f, rl, rh);
        assert forall|i: int| 0 <= i < tk.len() implies (above.contains(#[trigger] tk[i].rowid) == ids.contains(
            tk[i].rowid,
        )) by {
            lemma_ids_in_contains(ids, Some(big), None, true, tk[i].rowid);
        }
        lemma_keep_same(tk, above, ids);
    }
}

proof fn lemma_search_found(
    data: Seq<u8>,
    ps: u16,
    cells: Seq<InteriorCell>,
    pages: Seq<u32>,
    fuel: nat,
    lo: Option<i128>,
    hi: Option<i128>,
    ids: Seq<i128>,
    big: i128,
    n: nat,
)
    requires
        0 < cells.len(),
        n <= cells.len(),
        pages == child_pages(cells, pages.last()),
        pages.len() == cells.len() + 1,
        big == cells.last().rowid,
        forall|i: int, j: int| 0 <= i < j < cells.len() ==> cells[i].rowid < cells[j].rowid,
        forall|i: int| 0 <= i < cells.len() ==> in_range(#[trigger] cells[i].rowid, lo, hi, false),
        ordered_children(data, ps, cells, pages, fuel, lo, hi, pages.len()),
    ensures
        subtree_cells(data, ps, pages, fuel, n) is Ok,
        interior_search(data, ps, cells, ids_in(ids, None, Some(big), true), fuel, n) == Ok::<
            Seq<CellModel>,
            ParsingError,
        >(keep_rows(subtree_cells(data, ps, pages, fuel, n)->Ok_0, ids)),
    decreases fuel, 1nat, n,
{
    let below = ids_in(ids, None, Some(big), true);
    lemma_ordered_prefix(data, ps, cells, pages, fuel, lo, hi, pages.len(), n);
    lemma_children_sorted(data, ps, cells, pages, fuel, lo, hi, n);
    if n == 0 {
        assert(keep_rows(subtree_cells(data, ps, pages, fuel, n)->Ok_0, ids) =~= seq![]);
    } else {
        lemma_search_found(data, ps, cells, pages, fuel, lo, hi, ids, big, (n - 1) as nat);
        lemma_child_ordered(data, ps, cells, pages, fuel, lo, hi, pages.len(), n - 1);
        assert(pages[n - 1] == cells[n - 1].page_number);
        let c = page_at(data, ps, pages[n - 1] as u64)->Ok_0;
        let (l, h) = child_bounds(cells, lo, hi, n - 1);
        lemma_scan_is_sorted(data, ps, c, fuel, l, h);
        let t = table_cells(data, ps, c, fuel)->Ok_0;
        let prev = subtree_cells(data, ps, pages, fuel, (n - 1) as nat)->Ok_0;
        lemma_keep_concat(prev, t, ids);
        let m = ids_in(below, child_lo(cells, n - 1), Some(cells[n - 1].rowid), false);
        if n - 1 < cells.len() - 1 {
            assert(cells[n - 1].rowid < big);
        }
        assert forall|i: int| 0 <= i < t.len() implies (m.contains(#[trigger] t[i].rowid) == ids.contains(t[i].rowid)) by {
            assert(in_range(t[i].rowid, l, h, false));
            lemma_ids_in_contains(below, child_lo(cells, n - 1), Some(cells[n - 1].rowid), false, t[i].rowid);
            lemma_ids_in_contains(ids, None, Some(big), true, t[i].rowid);
        }
        lemma_keep_same(t, m, ids);
        if m.len() == 0 {
            assert forall|i: int| 0 <= i < t.len() implies !m.contains(#[trigger] t[i].rowid) by {}
            lemma_keep_none(t, m);
            assert(keep_rows(prev, ids) + keep_rows(t, ids) =~= keep_rows(prev, ids));
        } else {
            lemma_find_rows_is_filtered_scan(data, ps, c, m, fuel, l, h);
        }
    }
}

/// On an ordered table B-tree the row-id targeted search does not depend on
/// the order of the requested row-ids, nor on repetitions among them.
pub proof fn lemma_find_rows_order_agnostic(
    data: Seq<u8>,
    ps: u16,
    p: Page,
    ids1: Seq<i128>,
    ids2: Seq<i128>,
    fuel: nat,
    lo: Option<i128>,
    hi: Option<i128>,
)
    requires
        ordered_table(data, ps, p, fuel, lo, hi),
        forall|r: i128| ids1.contains(r) == ids2.contains(r),
    ensures
        find_rows_spec(data, ps, p, ids1, fuel) == find_rows_spec(data, ps, p, ids2, fuel),
{
    lemma_find_rows_is_filtered_scan(data, ps, p, ids1, fuel, lo, hi);
    lemma_find_rows_is_filtered_scan(data, ps, p, ids2, fuel, lo, hi);
    let all = table_cells(data, ps, p, fuel)->Ok_0;
    assert forall|i: int| 0 <= i < all.len() implies (ids1.contains(#[trigger] all[i].rowid) == ids2.contains(
        all[i].rowid,
    )) by {}
    lemma_keep_same(all, ids1, ids2);
}

/// Whether the entry `c` of an index, read from `data`, satisfies `column op value`.
pub open spec fn entry_matches(data: Seq<u8>, c: CellModel, column: WhereColumn, value: Seq<u8>, op: Op) -> bool {
    operand_spec(column, data, c) is Ok && compare_spec(operand_spec(column, data, c)->Ok_0, value, op)
}

proof fn lemma_leaf_scan_members(data: Seq<u8>, cells: Seq<CellModel>, column: WhereColumn, value: Seq<u8>, op: Op, n: nat, r: i128)
    requires
        n <= cells.len(),
        leaf_index_scan(data, cells, column, value, op, n) is Ok,
    ensures
        leaf_index_scan(data, cells, column, value, op, n)->Ok_0.contains(r) <==> exists|i: int|
            0 <= i < n && (#[trigger] cells[i]).rowid == r && entry_matches(data, cells[i], column, value, op),
    decreases n,
{
    if n > 0 {
        lemma_leaf_scan_members(data, cells, column, value, op, (n - 1) as nat, r);
        let s = leaf_index_scan(data, cells, column, value, op, (n - 1) as nat)->Ok_0;
        let c = cells[n - 1];
        let out = leaf_index_scan(data, cells, column, value, op, n)->Ok_0;
        if entry_matches(data, c, column, value, op) {
            assert(out == s.push(c.rowid));
            if out.contains(r) {
                let k = choose|k: int| 0 <= k < out.len() && out[k] == r;
                if k < s.len() {
                    assert(s[k] == r);
                }
            }
            if s.contains(r) {
                let k = choose|k: int| 0 <= k < s.len() && s[k] == r;
                assert(out[k] == r);
            }
            if c.rowid == r {
                assert(out[s.len() as int] == r);
            }
        } else {
            assert(out == s);
        }
    }
}

/// On an index whose root is a leaf page, the index descent yields a row-id
/// exactly when some entry with that row-id satisfies `column op value`, for
/// every operator.
pub proof fn lemma_leaf_index_search_exact(
    data: Seq<u8>,
    ps: u16,
    p: Page,
    column: WhereColumn,
    value: Seq<u8>,
    op: Op,
    fuel: nat,
    r: i128,
)
    requires
        p.page_header.page_type == BtreePageType::LeafIndexPage,
        index_search_spec(data, ps, p, column, value, op, fuel) is Ok,
    ensures
        index_search_spec(data, ps, p, column, value, op, fuel)->Ok_0.contains(r) <==> exists|i: int|
            0 <= i < index_leaf_cells_of(data, p)->Ok_0.len() && (#[trigger] index_leaf_cells_of(data, p)->Ok_0[i]).rowid
                == r && entry_matches(data, index_leaf_cells_of(data, p)->Ok_0[i], column, value, op),
{
    let cells = index_leaf_cells_of(data, p)->Ok_0;
    lemma_leaf_scan_members(data, cells, column, value, op, cells.len(), r);
}

/// Whether some entry of the index B-tree rooted at `p`, within `fuel`
/// levels of interior pages, has row-id `r` and satisfies `column op value`.
pub open spec fn index_has_match(data: Seq<u8>, ps: u16, p: Page, column: WhereColumn, value: Seq<u8>, op: Op, fuel: nat, r: i128) -> bool
    decreases fuel, 0nat, 0nat,
{
    match p.page_header.page_type {
        BtreePageType::LeafIndexPage => index_leaf_cells_of(data, p) is Ok && exists|i: int|
            0 <= i < index_leaf_cells_of(data, p)->Ok_0.len() && (#[trigger] index_leaf_cells_of(data, p)->Ok_0[i]).rowid == r
                && entry_matches(data, index_leaf_cells_of(data, p)->Ok_0[i], column, value, op),
        BtreePageType::InteriorIndexPage => fuel > 0 && index_interior_cells_of(data, p) is Ok && {
            let f = (fuel - 1) as nat;
            ||| children_have_match(data, ps, index_interior_cells_of(data, p)->Ok_0, column, value, op, f, r, 0)
            ||| match page_at(data, ps, right_of(p) as u64) {
                Ok(rp) => index_has_match(data, ps, rp, column, value, op, f, r),
                Err(_) => false,
            }
        },
        _ => false,
    }
}

/// Whether a separator of `cells` from the `i`-th on, or an entry under its
/// left child, has row-id `r` and satisfies `column op value`.
pub open spec fn children_have_match(
    data: Seq<u8>,
    ps: u16,
    cells: Seq<(u32, CellModel)>,
    column: WhereColumn,
    value: Seq<u8>,
    op: Op,
    fuel: nat,
    r: i128,
    i: int,
) -> bool
    decreases fuel, 1nat, cells.len() - i,
{
    if i < 0 || i >= cells.len() {
        false
    } else {
        ||| (cells[i].1.rowid == r && entry_matches(data, cells[i].1, column, value, op))
        ||| match page_at(data, ps, cells[i].0 as u64) {
            Ok(c) => index_has_match(data, ps, c, column, value, op, fuel, r),
            Err(_) => false,
        }
        ||| children_have_match(data, ps, cells, column, value, op, fuel, r, i + 1)
    }
}

proof fn lemma_contains_concat(a: Seq<i128>, b: Seq<i128>, r: i128)
    requires
        a.contains(r) || b.contains(r),
    ensures
        (a + b).contains(r),
{
    if a.contains(r) {
        let k = choose|k: int| 0 <= k < a.len() && a[k] == r;
        assert((a + b)[k] == r);
    } else {
        let k = choose|k: int| 0 <= k < b.len() && b[k] == r;
        assert((a + b)[a.len() + k] == r);
    }
}

/// For `<` and `<=`, the index descent finds every matching entry of any
/// index B-tree: each row-id whose entry satisfies the comparison is among
/// the row-ids it yields.
pub proof fn lemma_index_search_below_complete(
    data: Seq<u8>,
    ps: u16,
    p: Page,
    column: WhereColumn,
    value: Seq<u8>,
    op: Op,
    fuel: nat,
    r: i128,
)
    requires
        op == Op::Lt || op == Op::LtEq,
        index_search_spec(data, ps, p, column, value, op, fuel) is Ok,
        index_has_match(data, ps, p, column, value, op, fuel, r),
    ensures
        index_search_spec(data, ps, p, column, value, op, fuel)->Ok_0.contains(r),
    decreases fuel, 0nat, 0nat,
{
    match p.page_header.page_type {
        BtreePageType::LeafIndexPage => {
            let cells = index_leaf_cells_of(data, p)->Ok_0;
            lemma_leaf_scan_members(data, cells, column, value, op, cells.len(), r);
        },
        BtreePageType::InteriorIndexPage => {
            let f = (fuel - 1) as nat;
            let cells = index_interior_cells_of(data, p)->Ok_0;
            if p.page_header.cell_count == 0 {
                lemma_collect_empty_index(data, p);
                assert(cells.len() == 0);
                assert(!children_have_match(data, ps, cells, column, value, op, f, r, 0));
                let rp = page_at(data, ps, right_of(p) as u64)->Ok_0;
                lemma_index_search_below_complete(data, ps, rp, column, value, op, f, r);
            } else {
                let res = range_scan(data, ps, cells, column, value, op, f, 0)->Ok_0;
                let rp = page_at(data, ps, right_of(p) as u64)->Ok_0;
                let t = index_search_spec(data, ps, rp, column, value, op, f)->Ok_0;
                assert(index_search_spec(data, ps, p, column, value, op, fuel) == Ok::<Seq<i128>, ParsingError>(res + t));
                if children_have_match(data, ps, cells, column, value, op, f, r, 0) {
                    lemma_range_scan_complete(data, ps, cells, column, value, op, f, r, 0);
                    lemma_contains_concat(res, t, r);
                } else {
                    lemma_index_search_below_complete(data, ps, rp, column, value, op, f, r);
                    lemma_contains_concat(res, t, r);
                }
            }
        },
        _ => {},
    }
}

proof fn lemma_collect_empty_index(data: Seq<u8>, p: Page)
    requires
        p.page_header.cell_count == 0,
    ensures
        index_interior_cells_of(data, p) == Ok::<Seq<(u32, CellModel)>, ParsingError>(seq![]),
{
}

proof fn lemma_range_scan_complete(
    data: Seq<u8>,
    ps: u16,
    cells: Seq<(u32, CellModel)>,
    column: WhereColumn,
    value: Seq<u8>,
    op: Op,
    fuel: nat,
    r: i128,
    i: int,
)
    requires
        op == Op::Lt || op == Op::LtEq,
        0 <= i,
        range_scan(data, ps, cells, column, value, op, fuel, i) is Ok,
        children_have_match(data, ps, cells, column, value, op, fuel, r, i),
    ensures
        range_scan(data, ps, cells, column, value, op, fuel, i)->Ok_0.contains(r),
    decreases fuel, 1nat, cells.len() - i,
{
    let key = operand_spec(column, data, cells[i].1)->Ok_0;
    let emit: Seq<i128> = if compare_spec(key, value, op) {
        seq![cells[i].1.rowid]
    } else {
        seq![]
    };
    let c = page_at(data, ps, cells[i].0 as u64)->Ok_0;
    let t = index_search_spec(data, ps, c, column, value, op, fuel)->Ok_0;
    let rest = range_scan(data, ps, cells, column, value, op, fuel, i + 1)->Ok_0;
    assert(range_scan(data, ps, cells, column, value, op, fuel, i) == Ok::<Seq<i128>, ParsingError>(emit + t + rest));
    if cells[i].1.rowid == r && entry_matches(data, cells[i].1, column, value, op) {
        assert(emit[0] == r);
        lemma_contains_concat(emit, t, r);
        lemma_contains_concat(emit + t, rest, r);
    } else if index_has_match(data, ps, c, column, value, op, fuel, r) {
        lemma_index_search_below_complete(data, ps, c, column, value, op, fuel, r);
        lemma_contains_concat(emit, t, r);
        lemma_contains_concat(emit + t, rest, r);
    } else {
        lemma_range_scan_complete(data, ps, cells, column, value, op, fuel, r, i + 1);
        lemma_contains_concat(emit + t, rest, r);
    }
}

} // verus!
