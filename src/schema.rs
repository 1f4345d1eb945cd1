//! The schema table on page 1, and the commands built on it: the database
//! summary, the list of tables, and running a `SELECT`.
use crate::index_parser::{get_table_index_for_column_in, index_from, index_layout, leads_with_one_of, lower, names_contain, parse_index, IndexData};
use crate::parsing_error::ParsingError;
use crate::cell::{table_cells, MAX_DEPTH};
use crate::leaf_cell::CellModel;
use crate::reader::{page_at, SqliteReader};
use crate::select_builder::{
    expression_eval, plan_cells, where_eval, where_filter, where_fold, Combinator, plan_from, plan_resolves,
    copy_bytes_of, query_spec, rows_view, where_builder, Column, Op, SelectBuilder, Where, WhereColumn,
};
use crate::select_parser::{from_items, parse_select, parsed_from, select_parses, ParsedSelect, quoted, quoted_spec, select_layout, statement_text, ParsedWhere};
use crate::table_parser::{parse_table, table_from, table_parses, Table};
use crate::text::{decimal_value, parse_decimal};
use vstd::prelude::*;
use vstd::string::StringSliceAdditionalSpecFns;

verus! {

/// The page that holds the schema table.
pub const SCHEMA_PAGE_NUMBER: u64 = 1;

/// Positions of the schema table's columns.
pub const SCHEMA_TYPE_COLUMN: usize = 0;

pub const SCHEMA_TABLE_NAME_COLUMN: usize = 2;

pub const SCHEMA_ROOT_PAGE_COLUMN: usize = 3;

pub const SCHEMA_SQL_COLUMN: usize = 4;

/// The page size of the database and the number of cells on page 1, that is
/// of entries in the schema table's root page.
pub fn dbinfo(reader: &SqliteReader) -> (r: Result<(u16, u16), ParsingError>)
    ensures
        match page_at(reader.data@, reader.header.page_size, 1) {
            Ok(p) => r == Ok::<(u16, u16), ParsingError>((reader.header.page_size, p.page_header.cell_count)),
            Err(e) => r == Err::<(u16, u16), ParsingError>(e),
        },
{
    let first_page = reader.read_page(SCHEMA_PAGE_NUMBER)?;
    Ok((reader.header.page_size, first_page.page_header.cell_count))
}

/// Whether `b` is the plan that reads `columns` of the schema entries of
/// type `kind` (and, when given, of table `table`).
pub open spec fn is_schema_plan(b: SelectBuilder, kind: Seq<u8>, table: Option<Seq<u8>>, columns: Seq<Column>) -> bool {
    &&& b.table == SCHEMA_PAGE_NUMBER
    &&& b.index is None
    &&& b.columns@ == columns
    &&& b.where_comps is Some
    &&& ({
        let w = b.where_comps->0;
        &&& w.expression.column == WhereColumn::Column(SCHEMA_TYPE_COLUMN)
        &&& w.expression.op == Op::Eq
        &&& w.expression.value@ == quoted_spec(kind)
        &&& match table {
            None => w.combinator is None,
            Some(t) => schema_table_condition(w, t),
        }
    })
}

/// Whether the rest of the schema condition `w` is `tbl_name = "t"`.
pub open spec fn schema_table_condition(w: Where, t: Seq<u8>) -> bool {
    match w.combinator {
        Some(crate::select_builder::Combinator::And(rest)) => {
            &&& rest.expression.column == WhereColumn::Column(SCHEMA_TABLE_NAME_COLUMN)
            &&& rest.expression.op == Op::Eq
            &&& rest.expression.value@ == quoted_spec(t)
            &&& rest.combinator is None
        },
        _ => false,
    }
}

/// The plan that reads `columns` of the schema entries of type `kind` (and,
/// when given, of table `table`).
pub fn schema_query(kind: &[u8], table: Option<&[u8]>, columns: Vec<Column>) -> (r: SelectBuilder)
    ensures
        is_schema_plan(
            r,
            kind@,
            match table {
                Some(t) => Some(t@),
                None => None,
            },
            columns@,
        ),
{
    let mut condition = where_builder(WhereColumn::Column(SCHEMA_TYPE_COLUMN), Op::Eq, quoted(kind));
    match table {
        Some(t) => {
            let rest = where_builder(WhereColumn::Column(SCHEMA_TABLE_NAME_COLUMN), Op::Eq, quoted(t));
            condition = condition.and(rest);
        },
        None => {},
    }
    SelectBuilder::new(SCHEMA_PAGE_NUMBER, columns).where_cmp(condition)
}

/// The rows of a result joined into one text: the values of a row separated
/// by `col_sep`, the rows by `row_sep`.
pub open spec fn join_rows(rows: Seq<Seq<Seq<u8>>>, col_sep: u8, row_sep: u8) -> Seq<u8>
    decreases rows.len(),
{
    if rows.len() == 0 {
        seq![]
    } else if rows.len() == 1 {
        join_values(rows[0], col_sep)
    } else {
        join_rows(rows.drop_last(), col_sep, row_sep) + seq![row_sep] + join_values(rows.last(), col_sep)
    }
}

/// The values of a row separated by `sep`.
pub open spec fn join_values(row: Seq<Seq<u8>>, sep: u8) -> Seq<u8>
    decreases row.len(),
{
    if row.len() == 0 {
        seq![]
    } else if row.len() == 1 {
        row[0]
    } else {
        join_values(row.drop_last(), sep) + seq![sep] + row.last()
    }
}

/// Appends `v` to `out`.
fn append_bytes(out: &mut Vec<u8>, v: &[u8])
    ensures
        final(out)@ == old(out)@ + v@,
{
    let mut i: usize = 0;
    let ghost start = out@;
    while i < v.len()
        invariant
            i <= v@.len(),
            out@ == start + v@.subrange(0, i as int),
        decreases v@.len() - i,
    {
        out.push(v[i]);
        i = i + 1;
        assert(out@ =~= start + v@.subrange(0, i as int));
    }
    assert(v@.subrange(0, i as int) == v@);
}

/// The values of a row separated by `sep`.
fn join_row(row: &Vec<Vec<u8>>, sep: u8) -> (r: Vec<u8>)
    ensures
        r@ == join_values(row@.map_values(|v: Vec<u8>| v@), sep),
{
    let ghost rv = row@.map_values(|v: Vec<u8>| v@);
    let mut out: Vec<u8> = Vec::new();
    let mut i: usize = 0;
    while i < row.len()
        invariant
            i <= row@.len(),
            rv == row@.map_values(|v: Vec<u8>| v@),
            out@ == join_values(rv.subrange(0, i as int), sep),
        decreases row@.len() - i,
    {
        assert(rv.subrange(0, i + 1).drop_last() == rv.subrange(0, i as int));
        assert(rv[i as int] == row@[i as int]@);
        if i > 0 {
            out.push(sep);
        }
        append_bytes(&mut out, row[i].as_slice());
        i = i + 1;
    }
    assert(rv.subrange(0, i as int) == rv);
    out
}

/// The rows of a result joined into one text (see `join_rows`).
pub fn join_result(rows: &Vec<Vec<Vec<u8>>>, col_sep: u8, row_sep: u8) -> (r: Vec<u8>)
    ensures
        r@ == join_rows(rows_view(rows@), col_sep, row_sep),
{
    let ghost rv = rows_view(rows@);
    let mut out: Vec<u8> = Vec::new();
    let mut i: usize = 0;
    while i < rows.len()
        invariant
            i <= rows@.len(),
            rv == rows_view(rows@),
            out@ == join_rows(rv.subrange(0, i as int), col_sep, row_sep),
        decreases rows@.len() - i,
    {
        assert(rv.subrange(0, i + 1).drop_last() == rv.subrange(0, i as int));
        assert(rv[i as int] == rows@[i as int]@.map_values(|v: Vec<u8>| v@));
        if i > 0 {
            out.push(row_sep);
        }
        let line = join_row(&rows[i], col_sep);
        append_bytes(&mut out, line.as_slice());
        i = i + 1;
    }
    assert(rv.subrange(0, i as int) == rv);
    out
}

/// The word `table`.
pub open spec fn table_kind() -> Seq<u8> {
    seq![116u8, 97, 98, 108, 101]
}

/// The word `index`.
pub open spec fn index_kind() -> Seq<u8> {
    seq![105u8, 110, 100, 101, 120]
}

/// The names of the tables in schema order, separated by spaces (the values
/// of a row, were there several, by `|`).
pub fn list_tables(reader: &SqliteReader) -> (r: Result<Vec<u8>, ParsingError>)
    ensures
        exists|b: SelectBuilder|
            is_schema_plan(b, table_kind(), None, seq![Column::Column(SCHEMA_TABLE_NAME_COLUMN)]) && match query_spec(
                reader.data@,
                reader.header.page_size,
                b,
            ) {
                Ok(rows) => r is Ok && r->Ok_0@ == join_rows(rows, 124, 32),
                Err(e) => r == Err::<Vec<u8>, ParsingError>(e),
            },
{
    let kind: Vec<u8> = vec![116u8, 97, 98, 108, 101];
    assert(kind@ == table_kind());
    let mut columns: Vec<Column> = Vec::new();
    columns.push(Column::Column(SCHEMA_TABLE_NAME_COLUMN));
    assert(columns@ == seq![Column::Column(SCHEMA_TABLE_NAME_COLUMN)]);
    let plan = schema_query(kind.as_slice(), None, columns);
    let ghost b = plan;
    let rows = plan.execute(reader);
    match rows {
        Ok(rows) => Ok(join_result(&rows, 124u8, 32u8)),
        Err(e) => Err(e),
    }
}


/// Whether `std::str::from_utf8` accepts the bytes `b` as UTF-8 text.
pub uninterp spec fn utf8_ok(b: Seq<u8>) -> bool;

/// Relies on `std::str::from_utf8`: it succeeds exactly on the byte strings
/// it accepts (`utf8_ok`), and then the text has exactly the given bytes.
#[verifier::external_body]
fn utf8_text(b: &[u8]) -> (r: Option<&str>)
    ensures
        (r is Some) == utf8_ok(b@),
        r is Some ==> r->0.spec_bytes() == b@,
{
    std::str::from_utf8(b).ok()
}

/// The page number that the decimal text `t` of a schema entry gives.
pub open spec fn root_value(t: Seq<u8>) -> Option<u64> {
    match decimal_value(t) {
        Some(v) => if 0 <= v <= u64::MAX {
            Some(v as u64)
        } else {
            None
        },
        None => None,
    }
}

/// The root page number written in a schema entry, if it is a decimal
/// number that fits a page number.
fn root_page_of(text: &[u8]) -> (r: Option<u64>)
    ensures
        r == root_value(text@),
{
    match parse_decimal(text) {
        Some(v) => if 0 <= v && v <= 0xffff_ffff_ffff_ffff {
            Some(v as u64)
        } else {
            None
        },
        None => None,
    }
}

/// Whether the first column of index `d`, in lower case, is `name`.
pub open spec fn leads_with(d: IndexData, name: Seq<u8>) -> bool {
    d.columns@.len() > 0 && lower(d.columns@[0]@) == name
}

proof fn lemma_single_name(names: Seq<Vec<u8>>, s: Seq<u8>)
    requires
        names.len() == 1,
    ensures
        names_contain(names, s) == (names[0]@ == s),
{
    if names[0]@ == s {
        assert(names_contain(names, s));
    }
}

/// Whether `r` is the index that a query with condition `condition` uses
/// among `indices` (see `choose_index`).
pub open spec fn chosen_index(r: Option<IndexData>, indices: Seq<IndexData>, condition: Option<ParsedWhere>) -> bool {
    match condition {
        Some(w) => if w.combinator is None {
            match r {
                Some(d) => exists|i: int|
                    #![trigger indices[i]]
                    0 <= i < indices.len() && indices[i] == d && leads_with(d, w.expression.column@)
                        && forall|j: int| 0 <= j < i ==> !leads_with(#[trigger] indices[j], w.expression.column@),
                None => forall|j: int|
                    0 <= j < indices.len() ==> !leads_with(#[trigger] indices[j], w.expression.column@),
            }
        } else {
            r is None
        },
        None => r is None,
    }
}

/// The index that a query with condition `condition` uses: only a condition
/// of exactly one comparison picks one, the first of `indices` whose first
/// column (in lower case) is the compared column.
pub fn choose_index(indices: Vec<IndexData>, condition: &Option<ParsedWhere>) -> (r: Option<IndexData>)
    ensures
        chosen_index(r, indices@, *condition),
{
    match condition {
        Some(w) => {
            if w.combinator.is_some() {
                return None;
            }
            let mut where_columns: Vec<Vec<u8>> = Vec::new();
            let column = copy_bytes_of(&w.expression.column);
            where_columns.push(column);
            proof {
                assert forall|d: IndexData| #[trigger] leads_with_one_of(d, where_columns@) == leads_with(d, w.expression.column@) by {
                    if d.columns@.len() > 0 {
                        lemma_single_name(where_columns@, lower(d.columns@[0]@));
                    }
                }
            }
            get_table_index_for_column_in(indices, where_columns)
        },
        None => None,
    }
}

/// The schema entries of type `kind` for table `name`: their root page and definition.
pub open spec fn schema_rows(data: Seq<u8>, ps: u16, kind: Seq<u8>, name: Seq<u8>) -> Result<Seq<Seq<Seq<u8>>>, ParsingError> {
    query_spec(data, ps, choose|b: SelectBuilder| is_schema_plan(b, kind, Some(name), location_columns()))
}

proof fn lemma_where_filter_agree(data: Seq<u8>, cells: Seq<CellModel>, w1: Where, w2: Where)
    requires
        forall|c: CellModel| #[trigger] where_eval(w1, data, c) == where_eval(w2, data, c),
    ensures
        where_filter(data, cells, w1) == where_filter(data, cells, w2),
    decreases cells.len(),
{
    if cells.len() > 0 {
        lemma_where_filter_agree(data, cells.drop_last(), w1, w2);
        assert(where_eval(w1, data, cells.last()) == where_eval(w2, data, cells.last()));
    }
}

/// Two plans that `is_schema_plan` describes alike give the same result.
proof fn lemma_schema_plans_agree(data: Seq<u8>, ps: u16, b1: SelectBuilder, b2: SelectBuilder, kind: Seq<u8>, name: Option<Seq<u8>>, cols: Seq<Column>)
    requires
        is_schema_plan(b1, kind, name, cols),
        is_schema_plan(b2, kind, name, cols),
    ensures
        query_spec(data, ps, b1) == query_spec(data, ps, b2),
{
    let w1 = b1.where_comps->0;
    let w2 = b2.where_comps->0;
    assert forall|c: CellModel| #[trigger] where_eval(w1, data, c) == where_eval(w2, data, c) by {
        assert(expression_eval(w1.expression, data, c) == expression_eval(w2.expression, data, c));
        match (w1.combinator, w2.combinator) {
            (Some(Combinator::And(r1)), Some(Combinator::And(r2))) => {
                assert(expression_eval(r1.expression, data, c) == expression_eval(r2.expression, data, c));
                match expression_eval(w1.expression, data, c) {
                    Ok(v) => {
                        assert(where_fold(v, true, *r1, data, c) == where_fold(v, true, *r2, data, c));
                    },
                    Err(_) => {},
                }
            },
            _ => {},
        }
    }
    match page_at(data, ps, b1.table) {
        Ok(p) => match table_cells(data, ps, p, MAX_DEPTH as nat) {
            Ok(cells) => {
                lemma_where_filter_agree(data, cells, w1, w2);
            },
            Err(_) => {},
        },
        Err(_) => {},
    }
    assert(plan_cells(data, ps, b1) == plan_cells(data, ps, b2));
}

/// A schema plan for table `name` gives the table's schema entries.
proof fn lemma_schema_rows(data: Seq<u8>, ps: u16, b: SelectBuilder, kind: Seq<u8>, name: Seq<u8>)
    requires
        is_schema_plan(b, kind, Some(name), location_columns()),
    ensures
        query_spec(data, ps, b) == schema_rows(data, ps, kind, name),
{
    let c = choose|c: SelectBuilder| is_schema_plan(c, kind, Some(name), location_columns());
    lemma_schema_plans_agree(data, ps, b, c, kind, Some(name), location_columns());
}

/// The schema columns that locate a table: its root page and its definition.
pub open spec fn location_columns() -> Seq<Column> {
    seq![Column::Column(SCHEMA_ROOT_PAGE_COLUMN), Column::Column(SCHEMA_SQL_COLUMN)]
}

/// What the schema says of table `name` when its entries are `rows`: the
/// root page and the definition, when exactly one entry names the table and
/// its root page is a page number.
pub open spec fn location_of(rows: Seq<Seq<Seq<u8>>>) -> Option<(u64, Seq<u8>)> {
    if rows.len() == 1 && rows[0].len() >= 2 && root_value(rows[0][0]) is Some {
        Some((root_value(rows[0][0])->0, rows[0][1]))
    } else {
        None
    }
}

/// The root page and the `CREATE TABLE` text of table `name`, read from the
/// schema; a table that is not there exactly once, or whose root page is not
/// a page number, is `InvalidStatement`.
pub fn resolve_table(reader: &SqliteReader, name: &[u8]) -> (r: Result<(u64, Vec<u8>), ParsingError>)
    ensures
        match schema_rows(reader.data@, reader.header.page_size, table_kind(), name@) {
            Err(e) => r == Err::<(u64, Vec<u8>), ParsingError>(e),
            Ok(rows) => match location_of(rows) {
                Some((root, text)) => match r {
                    Ok((p, t)) => p == root && t@ == text,
                    Err(_) => false,
                },
                None => r == Err::<(u64, Vec<u8>), ParsingError>(ParsingError::InvalidStatement),
            },
        },
{
    let kind: Vec<u8> = vec![116u8, 97, 98, 108, 101];
    assert(kind@ == table_kind());
    let mut columns: Vec<Column> = Vec::new();
    columns.push(Column::Column(SCHEMA_ROOT_PAGE_COLUMN));
    columns.push(Column::Column(SCHEMA_SQL_COLUMN));
    assert(columns@ == location_columns());
    let plan = schema_query(kind.as_slice(), Some(name), columns);
    proof {
        lemma_schema_rows(reader.data@, reader.header.page_size, plan, table_kind(), name@);
    }
    let table_data = match plan.execute(reader) {
        Ok(rows) => rows,
        Err(e) => return Err(e),
    };
    let ghost rows = rows_view(table_data@);
    if table_data.len() != 1 || table_data[0].len() < 2 {
        return Err(ParsingError::InvalidStatement);
    }
    assert(rows[0] == table_data@[0]@.map_values(|v: Vec<u8>| v@));
    assert(rows[0][0] == table_data@[0]@[0]@);
    assert(rows[0][1] == table_data@[0]@[1]@);
    let root_page = match root_page_of(table_data[0][0].as_slice()) {
        Some(p) => p,
        None => return Err(ParsingError::InvalidStatement),
    };
    Ok((root_page, copy_bytes_of(&table_data[0][1])))
}

/// The table that a `SELECT` statement names.
pub open spec fn queried_table(sql: &str) -> Seq<u8> {
    let s = statement_text(sql);
    let (sk, fk, wk) = select_layout(s)->0;
    from_items(s, fk, wk)[0]
}

/// The page number written in a schema entry, or 0 when it is not one.
pub open spec fn root_or_zero(t: Seq<u8>) -> u64 {
    match root_value(t) {
        Some(v) => v,
        None => 0,
    }
}

/// Whether an index entry of the schema has a definition that is UTF-8
/// text and parses.
pub open spec fn index_row_ok(row: Seq<Seq<u8>>) -> bool {
    row.len() >= 2 && utf8_ok(row[1]) && index_layout(row[1]) is Ok
}

/// Whether every index entry of the schema is as `index_row_ok` says.
pub open spec fn index_rows_ok(rows: Seq<Seq<Seq<u8>>>) -> bool {
    forall|i: int| 0 <= i < rows.len() ==> index_row_ok(#[trigger] rows[i])
}

/// The index that one schema entry (root page, definition) defines.
fn parse_index_row(row: &Vec<Vec<u8>>) -> (r: Result<IndexData, ParsingError>)
    ensures
        ({
            let rv = row@.map_values(|v: Vec<u8>| v@);
            if index_row_ok(rv) {
                r is Ok && index_from(r->Ok_0, root_or_zero(rv[0]), rv[1])
            } else {
                r == Err::<IndexData, ParsingError>(ParsingError::InvalidStatement)
            }
        }),
{
    let ghost rv = row@.map_values(|v: Vec<u8>| v@);
    if row.len() < 2 {
        return Err(ParsingError::InvalidStatement);
    }
    assert(rv[0] == row@[0]@ && rv[1] == row@[1]@);
    let root = match root_page_of(row[0].as_slice()) {
        Some(p) => p,
        None => 0,
    };
    let text = match utf8_text(row[1].as_slice()) {
        Some(t) => t,
        None => return Err(ParsingError::InvalidStatement),
    };
    parse_index(root, text)
}

/// Whether `ds` are the indexes that the schema entries `rows` define, in order.
pub open spec fn indices_from(ds: Seq<IndexData>, rows: Seq<Seq<Seq<u8>>>) -> bool {
    &&& ds.len() == rows.len()
    &&& forall|i: int| 0 <= i < rows.len() ==> index_from(#[trigger] ds[i], root_or_zero(rows[i][0]), rows[i][1])
}

/// The indexes that the schema entries `index_data` define, in order.
fn parse_index_rows(index_data: &Vec<Vec<Vec<u8>>>) -> (r: Result<Vec<IndexData>, ParsingError>)
    ensures
        if index_rows_ok(rows_view(index_data@)) {
            r is Ok && indices_from(r->Ok_0@, rows_view(index_data@))
        } else {
            r == Err::<Vec<IndexData>, ParsingError>(ParsingError::InvalidStatement)
        },
{
    let ghost rows = rows_view(index_data@);
    let mut indices: Vec<IndexData> = Vec::new();
    let mut i: usize = 0;
    while i < index_data.len()
        invariant
            i <= index_data@.len(),
            rows == rows_view(index_data@),
            indices@.len() == i,
            forall|j: int| 0 <= j < i ==> index_row_ok(#[trigger] rows[j]),
            forall|j: int| 0 <= j < i ==> index_from(#[trigger] indices@[j], root_or_zero(rows[j][0]), rows[j][1]),
        decreases index_data@.len() - i,
    {
        assert(rows[i as int] == index_data@[i as int]@.map_values(|v: Vec<u8>| v@));
        let d = match parse_index_row(&index_data[i]) {
            Ok(d) => d,
            Err(e) => {
                assert(!index_row_ok(rows[i as int]));
                return Err(e);
            },
        };
        indices.push(d);
        i = i + 1;
    }
    assert(index_rows_ok(rows) && indices_from(indices@, rows));
    Ok(indices)
}

/// The indexes of table `name`, read and parsed from the schema; an entry
/// that is not UTF-8 text or does not parse is `InvalidStatement`.
pub fn read_indexes(reader: &SqliteReader, name: &[u8]) -> (r: Result<Vec<IndexData>, ParsingError>)
    ensures
        match schema_rows(reader.data@, reader.header.page_size, index_kind(), name@) {
            Err(e) => r == Err::<Vec<IndexData>, ParsingError>(e),
            Ok(rows) => if index_rows_ok(rows) {
                r is Ok && indices_from(r->Ok_0@, rows)
            } else {
                r == Err::<Vec<IndexData>, ParsingError>(ParsingError::InvalidStatement)
            },
        },
{
    let kind: Vec<u8> = vec![105u8, 110, 100, 101, 120];
    assert(kind@ == index_kind());
    let mut columns: Vec<Column> = Vec::new();
    columns.push(Column::Column(SCHEMA_ROOT_PAGE_COLUMN));
    columns.push(Column::Column(SCHEMA_SQL_COLUMN));
    assert(columns@ == location_columns());
    let plan = schema_query(kind.as_slice(), Some(name), columns);
    proof {
        lemma_schema_rows(reader.data@, reader.header.page_size, plan, index_kind(), name@);
    }
    let index_data = plan.execute(reader)?;
    parse_index_rows(&index_data)
}

/// Runs a `SELECT` statement: finds the table's root page and definition in
/// the schema, reads the table's indexes, plans the query (an index is used
/// only for a condition of exactly one comparison on the index's first
/// column), runs it, and joins the rows (values by `|`, rows by newlines).
/// A statement that does not parse, a table that is not in the schema
/// exactly once, or a schema entry that is not UTF-8 text or does not parse,
/// is `InvalidStatement`; otherwise the result is that of the plan.
pub fn run_query(reader: &SqliteReader, sql: &str) -> (r: Result<Vec<u8>, ParsingError>)
    ensures
        !select_parses(sql) ==> r == Err::<Vec<u8>, ParsingError>(ParsingError::InvalidStatement),
        select_parses(sql) ==> match schema_rows(reader.data@, reader.header.page_size, table_kind(), queried_table(sql)) {
            Err(e) => r == Err::<Vec<u8>, ParsingError>(e),
            Ok(trows) => match location_of(trows) {
                None => r == Err::<Vec<u8>, ParsingError>(ParsingError::InvalidStatement),
                Some((root, ttext)) => match schema_rows(reader.data@, reader.header.page_size, index_kind(), queried_table(sql)) {
                    Err(e) => r == Err::<Vec<u8>, ParsingError>(e),
                    Ok(irows) => if !(index_rows_ok(irows) && utf8_ok(ttext) && table_parses(ttext)) {
                        r == Err::<Vec<u8>, ParsingError>(ParsingError::InvalidStatement)
                    } else {
                        exists|req: ParsedSelect, table: Table, indices: Seq<IndexData>, idx: Option<IndexData>|
                            #![trigger parsed_from(req, sql), table_from(table, ttext), indices_from(indices, irows), chosen_index(idx, indices, req.where_comp)]
                            parsed_from(req, sql) && table_from(table, ttext) && indices_from(indices, irows)
                                && chosen_index(idx, indices, req.where_comp) && if !plan_resolves(req, table) {
                                r == Err::<Vec<u8>, ParsingError>(ParsingError::InvalidStatement)
                            } else {
                                exists|b: SelectBuilder|
                                    #![trigger plan_from(b, root, req, table, idx)]
                                    plan_from(b, root, req, table, idx) && match query_spec(reader.data@, reader.header.page_size, b) {
                                        Ok(rows) => r is Ok && r->Ok_0@ == join_rows(rows, 124, 10),
                                        Err(e) => r == Err::<Vec<u8>, ParsingError>(e),
                                    }
                            }
                    },
                },
            },
        },
{
    let request = parse_select(sql)?;
    let ghost req = request;
    assert(request.table_name@ == queried_table(sql));
    let (root_page, table_sql_bytes) = resolve_table(reader, request.table_name.as_slice())?;
    let indices = read_indexes(reader, request.table_name.as_slice())?;
    let ghost ids = indices@;
    let table_index = choose_index(indices, &request.where_comp);
    let ghost idx = table_index;
    let table_sql = match utf8_text(table_sql_bytes.as_slice()) {
        Some(t) => t,
        None => return Err(ParsingError::InvalidStatement),
    };
    let table = match parse_table(table_sql) {
        Ok(t) => t,
        Err(e) => return Err(e),
    };
    let ghost tbl = table;
    let select = match SelectBuilder::from_select_and_table(root_page, request, table, table_index) {
        Ok(b) => b,
        Err(e) => {
            assert(parsed_from(req, sql) && table_from(tbl, table_sql_bytes@) && indices_from(ids, schema_rows(reader.data@, reader.header.page_size, index_kind(), queried_table(sql))->Ok_0) && chosen_index(idx, ids, req.where_comp));
            return Err(e);
        },
    };
    let ghost b = select;
    let rows = select.execute(reader);
    proof {
        assert(parsed_from(req, sql) && table_from(tbl, table_sql_bytes@) && indices_from(ids, schema_rows(reader.data@, reader.header.page_size, index_kind(), queried_table(sql))->Ok_0) && chosen_index(idx, ids, req.where_comp));
        assert(plan_from(b, root_page, req, tbl, idx));
    }
    match rows {
        Ok(rows) => Ok(join_result(&rows, 124u8, 10u8)),
        Err(e) => Err(e),
    }
}

} // verus!
