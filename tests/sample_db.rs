use codecrafters_sqlite::table_parser::{parse_table, TableColumn};
use codecrafters_sqlite::cell::{binary_search_cells_lazy, get_cells_lazy, index_search, parse_leaf_cell_lazy};
use codecrafters_sqlite::index_parser::{get_table_index_for_column_in, parse_index};
use codecrafters_sqlite::leaf_cell::SerialType;
use codecrafters_sqlite::page_header::BtreePageType;
use codecrafters_sqlite::parsing_error::ParsingError;
use codecrafters_sqlite::parsing_utils::find_keyword;
use codecrafters_sqlite::reader::SqliteReader;
use codecrafters_sqlite::schema::{choose_index, dbinfo, list_tables, run_query};
use codecrafters_sqlite::select_parser::parse_select;
use codecrafters_sqlite::select_builder::{where_builder, Column, Op, SelectBuilder, WhereColumn};
use codecrafters_sqlite::select_parser::quoted;

/// A database of 4 pages of 4096 bytes: table `apples` (root page 2) with
/// four rows, and index `idx_apples_color` on `color` (root page 4).
fn sample_db() -> Vec<u8> {
    let mut data = vec![0u8; 16384];
    let runs: Vec<(usize, Vec<u8>)> = vec![
        (0, vec![83, 81, 76, 105, 116, 101, 32, 102, 111, 114, 109, 97, 116, 32, 51, 0, 16, 0, 1, 1, 0, 64, 32, 32]),
        (27, vec![4]),
        (31, vec![4]),
        (43, vec![2]),
        (47, vec![4]),
        (59, vec![1]),
        (95, vec![4, 0, 46, 99, 1, 13, 15, 61, 0, 2, 14, 234, 0, 15, 143, 14, 234, 14, 234]),
        (3818, vec![81, 3, 6, 23, 45, 25, 1, 107, 105, 110, 100, 101, 120, 105, 100, 120, 95, 97, 112, 112, 108, 101, 115, 95, 99, 111, 108, 111, 114, 97, 112, 112, 108, 101, 115, 4, 67, 82, 69, 65, 84, 69, 32, 73, 78, 68, 69, 88, 32, 105, 100, 120, 95, 97, 112, 112, 108, 101, 115, 95, 99, 111, 108, 111, 114, 32, 111, 110, 32, 97, 112, 112, 108, 101, 115, 32, 40, 99, 111, 108, 111, 114, 41]),
        (3904, vec![82]),
        (3983, vec![111, 1, 7, 23, 25, 25, 1, 129, 57, 116, 97, 98, 108, 101, 97, 112, 112, 108, 101, 115, 97, 112, 112, 108, 101, 115, 2, 67, 82, 69, 65, 84, 69, 32, 84, 65, 66, 76, 69, 32, 97, 112, 112, 108, 101, 115, 10, 40, 10, 9, 105, 100, 32, 105, 110, 116, 101, 103, 101, 114, 32, 112, 114, 105, 109, 97, 114, 121, 32, 107, 101, 121, 32, 97, 117, 116, 111, 105, 110, 99, 114, 101, 109, 101, 110, 116, 44, 10, 9, 110, 97, 109, 101, 32, 116, 101, 120, 116, 44, 10, 9, 99, 111, 108, 111, 114, 32, 116, 101, 120, 116, 10, 41, 13]),
        (4100, vec![4, 15, 161, 0, 15, 227, 15, 214, 15, 189, 15, 161]),
        (8097, vec![26, 4, 4, 0, 45, 25, 71, 111, 108, 100, 101, 110, 32, 68, 101, 108, 105, 99, 105, 111, 117, 115, 89, 101, 108, 108, 111, 119, 23, 3, 4, 0, 33, 31, 72, 111, 110, 101, 121, 99, 114, 105, 115, 112, 66, 108, 117, 115, 104, 32, 82, 101, 100, 11, 2, 4, 0, 21, 19, 70, 117, 106, 105, 82, 101, 100, 27, 1, 4, 0, 37, 35, 71, 114, 97, 110, 110, 121, 32, 83, 109, 105, 116, 104, 76, 105, 103, 104, 116, 32, 71, 114, 101, 101, 110, 13]),
        (8196, vec![1, 15, 244, 0, 15, 244]),
        (12276, vec![10, 1, 3, 25, 1, 97, 112, 112, 108, 101, 115, 4, 10]),
        (12292, vec![4, 15, 208, 0, 15, 219, 15, 241, 15, 233, 15, 208]),
        (16336, vec![10, 3, 25, 1, 89, 101, 108, 108, 111, 119, 4, 13, 3, 31, 1, 66, 108, 117, 115, 104, 32, 82, 101, 100, 3, 7, 3, 19, 1, 82, 101, 100, 2, 14, 3, 35, 9, 76, 105, 103, 104, 116, 32, 71, 114, 101, 101, 110]),
    ];
    for (offset, bytes) in runs {
        data[offset..offset + bytes.len()].copy_from_slice(&bytes);
    }
    data
}

fn reader() -> SqliteReader {
    SqliteReader::new(sample_db()).unwrap()
}

fn text(bytes: Vec<u8>) -> String {
    String::from_utf8(bytes).unwrap()
}

#[test]
fn dbinfo_reports_page_size_and_schema_entries() {
    let r = reader();
    assert_eq!(dbinfo(&r).unwrap(), (4096, 2));
    let shown = format!("database page size: {}\nnumber of tables: {}\n", 4096, 2);
    assert_eq!(shown, "database page size: 4096\nnumber of tables: 2\n");
}

#[test]
fn tables_lists_apples() {
    assert_eq!(text(list_tables(&reader()).unwrap()), "apples");
}

#[test]
fn count_star_counts_rows() {
    assert_eq!(text(run_query(&reader(), "SELECT COUNT(*) FROM apples").unwrap()), "4");
}

#[test]
fn select_name_keeps_btree_order() {
    assert_eq!(
        text(run_query(&reader(), "SELECT name FROM apples").unwrap()),
        "Granny Smith\nFuji\nHoneycrisp\nGolden Delicious"
    );
}

#[test]
fn select_with_equality_uses_rowid_column() {
    assert_eq!(
        text(run_query(&reader(), "SELECT id, name FROM apples WHERE color = 'Yellow'").unwrap()),
        "4|Golden Delicious"
    );
}

#[test]
fn select_with_or_scans() {
    assert_eq!(
        text(run_query(&reader(), "SELECT name FROM apples WHERE color = 'Red' OR color = 'Yellow'").unwrap()),
        "Fuji\nGolden Delicious"
    );
}

#[test]
fn index_plan_and_scan_plan_agree() {
    let r = reader();
    let columns = vec![Column::RowId, Column::Column(1)];
    let scan = SelectBuilder::new(2, columns.clone())
        .where_cmp(where_builder(WhereColumn::Column(2), Op::Eq, quoted(b"Yellow")))
        .execute(&r)
        .unwrap();
    let indexed = SelectBuilder::new(2, columns)
        .where_cmp(where_builder(WhereColumn::Column(2), Op::Eq, quoted(b"Yellow")))
        .with_index(4, Op::Eq, quoted(b"Yellow"), WhereColumn::Column(0))
        .execute(&r)
        .unwrap();
    assert_eq!(scan, indexed);
    assert_eq!(scan, vec![vec![b"4".to_vec(), b"Golden Delicious".to_vec()]]);
}

#[test]
fn index_without_condition_is_rejected() {
    let r = reader();
    let plan = SelectBuilder::new(2, vec![Column::Count]).with_index(4, Op::Eq, b"x".to_vec(), WhereColumn::RowId);
    assert_eq!(plan.execute(&r), Err(ParsingError::InvalidStatement));
}

#[test]
fn full_scan_returns_rows_in_ascending_rowid_order() {
    let r = reader();
    let page = r.read_page(2).unwrap();
    assert_eq!(page.page_header.page_type, BtreePageType::LeafTablePage);
    let cells = get_cells_lazy(&page, &r).unwrap();
    let ids: Vec<i128> = cells.iter().map(|c| c.rowid).collect();
    assert_eq!(ids, vec![1, 2, 3, 4]);
    assert_eq!(cells.len(), page.page_header.cell_count as usize);
    assert_eq!(cells[1].get_column(&r.data, 1).unwrap(), b"Fuji".to_vec());
    assert_eq!(cells[1].get_column_cmp(&r.data, 2).unwrap(), b"\"Red\"".to_vec());
    assert_eq!(cells[1].get_column(&r.data, 0).unwrap(), b"NULL".to_vec());
}

#[test]
fn count_equals_number_of_scanned_cells() {
    let r = reader();
    let page = r.read_page(2).unwrap();
    let n = get_cells_lazy(&page, &r).unwrap().len();
    let rows = SelectBuilder::new(2, vec![Column::Count]).execute(&r).unwrap();
    assert_eq!(rows, vec![vec![n.to_string().into_bytes()]]);
}

#[test]
fn find_rows_returns_exactly_the_requested_rows() {
    let r = reader();
    let page = r.read_page(2).unwrap();
    let found = binary_search_cells_lazy(&page, &r, &[4, 2, 9]).unwrap();
    let ids: Vec<i128> = found.iter().map(|c| c.rowid).collect();
    assert_eq!(ids, vec![2, 4]);
    assert!(binary_search_cells_lazy(&page, &r, &[]).unwrap().is_empty());
}

#[test]
fn index_search_equality_finds_matching_rowids() {
    let r = reader();
    let index_page = r.read_page(4).unwrap();
    assert_eq!(index_page.page_header.page_type, BtreePageType::LeafIndexPage);
    let ids = index_search(&index_page, &r, WhereColumn::Column(0), b"\"Red\"", Op::Eq).unwrap();
    assert_eq!(ids, vec![2]);
    let mut below = index_search(&index_page, &r, WhereColumn::Column(0), b"\"M\"", Op::Lt).unwrap();
    below.sort();
    assert_eq!(below, vec![1, 3]);
}

#[test]
fn table_traversal_refuses_index_pages() {
    let r = reader();
    let index_page = r.read_page(4).unwrap();
    assert_eq!(get_cells_lazy(&index_page, &r).err(), Some(ParsingError::InvalidPageType));
    let table_page = r.read_page(2).unwrap();
    assert_eq!(
        index_search(&table_page, &r, WhereColumn::RowId, b"1", Op::Eq),
        Err(ParsingError::InvalidPageType)
    );
}

#[test]
fn reader_rejects_bad_files() {
    assert_eq!(SqliteReader::new(vec![0u8; 50]).err(), Some(ParsingError::SliceConversionError));
    let mut data = sample_db();
    data[0] = b'X';
    assert_eq!(SqliteReader::new(data).err(), Some(ParsingError::InvalidHeaderString));
    let r = reader();
    assert_eq!(r.read_page(0).err(), Some(ParsingError::SliceConversionError));
    assert_eq!(r.read_page(5).err(), Some(ParsingError::SliceConversionError));
    assert_eq!(r.header.page_size, 4096);
}

#[test]
fn unknown_page_type_is_rejected() {
    let mut data = sample_db();
    data[4096] = 0x07;
    let r = SqliteReader::new(data).unwrap();
    assert_eq!(r.read_page(2).err(), Some(ParsingError::InvalidPageType));
}

#[test]
fn malformed_statement_is_rejected() {
    let r = reader();
    assert_eq!(run_query(&r, "DELETE apples"), Err(ParsingError::InvalidStatement));
    assert_eq!(run_query(&r, "SELECT nope FROM apples"), Err(ParsingError::InvalidStatement));
}

#[test]
fn leaf_cell_decodes_record_header() {
    let r = reader();
    let page = r.read_page(2).unwrap();
    let pointers = page.parse_cell_pointer_array(&r.data);
    assert_eq!(pointers.len(), 4);
    let cell = parse_leaf_cell_lazy(&r.data, page.page_offset + pointers[0] as usize).unwrap();
    assert_eq!(cell.rowid, 1);
    assert_eq!(cell.record_types.len(), 3);
    assert_eq!(cell.get_column_type(0), SerialType::Null);
    assert_eq!(cell.get_column_type(1), SerialType::String(12));
    assert_eq!(cell.get_column(&r.data, 3), Err(ParsingError::SliceConversionError));
}

#[test]
fn schema_statements_parse() {
    let table = parse_table(
        "CREATE TABLE apples\n(\n\tid integer primary key autoincrement,\n\tname text,\n\tcolor text\n)",
    )
    .unwrap();
    assert_eq!(table.name, b"apples".to_vec());
    assert_eq!(table.columns.len(), 3);
    let index = parse_index(4, "CREATE INDEX idx_apples_color on apples (color)").unwrap();
    assert_eq!(index.index_name, b"idx_apples_color".to_vec());
    assert_eq!(index.table_name, b"apples".to_vec());
    assert_eq!(index.columns, vec![b"color".to_vec()]);
    assert_eq!(index.root_page, 4);
    let chosen = get_table_index_for_column_in(vec![index], vec![b"color".to_vec()]).unwrap();
    assert_eq!(chosen.root_page, 4);
    assert_eq!(find_keyword("create table x (a)", "TABLE"), Some(7));
    assert_eq!(find_keyword("create tablex (a)", "TABLE"), None);
}

#[test]
fn index_is_chosen_only_for_a_single_comparison() {
    let idx = || vec![parse_index(4, "CREATE INDEX idx_apples_color on apples (color)").unwrap()];
    let single = parse_select("SELECT name FROM apples WHERE color = 'Red'").unwrap();
    assert_eq!(choose_index(idx(), &single.where_comp).map(|d| d.root_page), Some(4));
    let compound = parse_select("SELECT name FROM apples WHERE color = 'Red' OR color = 'Yellow'").unwrap();
    assert!(choose_index(idx(), &compound.where_comp).is_none());
    let other = parse_select("SELECT name FROM apples WHERE name = 'Fuji'").unwrap();
    assert!(choose_index(idx(), &other.where_comp).is_none());
    let none = parse_select("SELECT name FROM apples").unwrap();
    assert!(choose_index(idx(), &none.where_comp).is_none());
}

#[test]
fn conditions_are_joined_from_the_left() {
    let r = reader();
    let page = r.read_page(2).unwrap();
    let cells = get_cells_lazy(&page, &r).unwrap();
    // color = 'Red' AND name = 'Granny Smith' OR rowid = 1, read as ((false AND true) OR true)
    let rest = where_builder(WhereColumn::Column(1), Op::Eq, quoted(b"Granny Smith"))
        .or(where_builder(WhereColumn::RowId, Op::Eq, b"1".to_vec()));
    let condition = where_builder(WhereColumn::Column(2), Op::Eq, quoted(b"Red")).and(rest);
    assert_eq!(condition.execute(&r.data, &cells[0]), Ok(true));
    assert_eq!(condition.execute(&r.data, &cells[2]), Ok(false));
}

#[test]
fn condition_errors_propagate() {
    let r = reader();
    let plan = SelectBuilder::new(2, vec![Column::RowId])
        .where_cmp(where_builder(WhereColumn::Column(9), Op::Eq, b"x".to_vec()));
    assert_eq!(plan.execute(&r), Err(ParsingError::SliceConversionError));
}

#[test]
fn integer_primary_key_is_the_rowid_column() {
    let table = parse_table(
        "CREATE TABLE apples (id integer primary key, name text, color text)",
    )
    .unwrap();
    assert!(matches!(&table.columns[0], TableColumn::RowId(n) if n == b"id"));
    assert!(matches!(&table.columns[1], TableColumn::Column(1, n) if n == b"name"));
    assert!(matches!(&table.columns[2], TableColumn::Column(2, n) if n == b"color"));
}

#[test]
fn index_on_another_column_plans_a_scan() {
    let table = parse_table("CREATE TABLE apples (id integer primary key, name text, color text)").unwrap();
    let on_color = parse_index(4, "CREATE INDEX idx_apples_color on apples (color)").unwrap();
    let select = parse_select("SELECT name FROM apples WHERE name = 'Fuji'").unwrap();
    let plan = SelectBuilder::from_select_and_table(2, select, table, Some(on_color)).unwrap();
    assert!(plan.index.is_none());
    let r = reader();
    assert_eq!(plan.execute(&r).unwrap(), vec![vec![b"Fuji".to_vec()]]);
}

#[test]
fn index_plan_rows_are_filtered_by_the_condition() {
    let r = reader();
    let indexed = SelectBuilder::new(2, vec![Column::Column(1)])
        .where_cmp(where_builder(WhereColumn::Column(2), Op::Gt, quoted(b"Light Green")))
        .with_index(4, Op::Gt, quoted(b"Light Green"), WhereColumn::Column(0))
        .execute(&r)
        .unwrap();
    assert_eq!(indexed, vec![vec![b"Fuji".to_vec()], vec![b"Golden Delicious".to_vec()]]);
}
