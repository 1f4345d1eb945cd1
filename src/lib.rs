//! A read-only query engine over the SQLite on-disk file format.
pub mod cell;
pub mod index_parser;
pub mod interior_cell;
pub mod leaf_cell;
pub mod ordering;
pub mod page;
pub mod page_header;
pub mod parsing_error;
pub mod parsing_utils;
pub mod reader;
pub mod schema;
pub mod select_builder;
pub mod select_parser;
pub mod sqlite_header;
pub mod table_parser;
pub mod text;
pub mod varint;
