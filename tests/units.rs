use codecrafters_sqlite::leaf_cell::SerialType;
use codecrafters_sqlite::parsing_error::ParsingError;
use codecrafters_sqlite::select_builder::{compare, unquote, Op};
use codecrafters_sqlite::select_parser::{
    find_next_where_comp, is_quoted, parse_comma_separated_after, parse_select, parse_value, parse_where,
    parse_where_cmp, quoted,
};
use codecrafters_sqlite::text::{int_to_decimal, parse_decimal};
use codecrafters_sqlite::varint::{is_msb_set, parse_varint};

#[test]
fn varint_one_byte() {
    let mut offset = 0usize;
    assert_eq!(parse_varint(&mut offset, &[0x7f, 0x01]), Ok(127));
    assert_eq!(offset, 1);
}

#[test]
fn varint_two_bytes_round_trip() {
    let mut offset = 1usize;
    assert_eq!(parse_varint(&mut offset, &[0xff, 0x81, 0x00]), Ok(128));
    assert_eq!(offset, 3);
}

#[test]
fn varint_nine_bytes_takes_all_bits_of_the_last() {
    let bytes = [0xffu8, 0xff, 0xff, 0xff, 0xff, 0xff, 0xff, 0xff, 0xff];
    let mut offset = 0usize;
    assert_eq!(parse_varint(&mut offset, &bytes), Ok(0xffff_ffff_ffff_ffff));
    assert_eq!(offset, 9);
}

#[test]
fn varint_truncated_is_an_error() {
    let mut offset = 0usize;
    assert_eq!(parse_varint(&mut offset, &[0x81, 0x82]), Err(ParsingError::InvalidVarint));
    assert_eq!(offset, 0);
    assert_eq!(parse_varint(&mut offset, &[]), Err(ParsingError::InvalidVarint));
}

#[test]
fn msb_detection() {
    assert!(is_msb_set(0x80));
    assert!(!is_msb_set(0x7f));
}

#[test]
fn serial_types_from_tags() {
    assert_eq!(SerialType::from_varint(0), Ok(SerialType::Null));
    assert_eq!(SerialType::from_varint(3), Ok(SerialType::I24));
    assert_eq!(SerialType::from_varint(10), Err(ParsingError::InvalidVarint));
    assert_eq!(SerialType::from_varint(11), Err(ParsingError::InvalidVarint));
    assert_eq!(SerialType::from_varint(12), Ok(SerialType::Blob(0)));
    assert_eq!(SerialType::from_varint(19), Ok(SerialType::String(3)));
    assert_eq!(SerialType::from_varint(-1), Err(ParsingError::InvalidVarint));
    assert_eq!(SerialType::String(3).size(), 3);
    assert_eq!(SerialType::I48.size(), 6);
}

#[test]
fn integer_values_render_in_base_ten() {
    assert_eq!(SerialType::I8.parse_value(&[0xff]), Ok(b"-1".to_vec()));
    assert_eq!(SerialType::I16.parse_value(&[0x01, 0x00]), Ok(b"256".to_vec()));
    assert_eq!(SerialType::I24.parse_value(&[0xff, 0xff, 0xfe]), Ok(b"-2".to_vec()));
    assert_eq!(SerialType::I48.parse_value(&[0, 0, 0, 1, 0, 0]), Ok(b"65536".to_vec()));
    assert_eq!(SerialType::I64.parse_value(&[0x80, 0, 0, 0, 0, 0, 0, 0]), Ok(b"-9223372036854775808".to_vec()));
    assert_eq!(SerialType::I32.parse_value(&[0, 0]), Err(ParsingError::SliceConversionError));
}

#[test]
fn other_values_render() {
    assert_eq!(SerialType::Null.parse_value(&[]), Ok(b"NULL".to_vec()));
    assert_eq!(SerialType::True.parse_value(&[]), Ok(b"true".to_vec()));
    assert_eq!(SerialType::False.parse_value_cmp(&[]), Ok(b"false".to_vec()));
    assert_eq!(SerialType::String(2).parse_value(b"abc"), Ok(b"ab".to_vec()));
    assert_eq!(SerialType::String(2).parse_value_cmp(b"abc"), Ok(b"\"ab\"".to_vec()));
    assert_eq!(SerialType::Blob(1).parse_value_cmp(b"z"), Ok(b"z".to_vec()));
    assert_eq!(SerialType::Double.parse_value(&[0; 8]), Err(ParsingError::UnsupportedValue));
    assert_eq!(SerialType::Unused.parse_value(&[]), Err(ParsingError::InvalidVarint));
}

#[test]
fn decimal_text() {
    assert_eq!(int_to_decimal(0), b"0".to_vec());
    assert_eq!(int_to_decimal(-45), b"-45".to_vec());
    assert_eq!(int_to_decimal(i128::MIN), i128::MIN.to_string().into_bytes());
    assert_eq!(parse_decimal(b"+17"), Some(17));
    assert_eq!(parse_decimal(b"-170141183460469231731687303715884105728"), Some(i128::MIN));
    assert_eq!(parse_decimal(b"170141183460469231731687303715884105728"), None);
    assert_eq!(parse_decimal(b"-"), None);
    assert_eq!(parse_decimal(b"12a"), None);
    assert_eq!(parse_decimal(b""), None);
}

#[test]
fn comparisons_strip_one_layer_of_quotes() {
    assert_eq!(unquote(b"'abc'"), b"abc".to_vec());
    assert_eq!(unquote(b"\"abc\""), b"abc".to_vec());
    assert_eq!(unquote(b"\"abc'"), b"\"abc'".to_vec());
    assert_eq!(unquote(b"\""), b"\"".to_vec());
    assert!(compare(b"\"Red\"", b"'Red'", Op::Eq));
    assert!(compare(b"10", b"9", Op::Lt));
    assert!(compare(b"b", b"a", Op::Gt));
    assert!(compare(b"a", b"a", Op::GtEq));
    assert!(!compare(b"ab", b"a", Op::LtEq));
    assert!(Op::Lt.apply(b"a", b"ab"));
    assert_eq!(Op::GtEq.as_str(), ">=");
}

#[test]
fn literal_quoting() {
    assert!(is_quoted(b"\"x\""));
    assert!(!is_quoted(b"'x'"));
    assert_eq!(quoted(b"table"), b"\"table\"".to_vec());
    assert_eq!(quoted(b"'Red'"), b"\"Red\"".to_vec());
    assert_eq!(quoted(b"\"Red\""), b"\"Red\"".to_vec());
    assert_eq!(parse_value(b"'Red'"), b"\"Red\"".to_vec());
    assert_eq!(parse_value(b"42"), b"42".to_vec());
}

#[test]
fn comma_separated_items() {
    let s = b"SELECT a, b ,c FROM t";
    assert_eq!(
        parse_comma_separated_after(s, b"SELECT", 0, Some(15)),
        vec![b"a".to_vec(), b"b".to_vec(), b"c".to_vec()]
    );
    assert_eq!(parse_comma_separated_after(s, b"FROM", 15, None), vec![b"t".to_vec()]);
}

#[test]
fn next_connective_is_found_as_a_whole_word() {
    assert_eq!(find_next_where_comp(b"a = 1 and b = 2", 0), Some((6, true)));
    assert_eq!(find_next_where_comp(b"a = 1 OR b = 2", 0), Some((6, false)));
    assert_eq!(find_next_where_comp(b"color = 'Orange'", 0), None);
    assert_eq!(find_next_where_comp(b"color = 'Red' or x = 1", 0), Some((14, false)));
    assert_eq!(find_next_where_comp(b"x = 1", 0), None);
}

#[test]
fn comparison_parses() {
    let w = parse_where_cmp(b"  color = 'Yellow' ").unwrap();
    assert_eq!(w.expression.column, b"color".to_vec());
    assert_eq!(w.expression.op, Op::Eq);
    assert_eq!(w.expression.value, b"\"Yellow\"".to_vec());
    let w = parse_where_cmp(b"id >= 3").unwrap();
    assert_eq!(w.expression.op, Op::GtEq);
    assert_eq!(w.expression.value, b"3".to_vec());
    assert!(parse_where_cmp(b"id ~ 3").is_err());
    assert!(parse_where_cmp(b"id =").is_err());
}

#[test]
fn condition_chains_parse() {
    let w = parse_where(b" WHERE a = 1 AND b = 'x'", 6).unwrap();
    assert_eq!(w.expression.column, b"a".to_vec());
    assert!(w.combinator.is_some());
}

#[test]
fn select_statements_parse() {
    let s = parse_select("select name, COUNT(*) from apples where color = 'Red'").unwrap();
    assert_eq!(s.table_name, b"apples".to_vec());
    assert_eq!(s.columns, vec![Some(b"name".to_vec()), None]);
    assert!(s.where_comp.is_some());
    assert!(parse_select("SELECT a FROM t1, t2").is_err());
    assert!(parse_select("FROM t SELECT a").is_err());
}
