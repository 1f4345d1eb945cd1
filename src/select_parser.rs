//! Parsed `SELECT` statements.
use crate::parsing_error::ParsingError;
use crate::parsing_utils::{
    copy_range, find_from, find_ignore_case, find_word, find_word_from, lead_ws, split_bytes, split_on, trim, trim_bounds, trimmed_copy, words,
    words_in,
};
use crate::select_builder::{copy_bytes_of, Op};
use crate::table_parser::same_bytes;
use vstd::prelude::*;
use vstd::string::StringSliceAdditionalSpecFns;

verus! {

/// How a parsed comparison is joined to the rest of the condition.
#[derive(Debug)]
pub enum ParsedCombinator {
    And(Box<ParsedWhere>),
    Or(Box<ParsedWhere>),
}

/// A parsed comparison `column op value`.
#[derive(Debug)]
pub struct ParsedExpression {
    pub column: Vec<u8>,
    pub op: Op,
    pub value: Vec<u8>,
}

/// A parsed `WHERE` condition: a comparison, optionally joined to the rest.
#[derive(Debug)]
pub struct ParsedWhere {
    pub expression: ParsedExpression,
    pub combinator: Option<ParsedCombinator>,
}

/// A parsed `SELECT`: the table, the projected column names (`None` for
/// `COUNT(*)`) and the condition.
#[derive(Debug)]
pub struct ParsedSelect {
    pub table_name: Vec<u8>,
    pub columns: Vec<Option<Vec<u8>>>,
    pub where_comp: Option<ParsedWhere>,
}


/// Whether `v` starts and ends with a double quote.
pub open spec fn is_quoted_spec(v: Seq<u8>) -> bool {
    v.len() >= 1 && v[0] == 34 && v.last() == 34
}

/// Whether `v` starts and ends with a double quote.
pub fn is_quoted(value: &[u8]) -> (r: bool)
    ensures
        r == is_quoted_spec(value@),
{
    value.len() >= 1 && value[0] == 34u8 && value[value.len() - 1] == 34u8
}

/// `v` in double quotes: kept when already double-quoted, its single quotes
/// replaced by double ones when single-quoted, wrapped otherwise.
pub open spec fn quoted_spec(v: Seq<u8>) -> Seq<u8> {
    if is_quoted_spec(v) {
        v
    } else if v.len() >= 2 && v[0] == 39 && v.last() == 39 {
        seq![34u8] + v.subrange(1, v.len() - 1) + seq![34u8]
    } else {
        seq![34u8] + v + seq![34u8]
    }
}

/// `v` in double quotes (see `quoted_spec`).
pub fn quoted(value: &[u8]) -> (r: Vec<u8>)
    ensures
        r@ == quoted_spec(value@),
{
    let n = value.len();
    let mut out: Vec<u8> = Vec::new();
    let (begin, end) = if is_quoted(value) {
        (0, n)
    } else if n >= 2 && value[0] == 39u8 && value[n - 1] == 39u8 {
        out.push(34u8);
        (1, n - 1)
    } else {
        out.push(34u8);
        (0, n)
    };
    let ghost pre = out@;
    let mut i = begin;
    while i < end
        invariant
            begin <= i <= end <= n,
            n == value@.len(),
            out@ == pre + value@.subrange(begin as int, i as int),
        decreases end - i,
    {
        out.push(value[i]);
        i = i + 1;
        assert(out@ =~= pre + value@.subrange(begin as int, i as int));
    }
    if !is_quoted(value) {
        out.push(34u8);
    }
    assert(value@.subrange(0, n as int) == value@);
    out
}

/// A literal as written in a condition, in compare form: a quoted literal
/// gets double quotes, any other is kept.
pub open spec fn parse_value_spec(v: Seq<u8>) -> Seq<u8> {
    if v.len() > 0 && (v[0] == 34 || v[0] == 39) {
        quoted_spec(v)
    } else {
        v
    }
}

/// A literal in compare form (see `parse_value_spec`).
pub fn parse_value(value: &[u8]) -> (r: Vec<u8>)
    ensures
        r@ == parse_value_spec(value@),
{
    if value.len() > 0 && (value[0] == 34u8 || value[0] == 39u8) {
        quoted(value)
    } else {
        copy_all(value)
    }
}

/// A copy of `value`.
fn copy_all(value: &[u8]) -> (r: Vec<u8>)
    ensures
        r@ == value@,
{
    let mut out: Vec<u8> = Vec::new();
    let mut i: usize = 0;
    while i < value.len()
        invariant
            i <= value@.len(),
            out@ == value@.subrange(0, i as int),
        decreases value@.len() - i,
    {
        out.push(value[i]);
        i = i + 1;
    }
    out
}

/// The trimmed comma-separated items of `select` after `keyword` found at
/// `index`, up to `limit` or the end.
pub fn parse_comma_separated_after(select: &[u8], keyword: &[u8], index: usize, limit: Option<usize>) -> (r: Vec<Vec<u8>>)
    requires
        index + keyword@.len() <= match limit {
            Some(l) => l as int,
            None => select@.len() as int,
        },
        match limit {
            Some(l) => l <= select@.len(),
            None => true,
        },
    ensures
        r@.map_values(|v: Vec<u8>| v@) == split_on(
            select@.subrange(
                index + keyword@.len(),
                match limit {
                    Some(l) => l as int,
                    None => select@.len() as int,
                },
            ),
            44,
        ).map_values(|p: Seq<u8>| trim(p)),
{
    let end = match limit {
        Some(l) => l,
        None => select.len(),
    };
    assert(index + keyword@.len() <= end);
    let begin = index + keyword.len();
    let pieces = split_bytes(select, begin, end, 44u8);
    let ghost ps = pieces@.map_values(|v: Vec<u8>| v@);
    let mut out: Vec<Vec<u8>> = Vec::new();
    let mut i: usize = 0;
    while i < pieces.len()
        invariant
            i <= pieces@.len(),
            ps == pieces@.map_values(|v: Vec<u8>| v@),
            out@.map_values(|v: Vec<u8>| v@) == ps.subrange(0, i as int).map_values(|p: Seq<u8>| trim(p)),
        decreases pieces@.len() - i,
    {
        let p = pieces[i].as_slice();
        assert(ps[i as int] == p@);
        assert(p@.subrange(0, p@.len() as int) == p@);
        let c = trimmed_copy(p, 0, p.len());
        let ghost prev = out@.map_values(|v: Vec<u8>| v@);
        out.push(c);
        assert(out@.map_values(|v: Vec<u8>| v@) =~= prev.push(trim(ps[i as int])));
        assert(ps.subrange(0, i + 1).map_values(|p: Seq<u8>| trim(p)) =~= ps.subrange(0, i as int).map_values(
            |p: Seq<u8>| trim(p),
        ).push(trim(ps[i as int])));
        i = i + 1;
    }
    assert(ps.subrange(0, i as int) == ps);
    out
}

/// The word `AND`.
pub open spec fn and_word() -> Seq<u8> {
    seq![65u8, 78, 68]
}

/// The word `OR`.
pub open spec fn or_word() -> Seq<u8> {
    seq![79u8, 82]
}

/// The next `AND` or `OR` (in any case, as a whole word) at or after
/// `index`: its distance from `index`, and whether it is `AND`.
pub open spec fn next_where_comp(s: Seq<u8>, index: int) -> Option<(int, bool)> {
    match (find_word_from(s, and_word(), index), find_word_from(s, or_word(), index)) {
        (Some(a), Some(o)) => Some((if a < o { a - index } else { o - index }, a < o)),
        (None, Some(o)) => Some((o - index, false)),
        (Some(a), None) => Some((a - index, true)),
        (None, None) => None,
    }
}

/// The next `AND` or `OR` at or after `index` (see `next_where_comp`).
pub fn find_next_where_comp(select: &[u8], index: usize) -> (r: Option<(usize, bool)>)
    ensures
        match next_where_comp(select@, index as int) {
            Some((d, is_and)) => match r {
                Some((rd, ra)) => rd == d && ra == is_and && index + d + (if is_and { 3int } else { 2int })
                    <= select@.len(),
                None => false,
            },
            None => r is None,
        },
{
    let and_text: Vec<u8> = vec![65u8, 78, 68];
    let or_text: Vec<u8> = vec![79u8, 82];
    assert(and_text@ == and_word());
    assert(or_text@ == or_word());
    let and_index = find_word(select, and_text.as_slice(), index);
    let or_index = find_word(select, or_text.as_slice(), index);
    match (and_index, or_index) {
        (Some(a), Some(o)) => if a < o {
            Some((a - index, true))
        } else {
            Some((o - index, false))
        },
        (None, Some(o)) => Some((o - index, false)),
        (Some(a), None) => Some((a - index, true)),
        (None, None) => None,
    }
}

/// The operator that the word `w` spells.
pub open spec fn op_of(w: Seq<u8>) -> Option<Op> {
    if w == seq![61u8] {
        Some(Op::Eq)
    } else if w == seq![62u8] {
        Some(Op::Gt)
    } else if w == seq![62u8, 61] {
        Some(Op::GtEq)
    } else if w == seq![60u8] {
        Some(Op::Lt)
    } else if w == seq![60u8, 61] {
        Some(Op::LtEq)
    } else {
        None
    }
}

/// The operator's spelling, as bytes.
pub open spec fn op_bytes(op: Op) -> Seq<u8> {
    match op {
        Op::Eq => seq![61u8],
        Op::Gt => seq![62u8],
        Op::GtEq => seq![62u8, 61],
        Op::Lt => seq![60u8],
        Op::LtEq => seq![60u8, 61],
    }
}

/// A comparison `column op value`: the column is the first word, the
/// operator the second, and the value what follows the first occurrence of
/// the operator's spelling, trimmed, in compare form. Fewer than three words
/// or an unknown operator is `None`.
pub open spec fn where_cmp_spec(s: Seq<u8>) -> Option<(Seq<u8>, Op, Seq<u8>)> {
    let t = trim(s);
    let ws = words(s);
    if ws.len() < 3 {
        None
    } else {
        match op_of(ws[1]) {
            None => None,
            Some(op) => match find_from(t, op_bytes(op), 0) {
                None => None,
                Some(k) => Some((ws[0], op, parse_value_spec(trim(t.subrange(k + op_bytes(op).len(), t.len() as int))))),
            },
        }
    }
}

/// The operator that the word `w` spells.
fn op_from_word(w: &[u8]) -> (r: Option<Op>)
    ensures
        r == op_of(w@),
{
    let eq: Vec<u8> = vec![61u8];
    let gt: Vec<u8> = vec![62u8];
    let ge: Vec<u8> = vec![62u8, 61];
    let lt: Vec<u8> = vec![60u8];
    let le: Vec<u8> = vec![60u8, 61];
    assert(eq@ == seq![61u8]);
    assert(gt@ == seq![62u8]);
    assert(ge@ == seq![62u8, 61]);
    assert(lt@ == seq![60u8]);
    assert(le@ == seq![60u8, 61]);
    if same_bytes(w, eq.as_slice()) {
        Some(Op::Eq)
    } else if same_bytes(w, gt.as_slice()) {
        Some(Op::Gt)
    } else if same_bytes(w, ge.as_slice()) {
        Some(Op::GtEq)
    } else if same_bytes(w, lt.as_slice()) {
        Some(Op::Lt)
    } else if same_bytes(w, le.as_slice()) {
        Some(Op::LtEq)
    } else {
        None
    }
}

/// The operator's spelling, as bytes.
fn op_spelling(op: Op) -> (r: Vec<u8>)
    ensures
        r@ == op_bytes(op),
{
    match op {
        Op::Eq => vec![61u8],
        Op::Gt => vec![62u8],
        Op::GtEq => vec![62u8, 61],
        Op::Lt => vec![60u8],
        Op::LtEq => vec![60u8, 61],
    }
}

/// Parses one comparison (see `where_cmp_spec`); anything else is `InvalidStatement`.
pub fn parse_where_cmp(select: &[u8]) -> (r: Result<ParsedWhere, ParsingError>)
    ensures
        match where_cmp_spec(select@) {
            None => r == Err::<ParsedWhere, ParsingError>(ParsingError::InvalidStatement),
            Some((c, op, v)) => r is Ok && r->Ok_0.expression.column@ == c && r->Ok_0.expression.op == op
                && r->Ok_0.expression.value@ == v && r->Ok_0.combinator is None,
        },
{
    let n = select.len();
    assert(select@.subrange(0, n as int) == select@);
    let (lo, hi) = trim_bounds(select, 0, n);
    let t = copy_range(select, lo, hi);
    let mut ws = words_in(select, 0, n);
    let ghost wv = ws@.map_values(|v: Vec<u8>| v@);
    if ws.len() < 3 {
        return Err(ParsingError::InvalidStatement);
    }
    assert(wv[1] == ws@[1]@);
    assert(wv[0] == ws@[0]@);
    let op = match op_from_word(ws[1].as_slice()) {
        Some(op) => op,
        None => return Err(ParsingError::InvalidStatement),
    };
    let spelling = op_spelling(op);
    let k = match find_ignore_case(t.as_slice(), spelling.as_slice(), 0) {
        Some(k) => k,
        None => return Err(ParsingError::InvalidStatement),
    };
    let after = k + spelling.len();
    let rest = trimmed_copy(t.as_slice(), after, t.len());
    let value = parse_value(rest.as_slice());
    let column = ws.remove(0);
    Ok(ParsedWhere { expression: ParsedExpression { column, op, value }, combinator: None })
}



/// The comparisons of a parsed condition in order, each with the word that
/// joins it to the next (`Some(true)` for `AND`, `Some(false)` for `OR`).
pub open spec fn chain_of(w: ParsedWhere) -> Seq<(Seq<u8>, Op, Seq<u8>, Option<bool>)>
    decreases w,
{
    let c = w.expression.column@;
    let op = w.expression.op;
    let v = w.expression.value@;
    match w.combinator {
        Some(ParsedCombinator::And(rest)) => seq![(c, op, v, Some(true))] + chain_of(*rest),
        Some(ParsedCombinator::Or(rest)) => seq![(c, op, v, Some(false))] + chain_of(*rest),
        None => seq![(c, op, v, None::<bool>)],
    }
}

/// The comparisons of the condition that starts at `index` in `s`: the text
/// up to the next `AND` or `OR` (see `next_where_comp`) is one comparison,
/// and the rest, after that word, is parsed the same way. `None` when a
/// comparison does not parse.
pub open spec fn where_chain(s: Seq<u8>, index: int) -> Option<Seq<(Seq<u8>, Op, Seq<u8>, Option<bool>)>>
    decreases s.len() - index,
{
    if index < 0 || index > s.len() {
        None
    } else {
        match next_where_comp(s, index) {
            Some((d, is_and)) => {
                let next = index + d + (if is_and { 3int } else { 2int });
                if d < 0 || next > s.len() {
                    None
                } else {
                    match where_cmp_spec(s.subrange(index, index + d)) {
                        None => None,
                        Some((c, op, v)) => match where_chain(s, next) {
                            None => None,
                            Some(rest) => Some(seq![(c, op, v, Some(is_and))] + rest),
                        },
                    }
                }
            },
            None => match where_cmp_spec(s.subrange(index, s.len() as int)) {
                None => None,
                Some((c, op, v)) => Some(seq![(c, op, v, None::<bool>)]),
            },
        }
    }
}

/// Parses the condition that starts at `index` (see `where_chain`); a
/// comparison that does not parse is `InvalidStatement`.
pub fn parse_where(select: &[u8], index: usize) -> (r: Result<ParsedWhere, ParsingError>)
    requires
        index <= select@.len(),
    ensures
        match where_chain(select@, index as int) {
            None => r == Err::<ParsedWhere, ParsingError>(ParsingError::InvalidStatement),
            Some(ch) => r is Ok && chain_of(r->Ok_0) == ch,
        },
    decreases select@.len() - index,
{
    let total = select.len();
    match find_next_where_comp(select, index) {
        Some((end, is_and)) => {
            proof {
                let sp = next_where_comp(select@, index as int);
                assert(sp is Some);
                let (d, a) = sp->0;
                assert(d == end && a == is_and);
                assert(index + end + (if is_and { 3int } else { 2int }) <= select@.len());
                if is_and {
                    assert(index + end + 3 <= total);
                } else {
                    assert(index + end + 2 <= total);
                }
            }
            let next = if is_and {
                index + end + 3
            } else {
                index + end + 2
            };
            let rest = parse_where(select, next)?;
            let head = copy_range(select, index, index + end);
            let first = parse_where_cmp(head.as_slice())?;
            let combinator = if is_and {
                ParsedCombinator::And(Box::new(rest))
            } else {
                ParsedCombinator::Or(Box::new(rest))
            };
            Ok(ParsedWhere { expression: first.expression, combinator: Some(combinator) })
        },
        None => {
            let n = select.len();
            let head = copy_range(select, index, n);
            parse_where_cmp(head.as_slice())
        },
    }
}

/// The words `SELECT`, `FROM` and `WHERE`.
pub open spec fn select_word() -> Seq<u8> {
    seq![83u8, 69, 76, 69, 67, 84]
}

pub open spec fn from_word() -> Seq<u8> {
    seq![70u8, 82, 79, 77]
}

pub open spec fn where_word() -> Seq<u8> {
    seq![87u8, 72, 69, 82, 69]
}

/// The text `COUNT(*)`.
pub open spec fn count_word() -> Seq<u8> {
    seq![67u8, 79, 85, 78, 84, 40, 42, 41]
}

/// Where the words `SELECT`, `FROM` and the optional `WHERE` first occur (in
/// any case) in the statement text `s`, when they come in that order.
pub open spec fn select_layout(s: Seq<u8>) -> Option<(int, int, Option<int>)> {
    match (find_word_from(s, select_word(), 0), find_word_from(s, from_word(), 0)) {
        (Some(sk), Some(fk)) => {
            let wk = find_word_from(s, where_word(), 0);
            let end = match wk {
                Some(w) => w,
                None => s.len() as int,
            };
            if !(sk < fk) || (wk is Some && !(fk < wk->0)) || sk + 6 > fk || fk + 4 > end {
                None
            } else {
                Some((sk, fk, wk))
            }
        },
        _ => None,
    }
}

/// The statement text once leading white space is dropped.
pub open spec fn statement_text(select: &str) -> Seq<u8> {
    let b = select.spec_bytes();
    b.subrange(lead_ws(b) as int, b.len() as int)
}

/// The projected items of a statement: the trimmed comma-separated items
/// between `SELECT` and `FROM`.
pub open spec fn select_items(s: Seq<u8>, sk: int, fk: int) -> Seq<Seq<u8>> {
    split_on(s.subrange(sk + 6, fk), 44).map_values(|p: Seq<u8>| trim(p))
}

/// The table items of a statement: the trimmed comma-separated items between
/// `FROM` and `WHERE` (or the end).
pub open spec fn from_items(s: Seq<u8>, fk: int, wk: Option<int>) -> Seq<Seq<u8>> {
    let end = match wk {
        Some(w) => w,
        None => s.len() as int,
    };
    split_on(s.subrange(fk + 4, end), 44).map_values(|p: Seq<u8>| trim(p))
}

/// The projected column for an item: `None` for `COUNT(*)`.
pub open spec fn projection_item(item: Seq<u8>) -> Option<Seq<u8>> {
    if item == count_word() {
        None
    } else {
        Some(item)
    }
}

/// The views of projected column names.
pub open spec fn names_view(v: Seq<Option<Vec<u8>>>) -> Seq<Option<Seq<u8>>> {
    v.map_values(|o: Option<Vec<u8>>| match o {
        Some(n) => Some(n@),
        None => None,
    })
}

/// Whether the statement `sql` parses: the keywords come in order, exactly
/// one table is named, and the condition parses.
pub open spec fn select_parses(sql: &str) -> bool {
    let s = statement_text(sql);
    match select_layout(s) {
        None => false,
        Some((sk, fk, wk)) => from_items(s, fk, wk).len() == 1 && match wk {
            Some(w) => where_chain(s, w + 5) is Some,
            None => true,
        },
    }
}

/// Whether `req` is what the statement `sql` parses to.
pub open spec fn parsed_from(req: ParsedSelect, sql: &str) -> bool {
    let s = statement_text(sql);
    match select_layout(s) {
        None => false,
        Some((sk, fk, wk)) => {
            &&& req.table_name@ == from_items(s, fk, wk)[0]
            &&& names_view(req.columns@) == select_items(s, sk, fk).map_values(|i: Seq<u8>| projection_item(i))
            &&& match wk {
                Some(w) => req.where_comp is Some && chain_of(req.where_comp->0) == where_chain(s, w + 5)->0,
                None => req.where_comp is None,
            }
        },
    }
}

/// Parses `SELECT <items> FROM <table> [WHERE <condition>]` (keywords in any
/// case). The statement parses when the keywords come in order (see
/// `select_layout`), the condition parses, and exactly one table is named;
/// otherwise it is `InvalidStatement`.
pub fn parse_select(select: &str) -> (r: Result<ParsedSelect, ParsingError>)
    ensures
        ({
            let s = statement_text(select);
            match select_layout(s) {
                None => r == Err::<ParsedSelect, ParsingError>(ParsingError::InvalidStatement),
                Some((sk, fk, wk)) => {
                    let ok = from_items(s, fk, wk).len() == 1 && match wk {
                        Some(w) => where_chain(s, w + 5) is Some,
                        None => true,
                    };
                    &&& (r is Ok <==> ok)
                    &&& (!ok ==> r == Err::<ParsedSelect, ParsingError>(ParsingError::InvalidStatement))
                    &&& (ok ==> {
                        &&& r->Ok_0.table_name@ == from_items(s, fk, wk)[0]
                        &&& names_view(r->Ok_0.columns@) == select_items(s, sk, fk).map_values(
                            |i: Seq<u8>| projection_item(i),
                        )
                        &&& match wk {
                            Some(w) => r->Ok_0.where_comp is Some && chain_of(r->Ok_0.where_comp->0) == where_chain(
                                s,
                                w + 5,
                            )->0,
                            None => r->Ok_0.where_comp is None,
                        }
                    })
                },
            }
        }),
        r is Ok <==> select_parses(select),
        r is Ok ==> parsed_from(r->Ok_0, select),
        r is Err ==> r == Err::<ParsedSelect, ParsingError>(ParsingError::InvalidStatement),
{
    let b = select.as_bytes();
    let n = b.len();
    assert(b@.subrange(0, n as int) == b@);
    let (lo, _hi) = trim_bounds(b, 0, n);
    let s = copy_range(b, lo, n);
    let sv = s.as_slice();
    let select_text: Vec<u8> = vec![83u8, 69, 76, 69, 67, 84];
    let from_text: Vec<u8> = vec![70u8, 82, 79, 77];
    let where_text: Vec<u8> = vec![87u8, 72, 69, 82, 69];
    let count_text: Vec<u8> = vec![67u8, 79, 85, 78, 84, 40, 42, 41];
    assert(select_text@ == select_word());
    assert(from_text@ == from_word());
    assert(where_text@ == where_word());
    assert(count_text@ == count_word());
    let sk = find_word(sv, select_text.as_slice(), 0);
    let fk = find_word(sv, from_text.as_slice(), 0);
    let wk = find_word(sv, where_text.as_slice(), 0);
    let (sk, fk) = match (sk, fk) {
        (Some(a), Some(c)) => (a, c),
        _ => return Err(ParsingError::InvalidStatement),
    };
    if !(sk < fk) {
        return Err(ParsingError::InvalidStatement);
    }
    let end = match wk {
        Some(w) => {
            if !(fk < w) {
                return Err(ParsingError::InvalidStatement);
            }
            w
        },
        None => sv.len(),
    };
    if fk - sk < 6 || end - fk < 4 {
        return Err(ParsingError::InvalidStatement);
    }
    let items = parse_comma_separated_after(sv, select_text.as_slice(), sk, Some(fk));
    let ghost iv = items@.map_values(|v: Vec<u8>| v@);
    let mut columns: Vec<Option<Vec<u8>>> = Vec::new();
    let mut i: usize = 0;
    while i < items.len()
        invariant
            i <= items@.len(),
            iv.len() == items@.len(),
            forall|j: int| i <= j < items@.len() ==> (#[trigger] items@[j])@ == iv[j],
            count_text@ == count_word(),
            names_view(columns@) == iv.subrange(0, i as int).map_values(|x: Seq<u8>| projection_item(x)),
        decreases items@.len() - i,
    {
        let ghost prev = names_view(columns@);
        let is_count = same_bytes(items[i].as_slice(), count_text.as_slice());
        let item = copy_bytes_of(&items[i]);
        assert(item@ == iv[i as int]);
        if is_count {
            columns.push(None);
        } else {
            columns.push(Some(item));
        }
        assert(names_view(columns@) =~= prev.push(projection_item(iv[i as int])));
        assert(iv.subrange(0, i + 1).map_values(|x: Seq<u8>| projection_item(x)) =~= iv.subrange(0, i as int).map_values(
            |x: Seq<u8>| projection_item(x),
        ).push(projection_item(iv[i as int])));
        i = i + 1;
    }
    assert(iv.subrange(0, i as int) == iv);
    let mut tables = parse_comma_separated_after(sv, from_text.as_slice(), fk, wk);
    let where_comp = match wk {
        Some(w) => Some(parse_where(sv, w + 5)?),
        None => None,
    };
    if tables.len() != 1 {
        return Err(ParsingError::InvalidStatement);
    }
    let table_name = tables.remove(0);
    Ok(ParsedSelect { table_name, columns, where_comp })
}

} // verus!
