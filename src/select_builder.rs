//! Predicates over rows, and query plans.
use crate::cell::{
    binary_search_cells_lazy, collect, find_rows_spec, get_cells_lazy, index_search, index_search_spec,
    lemma_collect_err, table_cells, views, MAX_DEPTH,
};
use crate::index_parser::IndexData;
use crate::reader::{page_at, SqliteReader};
use crate::leaf_cell::{CellModel, LazyLeafCell};
use crate::select_parser::{ParsedCombinator, ParsedSelect, ParsedWhere};
use crate::table_parser::{first_named, same_bytes, Table, TableColumn};
use crate::parsing_error::ParsingError;
use crate::text::{decimal, int_to_decimal};
use vstd::prelude::*;

verus! {

/// `s` without one layer of matching double or single quotes around it.
pub open spec fn unquote_spec(s: Seq<u8>) -> Seq<u8> {
    if s.len() >= 2 && ((s[0] == 34 && s.last() == 34) || (s[0] == 39 && s.last() == 39)) {
        s.subrange(1, s.len() - 1)
    } else {
        s
    }
}

/// Strips one layer of matching double or single quotes.
pub fn unquote(value: &[u8]) -> (r: Vec<u8>)
    ensures
        r@ == unquote_spec(value@),
{
    let n = value.len();
    let (begin, end) = if n >= 2 && ((value[0] == 34u8 && value[n - 1] == 34u8) || (value[0] == 39u8
        && value[n - 1] == 39u8)) {
        (1, n - 1)
    } else {
        (0, n)
    };
    let mut out: Vec<u8> = Vec::new();
    let mut i: usize = begin;
    while i < end
        invariant
            begin <= i <= end <= n,
            n == value@.len(),
            out@ == value@.subrange(begin as int, i as int),
        decreases end - i,
    {
        out.push(value[i]);
        i = i + 1;
    }
    out
}

/// A projected column of a query.
#[derive(Clone, Copy, Debug, PartialEq, Eq, Structural)]
pub enum Column {
    RowId,
    Count,
    Column(usize),
}

/// The left operand of a comparison: the row-id, or a column by position.
#[derive(Clone, Copy, Debug, PartialEq, Eq, Structural)]
pub enum WhereColumn {
    RowId,
    Column(usize),
}

/// A comparison operator.
#[derive(Clone, Copy, Debug, PartialEq, Eq, Structural)]
pub enum Op {
    Eq,
    Lt,
    Gt,
    GtEq,
    LtEq,
}

/// Byte-wise lexicographic order, the order of `str` on UTF-8 text.
pub open spec fn lex_lt(a: Seq<u8>, b: Seq<u8>) -> bool
    decreases a.len(),
{
    if a.len() == 0 {
        b.len() > 0
    } else if b.len() == 0 {
        false
    } else if a[0] != b[0] {
        a[0] < b[0]
    } else {
        lex_lt(a.drop_first(), b.drop_first())
    }
}

/// Whether `op(lhs, rhs)` holds in byte-wise lexicographic order.
pub open spec fn op_holds(op: Op, lhs: Seq<u8>, rhs: Seq<u8>) -> bool {
    match op {
        Op::Eq => lhs == rhs,
        Op::Lt => lex_lt(lhs, rhs),
        Op::Gt => lex_lt(rhs, lhs),
        Op::GtEq => !lex_lt(lhs, rhs),
        Op::LtEq => !lex_lt(rhs, lhs),
    }
}

/// Whether `op` holds between two compare forms once each has lost one layer of quotes.
pub open spec fn compare_spec(lhs: Seq<u8>, rhs: Seq<u8>, op: Op) -> bool {
    op_holds(op, unquote_spec(lhs), unquote_spec(rhs))
}

/// Whether `a` sorts before `b`, byte by byte.
fn bytes_lt(a: &[u8], b: &[u8]) -> (r: bool)
    ensures
        r == lex_lt(a@, b@),
{
    let mut i: usize = 0;
    assert(a@.subrange(0, a@.len() as int) == a@);
    assert(b@.subrange(0, b@.len() as int) == b@);
    while i < a.len() && i < b.len() && a[i] == b[i]
        invariant
            i <= a@.len(),
            i <= b@.len(),
            lex_lt(a@, b@) == lex_lt(a@.subrange(i as int, a@.len() as int), b@.subrange(i as int, b@.len() as int)),
        decreases a@.len() - i,
    {
        let ghost sa = a@.subrange(i as int, a@.len() as int);
        let ghost sb = b@.subrange(i as int, b@.len() as int);
        assert(sa.drop_first() == a@.subrange(i + 1, a@.len() as int));
        assert(sb.drop_first() == b@.subrange(i + 1, b@.len() as int));
        i = i + 1;
    }
    if i == a.len() {
        i < b.len()
    } else if i == b.len() {
        false
    } else {
        a[i] < b[i]
    }
}

/// Whether two byte strings are equal.
fn bytes_eq(a: &[u8], b: &[u8]) -> (r: bool)
    ensures
        r == (a@ == b@),
{
    if a.len() != b.len() {
        return false;
    }
    let mut i: usize = 0;
    while i < a.len()
        invariant
            i <= a@.len() == b@.len(),
            a@.subrange(0, i as int) == b@.subrange(0, i as int),
        decreases a@.len() - i,
    {
        if a[i] != b[i] {
            return false;
        }
        assert(a@.subrange(0, i + 1) == a@.subrange(0, i as int).push(a@[i as int]));
        assert(b@.subrange(0, i + 1) == b@.subrange(0, i as int).push(b@[i as int]));
        i = i + 1;
    }
    assert(a@ == a@.subrange(0, i as int));
    assert(b@ == b@.subrange(0, i as int));
    true
}

impl Op {
    /// Applies the operator in byte-wise lexicographic order.
    pub fn apply(&self, lhs: &[u8], rhs: &[u8]) -> (r: bool)
        ensures
            r == op_holds(*self, lhs@, rhs@),
    {
        match self {
            Op::Eq => bytes_eq(lhs, rhs),
            Op::Lt => bytes_lt(lhs, rhs),
            Op::Gt => bytes_lt(rhs, lhs),
            Op::GtEq => !bytes_lt(lhs, rhs),
            Op::LtEq => !bytes_lt(rhs, lhs),
        }
    }

    /// The operator's SQL spelling.
    pub open spec fn text(self) -> Seq<char> {
        match self {
            Op::Eq => seq!['='],
            Op::Lt => seq!['<'],
            Op::Gt => seq!['>'],
            Op::GtEq => seq!['>', '='],
            Op::LtEq => seq!['<', '='],
        }
    }

    /// The operator's SQL spelling.
    pub fn as_str(&self) -> (r: &'static str)
        ensures
            r@ == self.text(),
    {
        match self {
            Op::Eq => {
                proof {
                    reveal_strlit("=");
                }
                "="
            },
            Op::Lt => {
                proof {
                    reveal_strlit("<");
                }
                "<"
            },
            Op::Gt => {
                proof {
                    reveal_strlit(">");
                }
                ">"
            },
            Op::GtEq => {
                proof {
                    reveal_strlit(">=");
                }
                ">="
            },
            Op::LtEq => {
                proof {
                    reveal_strlit("<=");
                }
                "<="
            },
        }
    }
}

/// Compares two compare forms with `op`, each stripped of one layer of quotes.
pub fn compare(lhs: &[u8], rhs: &[u8], op: Op) -> (r: bool)
    ensures
        r == compare_spec(lhs@, rhs@, op),
{
    let lhs_unquoted = unquote(lhs);
    let rhs_unquoted = unquote(rhs);
    op.apply(lhs_unquoted.as_slice(), rhs_unquoted.as_slice())
}

/// One comparison of a predicate: `column op value`.
#[derive(Clone, Debug)]
pub struct Expression {
    pub column: WhereColumn,
    pub op: Op,
    /// The literal, in compare form.
    pub value: Vec<u8>,
}

/// How a comparison is joined to the rest of the predicate.
#[derive(Debug)]
pub enum Combinator {
    And(Box<Where>),
    Or(Box<Where>),
}

/// A predicate: a comparison, optionally joined to a further predicate.
#[derive(Debug)]
pub struct Where {
    pub expression: Expression,
    pub combinator: Option<Combinator>,
}

/// The compare form of the left operand `column` in a row.
pub open spec fn operand_spec(column: WhereColumn, data: Seq<u8>, cell: CellModel) -> Result<
    Seq<u8>,
    ParsingError,
> {
    match column {
        WhereColumn::Column(c) => cell.column_cmp(data, c as int),
        WhereColumn::RowId => Ok(decimal(cell.rowid as int)),
    }
}

/// The value of the comparison of `e` on a row.
pub open spec fn expression_eval(e: Expression, data: Seq<u8>, cell: CellModel) -> Result<bool, ParsingError> {
    match operand_spec(e.column, data, cell) {
        Err(e) => Err(e),
        Ok(lhs) => Ok(compare_spec(lhs, e.value@, e.op)),
    }
}

/// The value of the chain `acc c w`, where `acc` is the value of the chain so
/// far and `c` joins it to the comparisons of `w` (`is_and` for `AND`): the
/// chain is read from the left, `((b1 c1 b2) c2 b3) ...`, and a comparison is
/// not evaluated once the value so far decides the next connective.
pub open spec fn where_fold(acc: bool, is_and: bool, w: Where, data: Seq<u8>, cell: CellModel) -> Result<bool, ParsingError>
    decreases w,
{
    let decided = if is_and {
        !acc
    } else {
        acc
    };
    let cur = if decided {
        Ok(acc)
    } else {
        expression_eval(w.expression, data, cell)
    };
    match cur {
        Err(e) => Err(e),
        Ok(v) => match w.combinator {
            Some(Combinator::And(rest)) => where_fold(v, true, *rest, data, cell),
            Some(Combinator::Or(rest)) => where_fold(v, false, *rest, data, cell),
            None => Ok(v),
        },
    }
}

/// The value of predicate `w` on a row: its comparisons joined from the left
/// by their connectives, with `AND` and `OR` short-circuited.
pub open spec fn where_eval(w: Where, data: Seq<u8>, cell: CellModel) -> Result<bool, ParsingError> {
    match expression_eval(w.expression, data, cell) {
        Err(e) => Err(e),
        Ok(v) => match w.combinator {
            Some(Combinator::And(rest)) => where_fold(v, true, *rest, data, cell),
            Some(Combinator::Or(rest)) => where_fold(v, false, *rest, data, cell),
            None => Ok(v),
        },
    }
}

/// The compare form of the left operand `column` in `cell`.
pub(crate) fn operand(column: WhereColumn, page_bytes: &[u8], cell: &LazyLeafCell) -> (r: Result<Vec<u8>, ParsingError>)
    ensures
        match operand_spec(column, page_bytes@, cell@) {
            Ok(s) => r is Ok && r->Ok_0@ == s,
            Err(e) => r == Err::<Vec<u8>, ParsingError>(e),
        },
{
    match column {
        WhereColumn::Column(c) => cell.get_column_cmp(page_bytes, c),
        WhereColumn::RowId => Ok(int_to_decimal(cell.rowid)),
    }
}

impl Where {
    /// This predicate, or `other`.
    pub fn or(self, other: Where) -> (r: Self)
        ensures
            r.expression == self.expression,
            r.combinator == Some(Combinator::Or(Box::new(other))),
    {
        Where { expression: self.expression, combinator: Some(Combinator::Or(Box::new(other))) }
    }

    /// This predicate, and `other`.
    pub fn and(self, other: Where) -> (r: Self)
        ensures
            r.expression == self.expression,
            r.combinator == Some(Combinator::And(Box::new(other))),
    {
        Where { expression: self.expression, combinator: Some(Combinator::And(Box::new(other))) }
    }

    /// Evaluates the predicate on `cell`, whose values lie in the file image
    /// `page_bytes` (see `where_eval`).
    pub fn execute(&self, page_bytes: &[u8], cell: &LazyLeafCell) -> (r: Result<bool, ParsingError>)
        ensures
            r == where_eval(*self, page_bytes@, cell@),
    {
        let lhs = operand(self.expression.column, page_bytes, cell)?;
        let own_comp = compare(lhs.as_slice(), self.expression.value.as_slice(), self.expression.op);
        match &self.combinator {
            Some(Combinator::And(rest)) => rest.fold(own_comp, true, page_bytes, cell),
            Some(Combinator::Or(rest)) => rest.fold(own_comp, false, page_bytes, cell),
            None => Ok(own_comp),
        }
    }

    /// Joins the value `acc` of the chain so far to this rest of the chain by
    /// `AND` (`is_and`) or `OR` (see `where_fold`).
    fn fold(&self, acc: bool, is_and: bool, page_bytes: &[u8], cell: &LazyLeafCell) -> (r: Result<bool, ParsingError>)
        ensures
            r == where_fold(acc, is_and, *self, page_bytes@, cell@),
        decreases self,
    {
        let decided = if is_and {
            !acc
        } else {
            acc
        };
        let v = if decided {
            acc
        } else {
            let lhs = operand(self.expression.column, page_bytes, cell)?;
            compare(lhs.as_slice(), self.expression.value.as_slice(), self.expression.op)
        };
        match &self.combinator {
            Some(Combinator::And(rest)) => rest.fold(v, true, page_bytes, cell),
            Some(Combinator::Or(rest)) => rest.fold(v, false, page_bytes, cell),
            None => Ok(v),
        }
    }
}

/// A predicate of one comparison.
pub fn where_builder(column: WhereColumn, op: Op, value: Vec<u8>) -> (r: Where)
    ensures
        r.expression.column == column,
        r.expression.op == op,
        r.expression.value@ == value@,
        r.combinator is None,
{
    Where { expression: Expression { column, op, value }, combinator: None }
}


/// A copy of a byte string.
pub fn copy_bytes_of(v: &Vec<u8>) -> (r: Vec<u8>)
    ensures
        r@ == v@,
{
    let r = v.clone();
    assert(r@ =~= v@);
    r
}

/// The operand that a table column stands for.
pub open spec fn where_column_of(tc: TableColumn) -> WhereColumn {
    match tc {
        TableColumn::RowId(_) => WhereColumn::RowId,
        TableColumn::Column(i, _) => WhereColumn::Column(i),
    }
}

/// The projected column that a table column stands for.
pub open spec fn projection_of(tc: TableColumn) -> Column {
    match tc {
        TableColumn::RowId(_) => Column::RowId,
        TableColumn::Column(i, _) => Column::Column(i),
    }
}

/// Whether every column that the condition names is a column of `cols`.
pub open spec fn where_resolves(comp: ParsedWhere, cols: Seq<TableColumn>) -> bool
    decreases comp,
{
    &&& first_named(cols, comp.expression.column@) is Some
    &&& match comp.combinator {
        Some(ParsedCombinator::And(rest)) => where_resolves(*rest, cols),
        Some(ParsedCombinator::Or(rest)) => where_resolves(*rest, cols),
        None => true,
    }
}

/// Whether `w` is the condition `comp` with each column name replaced by the
/// operand of the first column of `cols` so named.
pub open spec fn where_from(w: Where, comp: ParsedWhere, cols: Seq<TableColumn>) -> bool
    decreases comp,
{
    &&& first_named(cols, comp.expression.column@) is Some
    &&& w.expression.column == where_column_of(cols[first_named(cols, comp.expression.column@)->0])
    &&& w.expression.op == comp.expression.op
    &&& w.expression.value@ == comp.expression.value@
    &&& match (comp.combinator, w.combinator) {
        (Some(ParsedCombinator::And(rest)), Some(Combinator::And(wr))) => where_from(*wr, *rest, cols),
        (Some(ParsedCombinator::Or(rest)), Some(Combinator::Or(wr))) => where_from(*wr, *rest, cols),
        (None, None) => true,
        _ => false,
    }
}

impl Where {
    /// The condition `comp` with its column names resolved against `table`;
    /// an unknown column is `InvalidStatement`.
    pub fn from_table(comp: &ParsedWhere, table: &Table) -> (r: Result<Where, ParsingError>)
        ensures
            match r {
                Ok(w) => where_resolves(*comp, table.columns@) && where_from(w, *comp, table.columns@),
                Err(e) => !where_resolves(*comp, table.columns@) && e == ParsingError::InvalidStatement,
            },
        decreases comp,
    {
        let column = match table.get_column_by_name(comp.expression.column.as_slice()) {
            Some(c) => c,
            None => return Err(ParsingError::InvalidStatement),
        };
        let column = match column {
            TableColumn::RowId(_) => WhereColumn::RowId,
            TableColumn::Column(index, _) => WhereColumn::Column(*index),
        };
        let combinator = match &comp.combinator {
            Some(ParsedCombinator::And(rest)) => Some(Combinator::And(Box::new(Self::from_table(rest, table)?))),
            Some(ParsedCombinator::Or(rest)) => Some(Combinator::Or(Box::new(Self::from_table(rest, table)?))),
            None => None,
        };
        Ok(
            Where {
                expression: Expression {
                    column,
                    op: comp.expression.op,
                    value: copy_bytes_of(&comp.expression.value),
                },
                combinator,
            },
        )
    }
}

/// A query plan: the table's root page, the projection, the optional
/// condition, and the optional index lookup (index root page, operator,
/// value, and the column's position in the index record).
pub struct SelectBuilder {
    pub index: Option<(u64, (Op, Vec<u8>, WhereColumn))>,
    pub table: u64,
    pub columns: Vec<Column>,
    pub where_comps: Option<Where>,
}

/// Whether the index `d` serves the condition `w` on a table with columns
/// `cols`: the condition is a single comparison on an ordinary column, and
/// that column is the index's first column.
pub open spec fn index_applies(w: ParsedWhere, cols: Seq<TableColumn>, d: IndexData) -> bool {
    &&& w.combinator is None
    &&& first_named(cols, w.expression.column@) is Some
    &&& cols[first_named(cols, w.expression.column@)->0] is Column
    &&& d.columns@.len() > 0
    &&& d.columns@[0]@ == cols[first_named(cols, w.expression.column@)->0].name()
}

/// Whether every projected name is a column of `cols`.
pub open spec fn projection_resolves(names: Seq<Option<Vec<u8>>>, cols: Seq<TableColumn>) -> bool {
    forall|i: int| 0 <= i < names.len() && (#[trigger] names[i]) is Some ==> first_named(cols, names[i]->0@) is Some
}

/// The projected column for the `i`-th projected name (`None` is `COUNT(*)`).
pub open spec fn projected(names: Seq<Option<Vec<u8>>>, cols: Seq<TableColumn>, i: int) -> Column {
    match names[i] {
        None => Column::Count,
        Some(n) => projection_of(cols[first_named(cols, n@)->0]),
    }
}

/// The root page, operator and value of an index lookup.
pub open spec fn lookup_of(index: Option<(u64, (Op, Vec<u8>, WhereColumn))>) -> (u64, Op, Seq<u8>) {
    match index {
        Some((root, (op, value, _))) => (root, op, value@),
        None => (0, Op::Eq, seq![]),
    }
}

/// The index-record operand of an index lookup.
pub open spec fn lookup_column(index: Option<(u64, (Op, Vec<u8>, WhereColumn))>) -> WhereColumn {
    match index {
        Some((_, (_, _, column))) => column,
        None => WhereColumn::RowId,
    }
}

/// Whether every column that `select` names is a column of `table`.
pub open spec fn plan_resolves(select: ParsedSelect, table: Table) -> bool {
    &&& projection_resolves(select.columns@, table.columns@)
    &&& match select.where_comp {
        Some(w) => where_resolves(w, table.columns@),
        None => true,
    }
}

/// Whether `b` is the plan for `select` on `table`, rooted at `root_page`,
/// with `table_index` offered for the lookup.
pub open spec fn plan_from(b: SelectBuilder, root_page: u64, select: ParsedSelect, table: Table, table_index: Option<IndexData>) -> bool {
    &&& b.table == root_page
    &&& b.columns@.len() == select.columns@.len()
    &&& forall|i: int| 0 <= i < b.columns@.len() ==> #[trigger] b.columns@[i] == projected(select.columns@, table.columns@, i)
    &&& match select.where_comp {
        Some(w) => b.where_comps is Some && where_from(b.where_comps->0, w, table.columns@),
        None => b.where_comps is None,
    }
    &&& match (table_index, select.where_comp) {
        (Some(d), Some(w)) => if index_applies(w, table.columns@, d) {
            &&& b.index is Some
            &&& lookup_of(b.index) == (d.root_page, w.expression.op, w.expression.value@)
            &&& lookup_column(b.index) == WhereColumn::Column(0)
        } else {
            b.index is None
        },
        _ => b.index is None,
    }
}

impl SelectBuilder {
    /// A plan that scans table `table` and projects `columns`.
    pub fn new(table: u64, columns: Vec<Column>) -> (r: Self)
        ensures
            r.table == table,
            r.columns@ == columns@,
            r.index is None,
            r.where_comps is None,
    {
        SelectBuilder { index: None, table, columns, where_comps: None }
    }

    /// The plan with condition `comp`.
    pub fn where_cmp(self, comp: Where) -> (r: Self)
        ensures
            r.table == self.table,
            r.columns@ == self.columns@,
            r.index == self.index,
            r.where_comps == Some(comp),
    {
        SelectBuilder { index: self.index, table: self.table, columns: self.columns, where_comps: Some(comp) }
    }

    /// The plan with an index lookup of `index_column op value` in the index rooted at `index_page`.
    pub fn with_index(self, index_page: u64, op: Op, value: Vec<u8>, index_column: WhereColumn) -> (r: Self)
        ensures
            r.table == self.table,
            r.columns@ == self.columns@,
            r.where_comps == self.where_comps,
            r.index == Some((index_page, (op, value, index_column))),
    {
        SelectBuilder {
            index: Some((index_page, (op, value, index_column))),
            table: self.table,
            columns: self.columns,
            where_comps: self.where_comps,
        }
    }

    /// The plan for `select` on `table`, rooted at `root_page`. The index
    /// `table_index` is used for the lookup only when it serves the condition
    /// (see `index_applies`); otherwise the plan is a full scan. A projected
    /// or compared column that the table lacks is `InvalidStatement`.
    pub fn from_select_and_table(root_page: u64, select: ParsedSelect, table: Table, table_index: Option<IndexData>) -> (r:
        Result<SelectBuilder, ParsingError>)
        ensures
            r is Ok <==> plan_resolves(select, table),
            r is Err ==> r == Err::<SelectBuilder, ParsingError>(ParsingError::InvalidStatement),
            r is Ok ==> plan_from(r->Ok_0, root_page, select, table, table_index),
    {
        let mut columns: Vec<Column> = Vec::new();
        let mut i: usize = 0;
        while i < select.columns.len()
            invariant
                i <= select.columns@.len(),
                columns@.len() == i,
                forall|k: int| 0 <= k < i && (#[trigger] select.columns@[k]) is Some ==> first_named(table.columns@, select.columns@[k]->0@) is Some,
                forall|k: int| 0 <= k < i ==> #[trigger] columns@[k] == projected(select.columns@, table.columns@, k),
            decreases select.columns@.len() - i,
        {
            let c = match &select.columns[i] {
                Some(name) => match table.get_column_by_name(name.as_slice()) {
                    Some(TableColumn::RowId(_)) => Column::RowId,
                    Some(TableColumn::Column(index, _)) => Column::Column(*index),
                    None => return Err(ParsingError::InvalidStatement),
                },
                None => Column::Count,
            };
            columns.push(c);
            i = i + 1;
        }
        let where_comps = match &select.where_comp {
            Some(comp) => Some(Where::from_table(comp, &table)?),
            None => None,
        };
        let index = match (table_index, &select.where_comp) {
            (Some(index_data), Some(w)) => {
                if w.combinator.is_some() || index_data.columns.len() == 0 {
                    None
                } else {
                    match table.get_column_by_name(w.expression.column.as_slice()) {
                        Some(TableColumn::Column(_, name)) => {
                            if same_bytes(index_data.columns[0].as_slice(), name.as_slice()) {
                                Some(
                                    (
                                        index_data.root_page,
                                        (w.expression.op, copy_bytes_of(&w.expression.value), WhereColumn::Column(0)),
                                    ),
                                )
                            } else {
                                None
                            }
                        },
                        _ => None,
                    }
                }
            },
            _ => None,
        };
        Ok(SelectBuilder { index, table: root_page, columns, where_comps })
    }
}


/// The cells of `cells` on which `w` evaluates to true, in order; the first
/// row on which evaluating `w` fails gives its error.
pub open spec fn where_filter(data: Seq<u8>, cells: Seq<CellModel>, w: Where) -> Result<Seq<CellModel>, ParsingError>
    decreases cells.len(),
{
    if cells.len() == 0 {
        Ok(seq![])
    } else {
        match where_filter(data, cells.drop_last(), w) {
            Err(e) => Err(e),
            Ok(s) => match where_eval(w, data, cells.last()) {
                Err(e) => Err(e),
                Ok(true) => Ok(s.push(cells.last())),
                Ok(false) => Ok(s),
            },
        }
    }
}

proof fn lemma_where_filter_err(data: Seq<u8>, cells: Seq<CellModel>, w: Where, m: int)
    requires
        0 <= m <= cells.len(),
        where_filter(data, cells.subrange(0, m), w) is Err,
    ensures
        where_filter(data, cells, w) == where_filter(data, cells.subrange(0, m), w),
    decreases cells.len() - m,
{
    if m < cells.len() {
        assert(cells.subrange(0, m + 1).drop_last() == cells.subrange(0, m));
        lemma_where_filter_err(data, cells, w, m + 1);
    } else {
        assert(cells.subrange(0, m) == cells);
    }
}

/// The cells that plan `b` selects: the cells that the index lookup finds
/// when it has one, else those of a full scan; either way filtered by the
/// condition. An index lookup without a condition is `InvalidStatement`.
pub open spec fn plan_cells(data: Seq<u8>, ps: u16, b: SelectBuilder) -> Result<Seq<CellModel>, ParsingError> {
    match b.index {
        Some((ip, (op, v, col))) => if b.where_comps is None {
            Err(ParsingError::InvalidStatement)
        } else {
            match page_at(data, ps, b.table) {
                Err(e) => Err(e),
                Ok(p) => match page_at(data, ps, ip) {
                    Err(e) => Err(e),
                    Ok(ipage) => match index_search_spec(data, ps, ipage, col, v@, op, MAX_DEPTH as nat) {
                        Err(e) => Err(e),
                        Ok(ids) => match find_rows_spec(data, ps, p, ids, MAX_DEPTH as nat) {
                            Err(e) => Err(e),
                            Ok(found) => where_filter(data, found, b.where_comps->0),
                        },
                    },
                },
            }
        },
        None => match page_at(data, ps, b.table) {
            Err(e) => Err(e),
            Ok(p) => match table_cells(data, ps, p, MAX_DEPTH as nat) {
                Err(e) => Err(e),
                Ok(cells) => match b.where_comps {
                    None => Ok(cells),
                    Some(w) => where_filter(data, cells, w),
                },
            },
        },
    }
}

/// The display text of projected column `col` of a row, among `count` rows.
pub open spec fn row_value(data: Seq<u8>, c: CellModel, col: Column, count: nat) -> Result<Seq<u8>, ParsingError> {
    match col {
        Column::RowId => Ok(decimal(c.rowid as int)),
        Column::Count => Ok(decimal(count as int)),
        Column::Column(i) => c.column(data, i as int),
    }
}

/// The projection of one row.
pub open spec fn row_spec(data: Seq<u8>, c: CellModel, cols: Seq<Column>, count: nat) -> Result<Seq<Seq<u8>>, ParsingError> {
    collect(cols.len(), |j: int| row_value(data, c, cols[j], count))
}

/// The projection of every row.
pub open spec fn rows_spec(data: Seq<u8>, cells: Seq<CellModel>, cols: Seq<Column>) -> Result<Seq<Seq<Seq<u8>>>, ParsingError> {
    collect(cells.len(), |k: int| row_spec(data, cells[k], cols, cells.len()))
}

/// What running plan `b` gives: for a projection of exactly `COUNT(*)`, one
/// row holding the number of selected cells; otherwise one row per cell.
pub open spec fn query_spec(data: Seq<u8>, ps: u16, b: SelectBuilder) -> Result<Seq<Seq<Seq<u8>>>, ParsingError> {
    match plan_cells(data, ps, b) {
        Err(e) => Err(e),
        Ok(cells) => if b.columns@ == seq![Column::Count] {
            Ok(seq![seq![decimal(cells.len() as int)]])
        } else {
            rows_spec(data, cells, b.columns@)
        },
    }
}

/// The text of a result table.
pub open spec fn rows_view(r: Seq<Vec<Vec<u8>>>) -> Seq<Seq<Seq<u8>>> {
    r.map_values(|row: Vec<Vec<u8>>| row@.map_values(|v: Vec<u8>| v@))
}

/// The cells of `cells` on which `w` holds (see `where_filter`).
fn filter_cells(data: &[u8], cells: &Vec<LazyLeafCell>, w: &Where) -> (r: Result<Vec<LazyLeafCell>, ParsingError>)
    ensures
        match where_filter(data@, views(cells@), *w) {
            Ok(s) => r is Ok && views(r->Ok_0@) == s,
            Err(e) => r == Err::<Vec<LazyLeafCell>, ParsingError>(e),
        },
{
    let mut out: Vec<LazyLeafCell> = Vec::new();
    let ghost cs = views(cells@);
    let mut i: usize = 0;
    assert(views(out@) =~= seq![]);
    assert(cs.subrange(0, 0) =~= seq![]);
    while i < cells.len()
        invariant
            i <= cells@.len(),
            cs == views(cells@),
            where_filter(data@, cs.subrange(0, i as int), *w) == Ok::<Seq<CellModel>, ParsingError>(views(out@)),
        decreases cells@.len() - i,
    {
        let ghost prev = out@;
        assert(cs.subrange(0, i + 1).drop_last() == cs.subrange(0, i as int));
        assert(cs[i as int] == cells@[i as int]@);
        let keep = match w.execute(data, &cells[i]) {
            Ok(b) => b,
            Err(e) => {
                proof {
                    lemma_where_filter_err(data@, cs, *w, i + 1);
                }
                return Err(e);
            },
        };
        if keep {
            out.push(cells[i].duplicate());
            assert(views(out@) =~= views(prev).push(cells@[i as int]@));
        }
        i = i + 1;
    }
    assert(cs.subrange(0, i as int) == cs);
    Ok(out)
}

/// The projection of one row.
fn project_row(data: &[u8], cell: &LazyLeafCell, columns: &Vec<Column>, count: usize) -> (r: Result<Vec<Vec<u8>>, ParsingError>)
    ensures
        match row_spec(data@, cell@, columns@, count as nat) {
            Ok(s) => r is Ok && r->Ok_0@.map_values(|v: Vec<u8>| v@) == s,
            Err(e) => r == Err::<Vec<Vec<u8>>, ParsingError>(e),
        },
{
    let ghost f = |j: int| row_value(data@, cell@, columns@[j], count as nat);
    let mut row: Vec<Vec<u8>> = Vec::new();
    let mut j: usize = 0;
    assert(row@.map_values(|v: Vec<u8>| v@) =~= seq![]);
    while j < columns.len()
        invariant
            j <= columns@.len(),
            f == (|j: int| row_value(data@, cell@, columns@[j], count as nat)),
            collect(j as nat, f) == Ok::<Seq<Seq<u8>>, ParsingError>(row@.map_values(|v: Vec<u8>| v@)),
        decreases columns@.len() - j,
    {
        let ghost prev = row@;
        let v = match columns[j] {
            Column::RowId => Ok(int_to_decimal(cell.rowid)),
            Column::Count => Ok(int_to_decimal(count as i128)),
            Column::Column(i) => cell.get_column(data, i),
        };
        match v {
            Ok(text) => {
                row.push(text);
                assert(row@.map_values(|v: Vec<u8>| v@) =~= prev.map_values(|v: Vec<u8>| v@).push(row@.last()@));
            },
            Err(e) => {
                proof {
                    lemma_collect_err(columns@.len(), (j + 1) as nat, f);
                }
                return Err(e);
            },
        }
        j = j + 1;
    }
    Ok(row)
}

/// The projection of every row of `cells`.
fn project_rows(data: &[u8], cells: &Vec<LazyLeafCell>, columns: &Vec<Column>) -> (r: Result<Vec<Vec<Vec<u8>>>, ParsingError>)
    ensures
        match rows_spec(data@, views(cells@), columns@) {
            Ok(s) => r is Ok && rows_view(r->Ok_0@) == s,
            Err(e) => r == Err::<Vec<Vec<Vec<u8>>>, ParsingError>(e),
        },
{
    let ghost cs = views(cells@);
    let ghost f = |k: int| row_spec(data@, cs[k], columns@, cs.len());
    let count = cells.len();
    let mut out: Vec<Vec<Vec<u8>>> = Vec::new();
    let mut k: usize = 0;
    assert(rows_view(out@) =~= seq![]);
    while k < cells.len()
        invariant
            k <= cells@.len(),
            count == cells@.len(),
            cs == views(cells@),
            f == (|k: int| row_spec(data@, cs[k], columns@, cs.len())),
            collect(k as nat, f) == Ok::<Seq<Seq<Seq<u8>>>, ParsingError>(rows_view(out@)),
        decreases cells@.len() - k,
    {
        assert(cs[k as int] == cells@[k as int]@);
        let ghost prev = out@;
        match project_row(data, &cells[k], columns, count) {
            Ok(row) => {
                out.push(row);
                assert(rows_view(out@) =~= rows_view(prev).push(out@.last()@.map_values(|v: Vec<u8>| v@)));
            },
            Err(e) => {
                proof {
                    lemma_collect_err(cs.len(), (k + 1) as nat, f);
                }
                return Err(e);
            },
        }
        k = k + 1;
    }
    Ok(out)
}

impl SelectBuilder {
    /// Runs the plan against the database in `sqlite_reader` (see `query_spec`).
    pub fn execute(self, sqlite_reader: &SqliteReader) -> (r: Result<Vec<Vec<Vec<u8>>>, ParsingError>)
        ensures
            match query_spec(sqlite_reader.data@, sqlite_reader.header.page_size, self) {
                Ok(s) => r is Ok && rows_view(r->Ok_0@) == s,
                Err(e) => r == Err::<Vec<Vec<Vec<u8>>>, ParsingError>(e),
            },
    {
        if self.index.is_some() && self.where_comps.is_none() {
            return Err(ParsingError::InvalidStatement);
        }
        let data = sqlite_reader.data.as_slice();
        let page = sqlite_reader.read_page(self.table)?;
        let cells = match &self.index {
            Some((index_page, (op, value, index_column))) => {
                let ipage = sqlite_reader.read_page(*index_page)?;
                let rowids = index_search(&ipage, sqlite_reader, *index_column, value.as_slice(), *op)?;
                let found = binary_search_cells_lazy(&page, sqlite_reader, rowids.as_slice())?;
                match &self.where_comps {
                    Some(comp) => filter_cells(data, &found, comp)?,
                    None => found,
                }
            },
            None => {
                let all = get_cells_lazy(&page, sqlite_reader)?;
                match &self.where_comps {
                    Some(comp) => filter_cells(data, &all, comp)?,
                    None => all,
                }
            },
        };
        let ghost cs = views(cells@);
        assert(plan_cells(sqlite_reader.data@, sqlite_reader.header.page_size, self) == Ok::<Seq<CellModel>, ParsingError>(cs));
        let count = cells.len();
        if self.columns.len() == 1 && self.columns[0] == Column::Count {
            assert(self.columns@ =~= seq![Column::Count]);
            let mut row: Vec<Vec<u8>> = Vec::new();
            row.push(int_to_decimal(count as i128));
            assert(row@.map_values(|v: Vec<u8>| v@) =~= seq![decimal(count as int)]);
            let mut out: Vec<Vec<Vec<u8>>> = Vec::new();
            out.push(row);
            assert(rows_view(out@) =~= seq![seq![decimal(count as int)]]);
            return Ok(out);
        }
        assert(self.columns@ != seq![Column::Count]);
        project_rows(data, &cells, &self.columns)
    }
}


/// With no index lookup and no condition, `COUNT(*)` is the number of cells
/// that the full scan of the table yields.
pub proof fn lemma_count_is_scan_length(data: Seq<u8>, ps: u16, b: SelectBuilder)
    requires
        b.index is None,
        b.where_comps is None,
        b.columns@ == seq![Column::Count],
    ensures
        match page_at(data, ps, b.table) {
            Err(e) => query_spec(data, ps, b) == Err::<Seq<Seq<Seq<u8>>>, ParsingError>(e),
            Ok(p) => match table_cells(data, ps, p, MAX_DEPTH as nat) {
                Err(e) => query_spec(data, ps, b) == Err::<Seq<Seq<Seq<u8>>>, ParsingError>(e),
                Ok(cells) => query_spec(data, ps, b) == Ok::<Seq<Seq<Seq<u8>>>, ParsingError>(
                    seq![seq![decimal(cells.len() as int)]],
                ),
            },
        },
{
}

} // verus!
