//! Table descriptors, read from `CREATE TABLE` statements.
use crate::parsing_error::ParsingError;
use crate::index_parser::{lower, to_ascii_lower};
use crate::parsing_utils::{
    find_byte, find_keyword, first_pos, keyword_position, last_pos, lead_ws, rfind_byte, split_bytes,
    split_on, trim, trim_bounds, trimmed_copy, words, words_in,
};
use vstd::prelude::*;
use vstd::string::StringSliceAdditionalSpecFns;

verus! {

/// A column of a table: the integer primary key that stands for the row-id,
/// or an ordinary column with its position in the record.
#[derive(Debug)]
pub enum TableColumn {
    RowId(Vec<u8>),
    Column(usize, Vec<u8>),
}

impl TableColumn {
    /// The column's name.
    pub open spec fn name(&self) -> Seq<u8> {
        match self {
            TableColumn::RowId(n) => n@,
            TableColumn::Column(_, n) => n@,
        }
    }
}

/// A table: its name and its columns in order.
#[derive(Debug)]
pub struct Table {
    pub name: Vec<u8>,
    pub columns: Vec<TableColumn>,
}

/// The position of the first column of `cols` named `name`.
pub open spec fn first_named(cols: Seq<TableColumn>, name: Seq<u8>) -> Option<int> {
    if exists|i: int| 0 <= i < cols.len() && (#[trigger] cols[i]).name() == name {
        Some(choose|i: int| 0 <= i < cols.len() && cols[i].name() == name && forall|j: int| 0 <= j < i ==> (#[trigger] cols[j]).name() != name)
    } else {
        None
    }
}

/// Whether two byte strings are equal.
pub fn same_bytes(a: &[u8], b: &[u8]) -> (r: bool)
    ensures
        r == (a@ == b@),
{
    if a.len() != b.len() {
        return false;
    }
    let mut i: usize = 0;
    while i < a.len()
        invariant
            i <= a@.len() == b@.len(),
            forall|j: int| 0 <= j < i ==> a@[j] == b@[j],
        decreases a@.len() - i,
    {
        if a[i] != b[i] {
            return false;
        }
        i = i + 1;
    }
    assert(a@ =~= b@);
    true
}

impl Table {
    /// The first column named `column_name`.
    pub fn get_column_by_name(&self, column_name: &[u8]) -> (r: Option<&TableColumn>)
        ensures
            match first_named(self.columns@, column_name@) {
                Some(i) => r == Some(&self.columns@[i]),
                None => r is None,
            },
    {
        let mut i: usize = 0;
        while i < self.columns.len()
            invariant
                i <= self.columns@.len(),
                forall|j: int| 0 <= j < i ==> (#[trigger] self.columns@[j]).name() != column_name@,
            decreases self.columns@.len() - i,
        {
            let found = match &self.columns[i] {
                TableColumn::RowId(name) => same_bytes(name.as_slice(), column_name),
                TableColumn::Column(_, name) => same_bytes(name.as_slice(), column_name),
            };
            if found {
                proof {
                    let k = choose|k: int| 0 <= k < self.columns@.len() && self.columns@[k].name() == column_name@
                        && forall|j: int| 0 <= j < k ==> (#[trigger] self.columns@[j]).name() != column_name@;
                    if k < i {
                    } else if k > i {
                        assert(self.columns@[i as int].name() == column_name@);
                    }
                }
                return Some(&self.columns[i]);
            }
            i = i + 1;
        }
        None
    }
}


/// The words `integer`, `primary` and `key`.
pub open spec fn integer_word() -> Seq<u8> {
    seq![105u8, 110, 116, 101, 103, 101, 114]
}

pub open spec fn primary_word() -> Seq<u8> {
    seq![112u8, 114, 105, 109, 97, 114, 121]
}

pub open spec fn key_word() -> Seq<u8> {
    seq![107u8, 101, 121]
}

/// Whether a column definition with words `ws` declares the row-id column:
/// its type is `integer` and it is the `primary key` (in any case), that is
/// its words go `<name> integer primary key ...`.
pub open spec fn declares_rowid(ws: Seq<Seq<u8>>) -> bool {
    &&& ws.len() >= 4
    &&& lower(ws[1]) == integer_word()
    &&& lower(ws[2]) == primary_word()
    &&& lower(ws[3]) == key_word()
}

/// Where the table name and the column list of a `CREATE TABLE` statement
/// lie in its bytes: (name begin, name end and opening parenthesis, closing
/// parenthesis). The text, once trimmed, must start with the keyword
/// `CREATE`, followed by `TABLE`, a non-empty name, and a parenthesised list.
pub open spec fn table_layout(b: Seq<u8>) -> Result<(int, int, int), ParsingError> {
    let lo = lead_ws(b) as int;
    let t = trim(b);
    match keyword_position(b, seq!['C', 'R', 'E', 'A', 'T', 'E']) {
        None => Err(ParsingError::InvalidStatement),
        Some(c) => match keyword_position(b, seq!['T', 'A', 'B', 'L', 'E']) {
            None => Err(ParsingError::InvalidStatement),
            Some(tk) => if c != lo || tk <= c {
                Err(ParsingError::InvalidStatement)
            } else {
                match first_pos(t, 40) {
                    None => Err(ParsingError::InvalidStatement),
                    Some(ne) => if tk + 5 > lo + ne || trim(b.subrange(tk + 5, lo + ne)).len() == 0 {
                        Err(ParsingError::InvalidStatement)
                    } else {
                        match last_pos(t, 41) {
                            None => Err(ParsingError::InvalidStatement),
                            Some(ce) => if ne + 1 > ce {
                                Err(ParsingError::InvalidStatement)
                            } else {
                                Ok((tk + 5, lo + ne, lo + ce))
                            },
                        }
                    },
                }
            },
        },
    }
}

/// Whether `c` is the column that the definition with words `ws` at position `i` gives.
pub open spec fn column_from(c: TableColumn, ws: Seq<Seq<u8>>, i: int) -> bool {
    &&& c.name() == ws[0]
    &&& if declares_rowid(ws) {
        c is RowId
    } else {
        c is Column && c->Column_0 == i
    }
}

/// Whether the `CREATE TABLE` statement with bytes `b` parses: its layout
/// is right and no column definition is empty.
pub open spec fn table_parses(b: Seq<u8>) -> bool {
    match table_layout(b) {
        Err(_) => false,
        Ok((nb, ne, ce)) => forall|i: int|
            0 <= i < split_on(b.subrange(ne + 1, ce), 44).len() ==> words(
                #[trigger] split_on(b.subrange(ne + 1, ce), 44)[i],
            ).len() > 0,
    }
}

/// Whether `t` is the table that the `CREATE TABLE` statement with bytes `b` defines.
pub open spec fn table_from(t: Table, b: Seq<u8>) -> bool {
    match table_layout(b) {
        Err(_) => false,
        Ok((nb, ne, ce)) => {
            let pieces = split_on(b.subrange(ne + 1, ce), 44);
            &&& t.name@ == trim(b.subrange(nb, ne))
            &&& t.columns@.len() == pieces.len()
            &&& forall|i: int| 0 <= i < pieces.len() ==> column_from(#[trigger] t.columns@[i], words(pieces[i]), i)
        },
    }
}

/// Whether the word `w`, in lower case, is `word`.
fn is_word(w: &[u8], word: &[u8]) -> (r: bool)
    ensures
        r == (lower(w@) == word@),
{
    let l = to_ascii_lower(w);
    same_bytes(l.as_slice(), word)
}

/// Whether the definition with words `ws` declares the row-id column.
fn rowid_definition(ws: &Vec<Vec<u8>>) -> (r: bool)
    ensures
        r == declares_rowid(ws@.map_values(|v: Vec<u8>| v@)),
{
    let ghost wv = ws@.map_values(|v: Vec<u8>| v@);
    if ws.len() < 4 {
        return false;
    }
    assert(wv[1] == ws@[1]@ && wv[2] == ws@[2]@ && wv[3] == ws@[3]@);
    let integer: Vec<u8> = vec![105u8, 110, 116, 101, 103, 101, 114];
    let primary: Vec<u8> = vec![112u8, 114, 105, 109, 97, 114, 121];
    let key: Vec<u8> = vec![107u8, 101, 121];
    assert(integer@ == integer_word() && primary@ == primary_word() && key@ == key_word());
    is_word(ws[1].as_slice(), integer.as_slice()) && is_word(ws[2].as_slice(), primary.as_slice()) && is_word(
        ws[3].as_slice(),
        key.as_slice(),
    )
}

/// Reads the table name and columns of a `CREATE TABLE` statement (see
/// `table_layout`). Each comma-separated definition gives a column named by
/// its first word; one that declares the row-id (see `declares_rowid`)
/// stands for the row-id, the others get their position. Any other text, or
/// an empty definition, is `InvalidStatement`.
pub fn parse_table(sql: &str) -> (r: Result<Table, ParsingError>)
    ensures
        match table_layout(sql.spec_bytes()) {
            Err(e) => r == Err::<Table, ParsingError>(e),
            Ok((nb, ne, ce)) => {
                let b = sql.spec_bytes();
                let pieces = split_on(b.subrange(ne + 1, ce), 44);
                &&& (r is Ok <==> forall|i: int| 0 <= i < pieces.len() ==> words(#[trigger] pieces[i]).len() > 0)
                &&& (r is Err ==> r == Err::<Table, ParsingError>(ParsingError::InvalidStatement))
                &&& (r is Ok ==> {
                    &&& r->Ok_0.name@ == trim(b.subrange(nb, ne))
                    &&& r->Ok_0.columns@.len() == pieces.len()
                    &&& forall|i: int| 0 <= i < pieces.len() ==> column_from(#[trigger] r->Ok_0.columns@[i], words(pieces[i]), i)
                })
            },
        },
        r is Ok <==> table_parses(sql.spec_bytes()),
        r is Ok ==> table_from(r->Ok_0, sql.spec_bytes()),
        r is Err ==> r == Err::<Table, ParsingError>(ParsingError::InvalidStatement),
{
    proof {
        reveal_strlit("CREATE");
        reveal_strlit("TABLE");
    }
    let b = sql.as_bytes();
    let n = b.len();
    let (lo, hi) = trim_bounds(b, 0, n);
    assert(b@.subrange(0, n as int) == b@);
    let kw_create = "CREATE";
    assert(kw_create@ == seq!['C', 'R', 'E', 'A', 'T', 'E']);
    let create = match find_keyword(sql, kw_create) {
        Some(p) => p,
        None => {
            assert(keyword_position(sql.spec_bytes(), seq!['C', 'R', 'E', 'A', 'T', 'E']) is None);
            assert(table_layout(sql.spec_bytes()) is Err);
            return Err(ParsingError::InvalidStatement);
        },
    };
    let kw_table = "TABLE";
    assert(kw_table@ == seq!['T', 'A', 'B', 'L', 'E']);
    let table = match find_keyword(sql, kw_table) {
        Some(p) => p,
        None => {
            assert(table_layout(sql.spec_bytes()) is Err);
            return Err(ParsingError::InvalidStatement);
        },
    };
    assert(lo == lead_ws(sql.spec_bytes()));
    assert(b@.subrange(lo as int, hi as int) == trim(sql.spec_bytes()));
    if create != lo || table <= create {
        assert(table_layout(sql.spec_bytes()) is Err);
        return Err(ParsingError::InvalidStatement);
    }
    let ne = match find_byte(b, lo, hi, 40u8) {
        Some(p) => p,
        None => {
            assert(table_layout(sql.spec_bytes()) is Err);
            return Err(ParsingError::InvalidStatement);
        },
    };
    let name_end = lo + ne;
    if table > name_end || name_end - table < 5 {
        assert(table_layout(sql.spec_bytes()) is Err);
        return Err(ParsingError::InvalidStatement);
    }
    let name = trimmed_copy(b, table + 5, name_end);
    if name.len() == 0 {
        assert(table_layout(sql.spec_bytes()) is Err);
        return Err(ParsingError::InvalidStatement);
    }
    let ce = match rfind_byte(b, lo, hi, 41u8) {
        Some(p) => p,
        None => {
            assert(table_layout(sql.spec_bytes()) is Err);
            return Err(ParsingError::InvalidStatement);
        },
    };
    if ne + 1 > ce {
        assert(table_layout(sql.spec_bytes()) is Err);
        return Err(ParsingError::InvalidStatement);
    }
    assert(b@.subrange(lo as int, hi as int).subrange(ne + 1, ce as int) =~= b@.subrange(name_end + 1, lo + ce));
    let pieces = split_bytes(b, name_end + 1, lo + ce, 44u8);
    let ghost ps = pieces@.map_values(|v: Vec<u8>| v@);
    assert(table_layout(sql.spec_bytes()) == Ok::<(int, int, int), ParsingError>((table + 5, name_end as int, (lo + ce) as int)));
    let mut columns: Vec<TableColumn> = Vec::new();
    let mut i: usize = 0;
    while i < pieces.len()
        invariant
            i <= pieces@.len(),
            ps == pieces@.map_values(|v: Vec<u8>| v@),
            ps == split_on(sql.spec_bytes().subrange(name_end + 1, lo + ce), 44),
            table_layout(sql.spec_bytes()) == Ok::<(int, int, int), ParsingError>((table + 5, name_end as int, (lo + ce) as int)),
            columns@.len() == i,
            forall|j: int| 0 <= j < i ==> words(#[trigger] ps[j]).len() > 0,
            forall|j: int| 0 <= j < i ==> column_from(#[trigger] columns@[j], words(ps[j]), j),
        decreases pieces@.len() - i,
    {
        let p = pieces[i].as_slice();
        assert(ps[i as int] == p@);
        assert(p@.subrange(0, p@.len() as int) == p@);
        let mut ws = words_in(p, 0, p.len());
        if ws.len() == 0 {
            assert(words(ps[i as int]).len() == 0);
            proof {
                let pieces = split_on(sql.spec_bytes().subrange(name_end + 1, lo + ce), 44);
                assert(words(pieces[i as int]).len() == 0);
                assert(!(forall|k: int| 0 <= k < pieces.len() ==> words(#[trigger] pieces[k]).len() > 0));
                let lay = table_layout(sql.spec_bytes())->Ok_0;
                assert(lay.1 == name_end);
                assert(lay.2 == lo + ce);
                assert(split_on(sql.spec_bytes().subrange(lay.1 + 1, lay.2), 44) == pieces);
            }
            return Err(ParsingError::InvalidStatement);
        }
        let ghost wv = ws@.map_values(|v: Vec<u8>| v@);
        let rowid = rowid_definition(&ws);
        assert(wv[0] == ws@[0]@);
        let first = ws.remove(0);
        let c = if rowid {
            TableColumn::RowId(first)
        } else {
            TableColumn::Column(i, first)
        };
        columns.push(c);
        i = i + 1;
    }
    Ok(Table { name, columns })
}

} // verus!
