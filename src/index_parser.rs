//! Index descriptors, read from `CREATE INDEX` statements.
use crate::parsing_error::ParsingError;
use crate::parsing_utils::{
    find_byte, find_keyword, first_pos, keyword_position, last_pos, lead_ws, rfind_byte, split_bytes,
    split_on, trim, trim_bounds, trimmed_copy,
};
use crate::table_parser::same_bytes;
use vstd::prelude::*;
use vstd::string::StringSliceAdditionalSpecFns;

verus! {

/// An index: its name, its table, its columns in order and its root page.
#[derive(Debug)]
pub struct IndexData {
    pub index_name: Vec<u8>,
    pub table_name: Vec<u8>,
    pub columns: Vec<Vec<u8>>,
    pub root_page: u64,
}

/// `c` in lower case, for an ASCII letter.
pub open spec fn ascii_lower(c: u8) -> u8 {
    if 65 <= c <= 90 {
        (c + 32) as u8
    } else {
        c
    }
}

/// `s` with its ASCII letters in lower case.
pub open spec fn lower(s: Seq<u8>) -> Seq<u8> {
    s.map_values(|c: u8| ascii_lower(c))
}

/// `s` with its ASCII letters in lower case.
pub fn to_ascii_lower(s: &[u8]) -> (r: Vec<u8>)
    ensures
        r@ == lower(s@),
{
    let mut out: Vec<u8> = Vec::new();
    let mut i: usize = 0;
    while i < s.len()
        invariant
            i <= s@.len(),
            out@ == lower(s@.subrange(0, i as int)),
        decreases s@.len() - i,
    {
        let c = s[i];
        out.push(if 65u8 <= c && c <= 90u8 { c + 32 } else { c });
        i = i + 1;
        assert(out@ =~= lower(s@.subrange(0, i as int)));
    }
    assert(s@.subrange(0, i as int) == s@);
    out
}

/// Whether one of `names` is `s`.
pub open spec fn names_contain(names: Seq<Vec<u8>>, s: Seq<u8>) -> bool {
    exists|j: int| 0 <= j < names.len() && (#[trigger] names[j])@ == s
}

/// Whether the index's first column, in lower case, is among `names`.
pub open spec fn leads_with_one_of(index: IndexData, names: Seq<Vec<u8>>) -> bool {
    index.columns@.len() > 0 && names_contain(names, lower(index.columns@[0]@))
}

/// Whether one of `names` is `s`.
fn contains_name(names: &Vec<Vec<u8>>, s: &[u8]) -> (r: bool)
    ensures
        r == names_contain(names@, s@),
{
    let mut j: usize = 0;
    while j < names.len()
        invariant
            j <= names@.len(),
            forall|k: int| 0 <= k < j ==> (#[trigger] names@[k])@ != s@,
        decreases names@.len() - j,
    {
        if same_bytes(names[j].as_slice(), s) {
            return true;
        }
        j = j + 1;
    }
    false
}

/// The first index whose first column, in lower case, is one of `columns`.
pub fn get_table_index_for_column_in(index: Vec<IndexData>, columns: Vec<Vec<u8>>) -> (r: Option<IndexData>)
    ensures
        match r {
            Some(d) => exists|i: int|
                #![trigger index@[i]]
                0 <= i < index@.len() && index@[i] == d && leads_with_one_of(d, columns@) && forall|j: int|
                    0 <= j < i ==> !leads_with_one_of(#[trigger] index@[j], columns@),
            None => forall|j: int| 0 <= j < index@.len() ==> !leads_with_one_of(#[trigger] index@[j], columns@),
        },
{
    let mut pool = index;
    let ghost all = pool@;
    assert(all == index@);
    let mut i: usize = 0;
    while i < pool.len()
        invariant
            pool@ == all,
            all == index@,
            i <= all.len(),
            forall|j: int| 0 <= j < i ==> !leads_with_one_of(#[trigger] all[j], columns@),
        decreases all.len() - i,
    {
        let hit = if pool[i].columns.len() > 0 {
            let first = to_ascii_lower(pool[i].columns[0].as_slice());
            contains_name(&columns, first.as_slice())
        } else {
            false
        };
        assert(hit == leads_with_one_of(all[i as int], columns@));
        if hit {
            let d = pool.remove(i);
            assert(all[i as int] == d);
            let ghost k = i as int;
            assert(0 <= k < all.len() && all[k] == d && leads_with_one_of(d, columns@) && forall|j: int|
                0 <= j < k ==> !leads_with_one_of(#[trigger] all[j], columns@));
            return Some(d);
        }
        i = i + 1;
    }
    None
}


/// Where the parts of a `CREATE INDEX` statement lie in its bytes: (index
/// name begin, index name end, table name begin, opening parenthesis,
/// closing parenthesis). The keywords `CREATE`, `INDEX` and `ON` and the
/// parentheses must come in this order, with room for each keyword.
pub open spec fn index_layout(b: Seq<u8>) -> Result<(int, int, int, int, int), ParsingError> {
    let lo = lead_ws(b) as int;
    let t = trim(b);
    match (
        keyword_position(b, seq!['C', 'R', 'E', 'A', 'T', 'E']),
        keyword_position(b, seq!['I', 'N', 'D', 'E', 'X']),
        keyword_position(b, seq!['O', 'N']),
        first_pos(t, 40),
        last_pos(t, 41),
    ) {
        (Some(c), Some(i), Some(o), Some(ne), Some(ce)) => if c >= i || i >= o || o >= lo + ne || ne >= ce
            || i + 5 > o || o + 2 > lo + ne {
            Err(ParsingError::InvalidStatement)
        } else {
            Ok((i + 5, o as int, o + 2, lo + ne, lo + ce))
        },
        _ => Err(ParsingError::InvalidStatement),
    }
}

/// Whether `d` is the index with root page `root` that the `CREATE INDEX`
/// statement with bytes `b` defines.
pub open spec fn index_from(d: IndexData, root: u64, b: Seq<u8>) -> bool {
    match index_layout(b) {
        Err(_) => false,
        Ok((nb, nend, tb, ne, ce)) => {
            &&& d.index_name@ == trim(b.subrange(nb, nend))
            &&& d.table_name@ == trim(b.subrange(tb, ne))
            &&& d.columns@.map_values(|v: Vec<u8>| v@) == split_on(b.subrange(ne + 1, ce), 44).map_values(
                |p: Seq<u8>| trim(p),
            )
            &&& d.root_page == root
        },
    }
}

/// Reads the index name, table name and columns of a `CREATE INDEX`
/// statement (see `index_layout`): the names between the keywords, trimmed,
/// and the comma-separated columns in the parentheses, each trimmed.
pub fn parse_index(root_page: u64, sql: &str) -> (r: Result<IndexData, ParsingError>)
    ensures
        match index_layout(sql.spec_bytes()) {
            Err(e) => r == Err::<IndexData, ParsingError>(e),
            Ok((nb, nend, tb, ne, ce)) => {
                let b = sql.spec_bytes();
                &&& r is Ok
                &&& r->Ok_0.index_name@ == trim(b.subrange(nb, nend))
                &&& r->Ok_0.table_name@ == trim(b.subrange(tb, ne))
                &&& r->Ok_0.columns@.map_values(|v: Vec<u8>| v@) == split_on(b.subrange(ne + 1, ce), 44).map_values(
                    |p: Seq<u8>| trim(p),
                )
                &&& r->Ok_0.root_page == root_page
            },
        },
        r is Ok <==> index_layout(sql.spec_bytes()) is Ok,
        r is Ok ==> index_from(r->Ok_0, root_page, sql.spec_bytes()),
        r is Err ==> r == Err::<IndexData, ParsingError>(ParsingError::InvalidStatement),
{
    proof {
        reveal_strlit("CREATE");
        reveal_strlit("INDEX");
        reveal_strlit("ON");
    }
    let b = sql.as_bytes();
    let n = b.len();
    let (lo, hi) = trim_bounds(b, 0, n);
    assert(b@.subrange(0, n as int) == b@);
    assert(b@.subrange(lo as int, hi as int) == trim(sql.spec_bytes()));
    let kw_create = "CREATE";
    let kw_index = "INDEX";
    let kw_on = "ON";
    assert(kw_create@ == seq!['C', 'R', 'E', 'A', 'T', 'E']);
    assert(kw_index@ == seq!['I', 'N', 'D', 'E', 'X']);
    assert(kw_on@ == seq!['O', 'N']);
    let create = find_keyword(sql, kw_create);
    let index = find_keyword(sql, kw_index);
    let on = find_keyword(sql, kw_on);
    let ne = find_byte(b, lo, hi, 40u8);
    let ce = rfind_byte(b, lo, hi, 41u8);
    let (create, index, on, ne, ce) = match (create, index, on, ne, ce) {
        (Some(c), Some(i), Some(o), Some(ne), Some(ce)) => (c, i, o, ne, ce),
        _ => {
            assert(index_layout(sql.spec_bytes()) is Err);
            return Err(ParsingError::InvalidStatement);
        },
    };
    let name_end = lo + ne;
    if create >= index || index >= on || on >= name_end || ne >= ce || on - index < 5 || name_end - on < 2 {
        assert(index_layout(sql.spec_bytes()) is Err);
        return Err(ParsingError::InvalidStatement);
    }
    let index_name = trimmed_copy(b, index + 5, on);
    let table_name = trimmed_copy(b, on + 2, name_end);
    let pieces = split_bytes(b, name_end + 1, lo + ce, 44u8);
    let ghost ps = pieces@.map_values(|v: Vec<u8>| v@);
    let mut columns: Vec<Vec<u8>> = Vec::new();
    let mut i: usize = 0;
    while i < pieces.len()
        invariant
            i <= pieces@.len(),
            ps == pieces@.map_values(|v: Vec<u8>| v@),
            columns@.map_values(|v: Vec<u8>| v@) == ps.subrange(0, i as int).map_values(|p: Seq<u8>| trim(p)),
        decreases pieces@.len() - i,
    {
        let p = pieces[i].as_slice();
        assert(ps[i as int] == p@);
        assert(p@.subrange(0, p@.len() as int) == p@);
        let c = trimmed_copy(p, 0, p.len());
        let ghost prev = columns@.map_values(|v: Vec<u8>| v@);
        columns.push(c);
        assert(columns@.map_values(|v: Vec<u8>| v@) =~= prev.push(trim(ps[i as int])));
        assert(ps.subrange(0, i + 1).map_values(|p: Seq<u8>| trim(p)) =~= ps.subrange(0, i as int).map_values(
            |p: Seq<u8>| trim(p),
        ).push(trim(ps[i as int])));
        i = i + 1;
    }
    assert(ps.subrange(0, i as int) == ps);
    let lay = (index + 5, on, on + 2, name_end, lo + ce);
    assert(index_layout(sql.spec_bytes()) == Ok::<(int, int, int, int, int), ParsingError>(
        (lay.0 as int, lay.1 as int, lay.2 as int, lay.3 as int, lay.4 as int),
    ));
    Ok(IndexData { index_name, table_name, columns, root_page })
}

} // verus!
