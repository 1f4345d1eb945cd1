//! Byte-level text helpers for the statement and schema parsers, and the
//! keyword search.
use crate::index_parser::{ascii_lower, lower};
use vstd::prelude::*;
use vstd::string::StringSliceAdditionalSpecFns;

verus! {

/// Whether `c` is ASCII white space.
pub open spec fn is_ws(c: u8) -> bool {
    c == 32 || (9 <= c && c <= 13)
}

/// `s` without its leading white space.
pub open spec fn trim_start(s: Seq<u8>) -> Seq<u8>
    decreases s.len(),
{
    if s.len() > 0 && is_ws(s[0]) {
        trim_start(s.drop_first())
    } else {
        s
    }
}

/// The number of leading white-space bytes of `s`.
pub open spec fn lead_ws(s: Seq<u8>) -> nat
    decreases s.len(),
{
    if s.len() > 0 && is_ws(s[0]) {
        1 + lead_ws(s.drop_first())
    } else {
        0
    }
}

/// `s` without its trailing white space.
pub open spec fn trim_end(s: Seq<u8>) -> Seq<u8>
    decreases s.len(),
{
    if s.len() > 0 && is_ws(s.last()) {
        trim_end(s.drop_last())
    } else {
        s
    }
}

/// `s` without leading or trailing white space.
pub open spec fn trim(s: Seq<u8>) -> Seq<u8> {
    trim_end(trim_start(s))
}

/// The pieces of `s` between the occurrences of `sep`, in order.
pub open spec fn split_on(s: Seq<u8>, sep: u8) -> Seq<Seq<u8>>
    decreases s.len(),
{
    if s.len() == 0 {
        seq![seq![]]
    } else {
        let p = split_on(s.drop_last(), sep);
        if s.last() == sep {
            p.push(seq![])
        } else {
            p.update(p.len() - 1, p.last().push(s.last()))
        }
    }
}

/// The position of the first `c` in `s`.
pub open spec fn first_pos(s: Seq<u8>, c: u8) -> Option<int>
    decreases s.len(),
{
    if s.len() == 0 {
        None
    } else if s[0] == c {
        Some(0)
    } else {
        match first_pos(s.drop_first(), c) {
            Some(i) => Some(i + 1),
            None => None,
        }
    }
}

/// The position of the last `c` in `s`.
pub open spec fn last_pos(s: Seq<u8>, c: u8) -> Option<int>
    decreases s.len(),
{
    if s.len() == 0 {
        None
    } else if s.last() == c {
        Some(s.len() - 1)
    } else {
        last_pos(s.drop_last(), c)
    }
}

/// Whether `pat` occurs in `s` at `i`, ignoring ASCII case.
pub open spec fn matches_at(s: Seq<u8>, pat: Seq<u8>, i: int) -> bool {
    0 <= i && i + pat.len() <= s.len() && lower(s.subrange(i, i + pat.len())) == lower(pat)
}

/// The position of the first occurrence of `pat` in `s` at or after `from`, ignoring ASCII case.
pub open spec fn find_from(s: Seq<u8>, pat: Seq<u8>, from: int) -> Option<int>
    decreases s.len() + 1 - from,
{
    if from < 0 || from + pat.len() > s.len() {
        None
    } else if matches_at(s, pat, from) {
        Some(from)
    } else {
        find_from(s, pat, from + 1)
    }
}

/// The bounds of `s[begin..end]` without leading and trailing white space.
pub fn trim_bounds(s: &[u8], begin: usize, end: usize) -> (r: (usize, usize))
    requires
        begin <= end <= s@.len(),
    ensures
        begin <= r.0 <= r.1 <= end,
        s@.subrange(r.0 as int, r.1 as int) == trim(s@.subrange(begin as int, end as int)),
        r.0 == begin + lead_ws(s@.subrange(begin as int, end as int)),
{
    let mut lo = begin;
    while lo < end && (s[lo] == 32u8 || (9u8 <= s[lo] && s[lo] <= 13u8))
        invariant
            begin <= lo <= end <= s@.len(),
            trim_start(s@.subrange(begin as int, end as int)) == trim_start(s@.subrange(lo as int, end as int)),
            lead_ws(s@.subrange(begin as int, end as int)) == (lo - begin) + lead_ws(s@.subrange(lo as int, end as int)),
        decreases end - lo,
    {
        assert(s@.subrange(lo as int, end as int).drop_first() == s@.subrange(lo + 1, end as int));
        lo = lo + 1;
    }
    let mut hi = end;
    assert(trim_start(s@.subrange(lo as int, end as int)) == s@.subrange(lo as int, end as int));
    while hi > lo && (s[hi - 1] == 32u8 || (9u8 <= s[hi - 1] && s[hi - 1] <= 13u8))
        invariant
            begin <= lo <= hi <= end <= s@.len(),
            trim(s@.subrange(begin as int, end as int)) == trim_end(s@.subrange(lo as int, hi as int)),
        decreases hi - lo,
    {
        assert(s@.subrange(lo as int, hi as int).drop_last() == s@.subrange(lo as int, hi - 1));
        hi = hi - 1;
    }
    (lo, hi)
}

/// The bytes `s[begin..end]`, copied.
pub fn copy_range(s: &[u8], begin: usize, end: usize) -> (r: Vec<u8>)
    requires
        begin <= end <= s@.len(),
    ensures
        r@ == s@.subrange(begin as int, end as int),
{
    let mut out: Vec<u8> = Vec::new();
    let mut i = begin;
    while i < end
        invariant
            begin <= i <= end <= s@.len(),
            out@ == s@.subrange(begin as int, i as int),
        decreases end - i,
    {
        out.push(s[i]);
        i = i + 1;
    }
    out
}

/// `s[begin..end]` without leading and trailing white space, copied.
pub fn trimmed_copy(s: &[u8], begin: usize, end: usize) -> (r: Vec<u8>)
    requires
        begin <= end <= s@.len(),
    ensures
        r@ == trim(s@.subrange(begin as int, end as int)),
{
    let (lo, hi) = trim_bounds(s, begin, end);
    copy_range(s, lo, hi)
}

/// The pieces of `s[begin..end]` between the occurrences of `sep`.
pub fn split_bytes(s: &[u8], begin: usize, end: usize, sep: u8) -> (r: Vec<Vec<u8>>)
    requires
        begin <= end <= s@.len(),
    ensures
        r@.map_values(|v: Vec<u8>| v@) == split_on(s@.subrange(begin as int, end as int), sep),
{
    let mut pieces: Vec<Vec<u8>> = Vec::new();
    let mut cur: Vec<u8> = Vec::new();
    let mut i = begin;
    assert(s@.subrange(begin as int, begin as int) =~= seq![]);
    assert(pieces@.map_values(|v: Vec<u8>| v@).push(cur@) =~= seq![seq![]]);
    while i < end
        invariant
            begin <= i <= end <= s@.len(),
            split_on(s@.subrange(begin as int, i as int), sep) == pieces@.map_values(|v: Vec<u8>| v@).push(cur@),
        decreases end - i,
    {
        let ghost prev = pieces@.map_values(|v: Vec<u8>| v@);
        assert(s@.subrange(begin as int, i + 1).drop_last() == s@.subrange(begin as int, i as int));
        if s[i] == sep {
            let done = cur;
            pieces.push(done);
            cur = Vec::new();
            assert(pieces@.map_values(|v: Vec<u8>| v@) =~= prev.push(done@));
        } else {
            cur.push(s[i]);
            assert(prev.push(cur@) =~= prev.push(cur@.drop_last()).update(prev.len() as int, cur@));
        }
        i = i + 1;
    }
    let ghost prev = pieces@.map_values(|v: Vec<u8>| v@);
    let last = cur;
    pieces.push(last);
    assert(pieces@.map_values(|v: Vec<u8>| v@) =~= prev.push(last@));
    pieces
}

/// The position of the first `c` in `s[begin..end]`.
pub fn find_byte(s: &[u8], begin: usize, end: usize, c: u8) -> (r: Option<usize>)
    requires
        begin <= end <= s@.len(),
    ensures
        match first_pos(s@.subrange(begin as int, end as int), c) {
            Some(p) => 0 <= p < end - begin && r == Some(p as usize),
            None => r is None,
        },
        r is Some ==> begin + r->0 < end,
{
    let mut i = begin;
    while i < end
        invariant
            begin <= i <= end <= s@.len(),
            first_pos(s@.subrange(begin as int, end as int), c) == match first_pos(s@.subrange(i as int, end as int), c) {
                Some(p) => Some(p + (i - begin)),
                None => None::<int>,
            },
        decreases end - i,
    {
        if s[i] == c {
            return Some(i - begin);
        }
        assert(s@.subrange(i as int, end as int).drop_first() == s@.subrange(i + 1, end as int));
        i = i + 1;
    }
    None
}

/// The position of the last `c` in `s[begin..end]`.
pub fn rfind_byte(s: &[u8], begin: usize, end: usize, c: u8) -> (r: Option<usize>)
    requires
        begin <= end <= s@.len(),
    ensures
        match last_pos(s@.subrange(begin as int, end as int), c) {
            Some(p) => 0 <= p < end - begin && r == Some(p as usize),
            None => r is None,
        },
        r is Some ==> begin + r->0 < end,
{
    let mut i = end;
    while i > begin
        invariant
            begin <= i <= end <= s@.len(),
            last_pos(s@.subrange(begin as int, end as int), c) == last_pos(s@.subrange(begin as int, i as int), c),
        decreases i - begin,
    {
        if s[i - 1] == c {
            return Some(i - 1 - begin);
        }
        assert(s@.subrange(begin as int, i as int).drop_last() == s@.subrange(begin as int, i - 1));
        i = i - 1;
    }
    None
}

/// Whether `pat` occurs in `s` at `i`, ignoring ASCII case.
fn matches_here(s: &[u8], pat: &[u8], i: usize) -> (r: bool)
    requires
        i + pat@.len() <= s@.len(),
    ensures
        r == matches_at(s@, pat@, i as int),
{
    let mut k: usize = 0;
    while k < pat.len()
        invariant
            k <= pat@.len(),
            i + pat@.len() <= s@.len(),
            forall|j: int| 0 <= j < k ==> ascii_lower(#[trigger] s@[i + j]) == ascii_lower(pat@[j]),
        decreases pat@.len() - k,
    {
        assert(i + k < s@.len());
        let n = s.len();
        assert(i + k < n);
        let a = s[i + k];
        let b = pat[k];
        let la = if 65u8 <= a && a <= 90u8 { a + 32 } else { a };
        let lb = if 65u8 <= b && b <= 90u8 { b + 32 } else { b };
        if la != lb {
            assert(lower(s@.subrange(i as int, i + pat@.len()))[k as int] != lower(pat@)[k as int]);
            return false;
        }
        k = k + 1;
    }
    assert forall|j: int| 0 <= j < pat@.len() implies #[trigger] lower(s@.subrange(i as int, i + pat@.len()))[j]
        == lower(pat@)[j] by {
        assert(s@.subrange(i as int, i + pat@.len())[j] == s@[i + j]);
    }
    assert(lower(s@.subrange(i as int, i + pat@.len())) =~= lower(pat@));
    true
}

/// The position of the first occurrence of `pat` in `s` at or after `from`, ignoring ASCII case.
pub fn find_ignore_case(s: &[u8], pat: &[u8], from: usize) -> (r: Option<usize>)
    ensures
        match find_from(s@, pat@, from as int) {
            Some(p) => r is Some && r->0 == p,
            None => r is None,
        },
        r is Some ==> from <= r->0 && r->0 + pat@.len() <= s@.len(),
{
    if pat.len() > s.len() {
        return None;
    }
    let last = s.len() - pat.len();
    let mut i = from;
    while i <= last
        invariant
            from <= i,
            last == s@.len() - pat@.len(),
            find_from(s@, pat@, from as int) == find_from(s@, pat@, i as int),
        decreases last + 1 - i,
    {
        if matches_here(s, pat, i) {
            return Some(i);
        }
        if i == last {
            assert(find_from(s@, pat@, i + 1) is None);
            return None;
        }
        i = i + 1;
    }
    None
}

/// The position of the first whole-word occurrence of `kw` in the text with bytes `sql`,
/// ignoring case, as the pattern `(?i)\b<kw>\b` finds it.
pub uninterp spec fn keyword_position(sql: Seq<u8>, kw: Seq<char>) -> Option<usize>;

/// Relies on `regex::escape`, `regex::Regex::new` and `regex::Regex::find`:
/// the byte offset of the first case-insensitive whole-word match of the
/// keyword, which falls on a character boundary of `sql` and so within it.
#[verifier::external_body]
pub fn find_keyword(sql: &str, keyword: &str) -> (r: Option<usize>)
    ensures
        r == keyword_position(sql.spec_bytes(), keyword@),
        r is Some ==> r->0 <= sql.spec_bytes().len(),
{
    let re = regex::Regex::new(&format!(r"(?i)\b{}\b", regex::escape(keyword))).ok()?;
    re.find(sql).map(|m| m.start())
}


/// The non-empty trimmed pieces among `pieces`, in order.
pub open spec fn words_of(pieces: Seq<Seq<u8>>) -> Seq<Seq<u8>>
    decreases pieces.len(),
{
    if pieces.len() == 0 {
        seq![]
    } else {
        let w = words_of(pieces.drop_last());
        let t = trim(pieces.last());
        if t.len() > 0 {
            w.push(t)
        } else {
            w
        }
    }
}

/// The space-separated words of `s`, once trimmed.
pub open spec fn words(s: Seq<u8>) -> Seq<Seq<u8>> {
    words_of(split_on(trim(s), 32))
}

/// The space-separated words of `s[begin..end]`.
pub fn words_in(s: &[u8], begin: usize, end: usize) -> (r: Vec<Vec<u8>>)
    requires
        begin <= end <= s@.len(),
    ensures
        r@.map_values(|v: Vec<u8>| v@) == words(s@.subrange(begin as int, end as int)),
{
    let (lo, hi) = trim_bounds(s, begin, end);
    let pieces = split_bytes(s, lo, hi, 32u8);
    let ghost ps = pieces@.map_values(|v: Vec<u8>| v@);
    let mut out: Vec<Vec<u8>> = Vec::new();
    let mut i: usize = 0;
    assert(out@.map_values(|v: Vec<u8>| v@) =~= seq![]);
    while i < pieces.len()
        invariant
            i <= pieces@.len(),
            ps == pieces@.map_values(|v: Vec<u8>| v@),
            out@.map_values(|v: Vec<u8>| v@) == words_of(ps.subrange(0, i as int)),
        decreases pieces@.len() - i,
    {
        let ghost prev = out@.map_values(|v: Vec<u8>| v@);
        assert(ps.subrange(0, i + 1).drop_last() == ps.subrange(0, i as int));
        assert(ps[i as int] == pieces@[i as int]@);
        let p = pieces[i].as_slice();
        let w = trimmed_copy(p, 0, p.len());
        assert(p@.subrange(0, p@.len() as int) == p@);
        if w.len() > 0 {
            out.push(w);
            assert(out@.map_values(|v: Vec<u8>| v@) =~= prev.push(out@.last()@));
        }
        i = i + 1;
    }
    assert(ps.subrange(0, i as int) == ps);
    out
}


/// Whether `c` can be part of a word: an ASCII letter or digit, or `_`.
pub open spec fn is_word_byte(c: u8) -> bool {
    (48 <= c && c <= 57) || (65 <= c && c <= 90) || (97 <= c && c <= 122) || c == 95
}

/// Whether `pat` occurs in `s` at `i` as a whole word, ignoring ASCII case.
pub open spec fn word_at(s: Seq<u8>, pat: Seq<u8>, i: int) -> bool {
    &&& matches_at(s, pat, i)
    &&& (i == 0 || !is_word_byte(s[i - 1]))
    &&& (i + pat.len() == s.len() || !is_word_byte(s[i + pat.len()]))
}

/// The position of the first whole-word occurrence of `pat` in `s` at or
/// after `from`, ignoring ASCII case.
pub open spec fn find_word_from(s: Seq<u8>, pat: Seq<u8>, from: int) -> Option<int>
    decreases s.len() + 1 - from,
{
    if from < 0 || from + pat.len() > s.len() {
        None
    } else if word_at(s, pat, from) {
        Some(from)
    } else {
        find_word_from(s, pat, from + 1)
    }
}

/// Whether `c` can be part of a word.
fn word_byte(c: u8) -> (r: bool)
    ensures
        r == is_word_byte(c),
{
    (48u8 <= c && c <= 57u8) || (65u8 <= c && c <= 90u8) || (97u8 <= c && c <= 122u8) || c == 95u8
}

/// The position of the first whole-word occurrence of `pat` in `s` at or
/// after `from`, ignoring ASCII case.
pub fn find_word(s: &[u8], pat: &[u8], from: usize) -> (r: Option<usize>)
    ensures
        match find_word_from(s@, pat@, from as int) {
            Some(p) => r is Some && r->0 == p,
            None => r is None,
        },
        r is Some ==> from <= r->0 && r->0 + pat@.len() <= s@.len(),
{
    if pat.len() > s.len() {
        return None;
    }
    let last = s.len() - pat.len();
    let mut i = from;
    while i <= last
        invariant
            from <= i,
            last == s@.len() - pat@.len(),
            find_word_from(s@, pat@, from as int) == find_word_from(s@, pat@, i as int),
        decreases last + 1 - i,
    {
        let before_ok = i == 0 || !word_byte(s[i - 1]);
        let after_ok = i == last || !word_byte(s[i + pat.len()]);
        if before_ok && after_ok && matches_here(s, pat, i) {
            return Some(i);
        }
        if i == last {
            assert(find_word_from(s@, pat@, i + 1) is None);
            return None;
        }
        i = i + 1;
    }
    None
}

} // verus!
