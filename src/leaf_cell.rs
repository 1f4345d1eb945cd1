//! Record decoding: serial types, column values and lazily decoded cells.
use crate::parsing_error::ParsingError;
use crate::text::{decimal, int_to_decimal};
use vstd::prelude::*;

verus! {

/// The type tag of one column of a record.
#[derive(Clone, Copy, Debug, PartialEq, Eq, Structural)]
pub enum SerialType {
    Null,
    I8,
    I16,
    I24,
    I32,
    I48,
    I64,
    Double,
    False,
    True,
    Unused,
    Blob(usize),
    String(usize),
}

/// The serial type that the tag `v` names; the reserved tags 10 and 11, a
/// negative tag and a size beyond `usize` are `InvalidVarint`.
pub open spec fn serial_type_of(v: int) -> Result<SerialType, ParsingError> {
    if v == 0 {
        Ok(SerialType::Null)
    } else if v == 1 {
        Ok(SerialType::I8)
    } else if v == 2 {
        Ok(SerialType::I16)
    } else if v == 3 {
        Ok(SerialType::I24)
    } else if v == 4 {
        Ok(SerialType::I32)
    } else if v == 5 {
        Ok(SerialType::I48)
    } else if v == 6 {
        Ok(SerialType::I64)
    } else if v == 7 {
        Ok(SerialType::Double)
    } else if v == 8 {
        Ok(SerialType::False)
    } else if v == 9 {
        Ok(SerialType::True)
    } else if v >= 12 && (v - 12) / 2 <= usize::MAX && v % 2 == 0 {
        Ok(SerialType::Blob(((v - 12) / 2) as usize))
    } else if v >= 13 && (v - 13) / 2 <= usize::MAX && v % 2 == 1 {
        Ok(SerialType::String(((v - 13) / 2) as usize))
    } else {
        Err(ParsingError::InvalidVarint)
    }
}

/// `256` raised to the power `n`.
pub open spec fn pow256(n: nat) -> int
    decreases n,
{
    if n == 0 {
        1
    } else {
        256 * pow256((n - 1) as nat)
    }
}

/// The unsigned big-endian value of the first `w` bytes of `b`.
pub open spec fn be_uint(b: Seq<u8>, w: nat) -> int
    decreases w,
{
    if w == 0 {
        0
    } else {
        be_uint(b, (w - 1) as nat) * 256 + b[w - 1] as int
    }
}

/// The two's-complement big-endian value of the first `w` bytes of `b`.
pub open spec fn be_int(b: Seq<u8>, w: nat) -> int {
    let u = be_uint(b, w);
    if 2 * u >= pow256(w) {
        u - pow256(w)
    } else {
        u
    }
}

/// The ASCII text of a few fixed words.
pub open spec fn null_text() -> Seq<u8> {
    seq![78u8, 85, 76, 76]
}

pub open spec fn true_text() -> Seq<u8> {
    seq![116u8, 114, 117, 101]
}

pub open spec fn false_text() -> Seq<u8> {
    seq![102u8, 97, 108, 115, 101]
}

impl SerialType {
    /// The number of bytes that a value of this type takes in a record body.
    pub open spec fn spec_size(self) -> nat {
        match self {
            SerialType::Null => 0,
            SerialType::I8 => 1,
            SerialType::I16 => 2,
            SerialType::I24 => 3,
            SerialType::I32 => 4,
            SerialType::I48 => 6,
            SerialType::I64 => 8,
            SerialType::Double => 8,
            SerialType::False => 0,
            SerialType::True => 0,
            SerialType::Unused => 0,
            SerialType::Blob(n) => n as nat,
            SerialType::String(n) => n as nat,
        }
    }

    /// Whether this is one of the signed integer types.
    pub open spec fn is_int(self) -> bool {
        self is I8 || self is I16 || self is I24 || self is I32 || self is I48 || self is I64
    }

    /// The display form of a value of this type whose bytes start `b`: NULL,
    /// integers in base 10, `true`/`false` for the constants, the raw bytes of
    /// text and blobs. Too few bytes is `SliceConversionError`; a float is
    /// `UnsupportedValue`; the reserved type is `InvalidVarint`.
    pub open spec fn display_spec(self, b: Seq<u8>) -> Result<Seq<u8>, ParsingError> {
        if b.len() < self.spec_size() {
            Err(ParsingError::SliceConversionError)
        } else {
            match self {
                SerialType::Null => Ok(null_text()),
                SerialType::Double => Err(ParsingError::UnsupportedValue),
                SerialType::False => Ok(false_text()),
                SerialType::True => Ok(true_text()),
                SerialType::Unused => Err(ParsingError::InvalidVarint),
                SerialType::Blob(n) => Ok(b.subrange(0, n as int)),
                SerialType::String(n) => Ok(b.subrange(0, n as int)),
                _ => Ok(decimal(be_int(b, self.spec_size()))),
            }
        }
    }

    /// The compare form: the display form, with text wrapped in double quotes.
    pub open spec fn compare_spec(self, b: Seq<u8>) -> Result<Seq<u8>, ParsingError> {
        match self {
            SerialType::String(n) => if b.len() < n {
                Err(ParsingError::SliceConversionError)
            } else {
                Ok(seq![34u8] + b.subrange(0, n as int) + seq![34u8])
            },
            _ => self.display_spec(b),
        }
    }

    /// The serial type of the tag `value`.
    pub fn from_varint(value: i128) -> (r: Result<SerialType, ParsingError>)
        ensures
            r == serial_type_of(value as int),
    {
        if value == 0 {
            Ok(SerialType::Null)
        } else if value == 1 {
            Ok(SerialType::I8)
        } else if value == 2 {
            Ok(SerialType::I16)
        } else if value == 3 {
            Ok(SerialType::I24)
        } else if value == 4 {
            Ok(SerialType::I32)
        } else if value == 5 {
            Ok(SerialType::I48)
        } else if value == 6 {
            Ok(SerialType::I64)
        } else if value == 7 {
            Ok(SerialType::Double)
        } else if value == 8 {
            Ok(SerialType::False)
        } else if value == 9 {
            Ok(SerialType::True)
        } else if value >= 12 && (value - 12) / 2 <= usize::MAX as i128 && value % 2 == 0 {
            Ok(SerialType::Blob(((value - 12) / 2) as usize))
        } else if value >= 13 && (value - 13) / 2 <= usize::MAX as i128 && value % 2 == 1 {
            Ok(SerialType::String(((value - 13) / 2) as usize))
        } else {
            Err(ParsingError::InvalidVarint)
        }
    }

    /// The number of bytes that a value of this type takes.
    pub fn size(&self) -> (r: usize)
        ensures
            r == self.spec_size(),
    {
        match self {
            SerialType::Null => 0,
            SerialType::I8 => 1,
            SerialType::I16 => 2,
            SerialType::I24 => 3,
            SerialType::I32 => 4,
            SerialType::I48 => 6,
            SerialType::I64 => 8,
            SerialType::Double => 8,
            SerialType::False => 0,
            SerialType::True => 0,
            SerialType::Unused => 0,
            SerialType::Blob(size) => *size,
            SerialType::String(size) => *size,
        }
    }

    /// The display form of the value whose bytes start `bytes`.
    pub fn parse_value(&self, bytes: &[u8]) -> (r: Result<Vec<u8>, ParsingError>)
        ensures
            match self.display_spec(bytes@) {
                Ok(s) => r is Ok && r->Ok_0@ == s,
                Err(e) => r == Err::<Vec<u8>, ParsingError>(e),
            },
    {
        let size = self.size();
        if bytes.len() < size {
            return Err(ParsingError::SliceConversionError);
        }
        match self {
            SerialType::Null => Ok(vec![78u8, 85, 76, 76]),
            SerialType::Double => Err(ParsingError::UnsupportedValue),
            SerialType::False => Ok(vec![102u8, 97, 108, 115, 101]),
            SerialType::True => Ok(vec![116u8, 114, 117, 101]),
            SerialType::Unused => Err(ParsingError::InvalidVarint),
            SerialType::Blob(n) => Ok(copy_bytes(bytes, *n)),
            SerialType::String(n) => Ok(copy_bytes(bytes, *n)),
            _ => Ok(int_to_decimal(read_be_int(bytes, size))),
        }
    }

    /// The compare form of the value whose bytes start `bytes`.
    pub fn parse_value_cmp(&self, bytes: &[u8]) -> (r: Result<Vec<u8>, ParsingError>)
        ensures
            match self.compare_spec(bytes@) {
                Ok(s) => r is Ok && r->Ok_0@ == s,
                Err(e) => r == Err::<Vec<u8>, ParsingError>(e),
            },
    {
        match self {
            SerialType::String(n) => {
                if bytes.len() < *n {
                    return Err(ParsingError::SliceConversionError);
                }
                let mut out: Vec<u8> = vec![34u8];
                let mut i: usize = 0;
                while i < *n
                    invariant
                        i <= *n <= bytes@.len(),
                        out@ == seq![34u8] + bytes@.subrange(0, i as int),
                    decreases *n - i,
                {
                    out.push(bytes[i]);
                    i = i + 1;
                    assert(out@ == seq![34u8] + bytes@.subrange(0, i as int));
                }
                out.push(34u8);
                Ok(out)
            },
            _ => self.parse_value(bytes),
        }
    }
}

/// The first `n` bytes of `bytes`, copied.
fn copy_bytes(bytes: &[u8], n: usize) -> (r: Vec<u8>)
    requires
        n <= bytes@.len(),
    ensures
        r@ == bytes@.subrange(0, n as int),
{
    let mut out: Vec<u8> = Vec::new();
    let mut i: usize = 0;
    while i < n
        invariant
            i <= n <= bytes@.len(),
            out@ == bytes@.subrange(0, i as int),
        decreases n - i,
    {
        out.push(bytes[i]);
        i = i + 1;
    }
    out
}

proof fn lemma_pow256_bound(i: nat)
    requires
        i <= 8,
    ensures
        1 <= pow256(i) <= pow256(8),
        pow256(8) == 0x1_0000_0000_0000_0000,
    decreases 8 - i,
{
    reveal_with_fuel(pow256, 9);
    if i < 8 {
        lemma_pow256_bound(i + 1);
    }
}

/// The two's-complement big-endian integer in the first `w` bytes.
fn read_be_int(bytes: &[u8], w: usize) -> (r: i128)
    requires
        1 <= w <= 8,
        w <= bytes@.len(),
    ensures
        r == be_int(bytes@, w as nat),
{
    let mut acc: u128 = 0;
    let mut pow: u128 = 1;
    let mut i: usize = 0;
    while i < w
        invariant
            i <= w <= 8,
            w <= bytes@.len(),
            acc == be_uint(bytes@, i as nat),
            pow == pow256(i as nat),
            0 <= acc < pow,
        decreases w - i,
    {
        proof {
            lemma_pow256_bound(i as nat);
            lemma_pow256_bound((i + 1) as nat);
        }
        acc = acc * 256 + bytes[i] as u128;
        pow = pow * 256;
        i = i + 1;
    }
    proof {
        lemma_pow256_bound(w as nat);
    }
    if 2 * acc >= pow {
        acc as i128 - pow as i128
    } else {
        acc as i128
    }
}

} // verus!

verus! {

/// The total size of the first `n` column values of a record with types `ts`.
pub open spec fn types_size(ts: Seq<SerialType>, n: nat) -> nat
    decreases n,
{
    if n == 0 || n > ts.len() {
        0
    } else {
        types_size(ts, (n - 1) as nat) + ts[n - 1].spec_size()
    }
}

proof fn lemma_types_size_mono(ts: Seq<SerialType>, i: nat, n: nat)
    requires
        i <= n <= ts.len(),
    ensures
        types_size(ts, i) <= types_size(ts, n),
    decreases n - i,
{
    if i < n {
        lemma_types_size_mono(ts, i, (n - 1) as nat);
    }
}

/// What a decoded leaf cell stands for.
pub struct CellModel {
    pub record_size: int,
    pub rowid: i128,
    pub records_begin: int,
    pub types: Seq<SerialType>,
}

impl CellModel {
    /// The file offset at which the value of column `col` begins.
    pub open spec fn column_offset(self, col: nat) -> int {
        self.records_begin + types_size(self.types, col)
    }

    /// Column `col` of the cell read through `project` (display or compare form)
    /// in the file image `data`. A column past the record, or a value past the
    /// image, is `SliceConversionError`.
    pub open spec fn column_with(self, data: Seq<u8>, col: int, compare: bool) -> Result<
        Seq<u8>,
        ParsingError,
    > {
        if col < 0 || col >= self.types.len() || self.column_offset(col as nat) > data.len() {
            Err(ParsingError::SliceConversionError)
        } else {
            let rest = data.subrange(self.column_offset(col as nat), data.len() as int);
            if compare {
                self.types[col].compare_spec(rest)
            } else {
                self.types[col].display_spec(rest)
            }
        }
    }

    /// The display form of column `col`.
    pub open spec fn column(self, data: Seq<u8>, col: int) -> Result<Seq<u8>, ParsingError> {
        self.column_with(data, col, false)
    }

    /// The compare form of column `col`.
    pub open spec fn column_cmp(self, data: Seq<u8>, col: int) -> Result<Seq<u8>, ParsingError> {
        self.column_with(data, col, true)
    }
}

/// A leaf cell whose record header has been decoded; its column values are
/// decoded from the file image on demand.
#[derive(Debug)]
pub struct LazyLeafCell {
    pub record_size: i128,
    pub rowid: i128,
    /// File offset of the first value byte of the record body.
    pub records_begin: usize,
    pub record_types: Vec<SerialType>,
}

impl View for LazyLeafCell {
    type V = CellModel;

    open spec fn view(&self) -> CellModel {
        CellModel {
            record_size: self.record_size as int,
            rowid: self.rowid,
            records_begin: self.records_begin as int,
            types: self.record_types@,
        }
    }
}

impl LazyLeafCell {
    /// A copy of the cell.
    pub fn duplicate(&self) -> (r: Self)
        ensures
            r@ == self@,
    {
        let mut types: Vec<SerialType> = Vec::new();
        let mut i: usize = 0;
        while i < self.record_types.len()
            invariant
                i <= self.record_types@.len(),
                types@ == self.record_types@.subrange(0, i as int),
            decreases self.record_types@.len() - i,
        {
            types.push(self.record_types[i]);
            i = i + 1;
        }
        assert(types@ == self.record_types@);
        LazyLeafCell {
            record_size: self.record_size,
            rowid: self.rowid,
            records_begin: self.records_begin,
            record_types: types,
        }
    }

    /// The file offset at which column `column` begins.
    pub fn get_column_offset(&self, column: usize) -> (r: usize)
        requires
            column <= self.record_types@.len(),
            self@.column_offset(column as nat) <= usize::MAX,
        ensures
            r == self@.column_offset(column as nat),
    {
        let mut acc: usize = self.records_begin;
        let mut i: usize = 0;
        while i < column
            invariant
                i <= column <= self.record_types@.len(),
                self@.column_offset(column as nat) <= usize::MAX,
                acc == self@.column_offset(i as nat),
            decreases column - i,
        {
            proof {
                lemma_types_size_mono(self.record_types@, (i + 1) as nat, column as nat);
            }
            acc = acc + self.record_types[i].size();
            i = i + 1;
        }
        acc
    }

    /// The number of bytes of column `column`.
    pub fn get_column_size(&self, column: usize) -> (r: usize)
        requires
            column < self.record_types@.len(),
        ensures
            r == self.record_types@[column as int].spec_size(),
    {
        self.record_types[column].size()
    }

    /// The serial type of column `column`.
    pub fn get_column_type(&self, column: usize) -> (r: SerialType)
        requires
            column < self.record_types@.len(),
        ensures
            r == self.record_types@[column as int],
    {
        self.record_types[column]
    }

    /// Where column `column` begins, or the error when it is past the record or the image.
    fn locate_column(&self, page_bytes: &[u8], column: usize) -> (r: Result<usize, ParsingError>)
        ensures
            match r {
                Ok(off) => column < self.record_types@.len() && off == self@.column_offset(
                    column as nat,
                ) && off <= page_bytes@.len(),
                Err(e) => e == ParsingError::SliceConversionError && (column >= self.record_types@.len()
                    || self@.column_offset(column as nat) > page_bytes@.len()),
            },
    {
        if column >= self.record_types.len() {
            return Err(ParsingError::SliceConversionError);
        }
        let n = page_bytes.len();
        if self.records_begin > n {
            proof {
                lemma_types_size_mono(self.record_types@, 0, column as nat);
            }
            return Err(ParsingError::SliceConversionError);
        }
        let mut acc: usize = self.records_begin;
        let mut i: usize = 0;
        while i < column
            invariant
                i <= column < self.record_types@.len(),
                n == page_bytes@.len(),
                acc == self@.column_offset(i as nat),
                acc <= n,
            decreases column - i,
        {
            let sz = self.record_types[i].size();
            if sz > n - acc {
                proof {
                    lemma_types_size_mono(self.record_types@, (i + 1) as nat, column as nat);
                }
                return Err(ParsingError::SliceConversionError);
            }
            acc = acc + sz;
            i = i + 1;
        }
        Ok(acc)
    }

    /// The display form of column `column`, read from the file image `page_bytes`.
    pub fn get_column(&self, page_bytes: &[u8], column: usize) -> (r: Result<Vec<u8>, ParsingError>)
        ensures
            match self@.column(page_bytes@, column as int) {
                Ok(s) => r is Ok && r->Ok_0@ == s,
                Err(e) => r == Err::<Vec<u8>, ParsingError>(e),
            },
    {
        let begin = self.locate_column(page_bytes, column)?;
        let column_type = self.get_column_type(column);
        column_type.parse_value(&page_bytes[begin..page_bytes.len()])
    }

    /// The compare form of column `column`, read from the file image `page_bytes`.
    pub fn get_column_cmp(&self, page_bytes: &[u8], column: usize) -> (r: Result<Vec<u8>, ParsingError>)
        ensures
            match self@.column_cmp(page_bytes@, column as int) {
                Ok(s) => r is Ok && r->Ok_0@ == s,
                Err(e) => r == Err::<Vec<u8>, ParsingError>(e),
            },
    {
        let begin = self.locate_column(page_bytes, column)?;
        let column_type = self.get_column_type(column);
        column_type.parse_value_cmp(&page_bytes[begin..page_bytes.len()])
    }
}

} // verus!
