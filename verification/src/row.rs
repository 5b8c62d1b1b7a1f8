//! Column kinds, cells and rows, and their byte encodings.
//!
//! A schema is a list of column kinds whose first kind is `Id`. A row is one
//! cell per column. The encoding of a row is the encodings of its cells, one
//! after the other, so a row can only be read back with its schema at hand.

use crate::utils::{bytes_to_u16, le_u16, le_u32, u16_le, u16_to_bytes, u32_le, u32_to_bytes};
use crate::utils::{
    lemma_u16_bytes_round_trip, lemma_u16_le_prefix, lemma_u16_round_trip,
    lemma_u32_bytes_round_trip, lemma_u32_round_trip, read_u32,
};
use crate::wal::{deserialize_wal, parse_log, records_view, WALRecord};
use vstd::prelude::*;
use vstd::slice::slice_subrange;
use vstd::string::{StringExecFns, StringSliceAdditionalSpecFns};
use vstd::utf8::{decode_utf8, encode_utf8, valid_utf8};

verus! {

/// The kind of one column.
#[derive(Debug, Clone, Copy, PartialEq, Eq, PartialOrd, Ord, Hash)]
pub enum RowType {
    Id,
    U32,
    Bytes,
    Bool,
}

/// One cell of a row.
///
/// An `Id` cell holds a non-zero number; zero is kept for the log's delete
/// mark and is no identifier.
#[derive(Debug, PartialEq, Eq, PartialOrd, Ord, Hash)]
pub enum RowVal {
    Id(u32),
    U32(u32),
    Bytes(Vec<u8>),
    Bool(bool),
}

/// What a cell holds, as a mathematical value.
pub enum Cell {
    Id(u32),
    U32(u32),
    Bytes(Seq<u8>),
    Bool(bool),
}

impl View for RowVal {
    type V = Cell;

    open spec fn view(&self) -> Cell {
        match self {
            RowVal::Id(n) => Cell::Id(*n),
            RowVal::U32(n) => Cell::U32(*n),
            RowVal::Bytes(b) => Cell::Bytes(b@),
            RowVal::Bool(b) => Cell::Bool(*b),
        }
    }
}

impl Clone for RowVal {
    fn clone(&self) -> (res: Self)
        ensures
            res@ == self@,
    {
        match self {
            RowVal::Id(n) => RowVal::Id(*n),
            RowVal::U32(n) => RowVal::U32(*n),
            RowVal::Bytes(b) => RowVal::Bytes(b.clone()),
            RowVal::Bool(b) => RowVal::Bool(*b),
        }
    }
}

/// The cells of a row, one by one.
pub open spec fn cells(row: Seq<RowVal>) -> Seq<Cell> {
    row.map_values(|v: RowVal| v@)
}

/// The byte that stands for a column kind in a schema file.
pub open spec fn kind_code(t: RowType) -> u8 {
    match t {
        RowType::Id => 0,
        RowType::U32 => 1,
        RowType::Bytes => 2,
        RowType::Bool => 3,
    }
}

/// The column kind that a cell belongs to.
pub open spec fn kind_of(c: Cell) -> RowType {
    match c {
        Cell::Id(_) => RowType::Id,
        Cell::U32(_) => RowType::U32,
        Cell::Bytes(_) => RowType::Bytes,
        Cell::Bool(_) => RowType::Bool,
    }
}

/// A cell that the format can hold: an identifier is not zero, and a byte
/// string is no longer than its two-byte length prefix can say.
pub open spec fn cell_valid(c: Cell) -> bool {
    match c {
        Cell::Id(n) => n != 0,
        Cell::Bytes(b) => b.len() <= 65535,
        _ => true,
    }
}

/// Every cell of the row is one that the format can hold.
pub open spec fn row_valid(cs: Seq<Cell>) -> bool {
    forall|i: int| 0 <= i < cs.len() ==> cell_valid(#[trigger] cs[i])
}

/// The row has one cell per column, each of its column's kind.
pub open spec fn conforms(cs: Seq<Cell>, schema: Seq<RowType>) -> bool {
    &&& cs.len() == schema.len()
    &&& forall|i: int| 0 <= i < cs.len() ==> kind_of(#[trigger] cs[i]) == schema[i]
}

/// A schema that the engine accepts: its first column is the identifier.
pub open spec fn schema_ok(schema: Seq<RowType>) -> bool {
    schema.len() >= 1 && schema[0] == RowType::Id
}

/// The encoding of one cell.
pub open spec fn cell_bytes(c: Cell) -> Seq<u8> {
    match c {
        Cell::Id(n) => le_u32(n),
        Cell::U32(n) => le_u32(n),
        Cell::Bytes(b) => le_u16(b.len() as u16) + b,
        Cell::Bool(b) => seq![if b { 1u8 } else { 0u8 }],
    }
}

/// The number of bytes that a cell's encoding takes.
pub open spec fn cell_len(c: Cell) -> nat {
    match c {
        Cell::Id(_) => 4,
        Cell::U32(_) => 4,
        Cell::Bytes(b) => 2 + b.len(),
        Cell::Bool(_) => 1,
    }
}

/// The encoding of a row: its cells' encodings in column order.
pub open spec fn row_bytes(cs: Seq<Cell>) -> Seq<u8>
    decreases cs.len(),
{
    if cs.len() == 0 {
        Seq::empty()
    } else {
        cell_bytes(cs[0]) + row_bytes(cs.skip(1))
    }
}

/// The number of bytes that a row's encoding takes.
pub open spec fn row_len(cs: Seq<Cell>) -> nat
    decreases cs.len(),
{
    if cs.len() == 0 {
        0
    } else {
        cell_len(cs[0]) + row_len(cs.skip(1))
    }
}

/// What reading one cell of kind `kind` at the start of `bytes` gives: the
/// cell and the number of bytes it took, or nothing where the bytes run out,
/// an identifier is zero or a truth value is neither 0 nor 1.
pub open spec fn parse_cell(bytes: Seq<u8>, kind: RowType) -> Option<(Cell, int)> {
    match kind {
        RowType::Id => if bytes.len() >= 4 && u32_le(bytes) != 0 {
            Some((Cell::Id(u32_le(bytes)), 4))
        } else {
            None
        },
        RowType::U32 => if bytes.len() >= 4 {
            Some((Cell::U32(u32_le(bytes)), 4))
        } else {
            None
        },
        RowType::Bytes => if bytes.len() >= 2 && bytes.len() >= 2 + u16_le(bytes) {
            Some((Cell::Bytes(bytes.subrange(2, 2 + u16_le(bytes))), 2 + u16_le(bytes)))
        } else {
            None
        },
        RowType::Bool => if bytes.len() >= 1 && bytes[0] <= 1 {
            Some((Cell::Bool(bytes[0] == 1), 1))
        } else {
            None
        },
    }
}

/// What reading one cell per column of `schema` from the start of `bytes`
/// gives: the cells and the number of bytes they took together, or nothing
/// where any cell cannot be read.
pub open spec fn parse_row(bytes: Seq<u8>, schema: Seq<RowType>) -> Option<(Seq<Cell>, int)>
    decreases schema.len(),
{
    if schema.len() == 0 {
        Some((Seq::empty(), 0))
    } else {
        match parse_cell(bytes, schema[0]) {
            None => None,
            Some((c, n)) => match parse_row(bytes.skip(n), schema.skip(1)) {
                None => None,
                Some((cs, m)) => Some((seq![c] + cs, n + m)),
            },
        }
    }
}

/// The cells read so far, followed by what the rest of the bytes gives.
pub open spec fn parse_after(acc: Seq<Cell>, used: int, rest: Option<(Seq<Cell>, int)>) -> Option<
    (Seq<Cell>, int),
> {
    match rest {
        None => None,
        Some((cs, m)) => Some((acc + cs, used + m)),
    }
}

/// A cell's encoding has the length that `cell_len` gives.
pub proof fn lemma_cell_bytes_len(c: Cell)
    ensures
        cell_bytes(c).len() == cell_len(c),
{
    match c {
        Cell::Id(n) => {
            lemma_u32_round_trip(n, Seq::empty());
        },
        Cell::U32(n) => {
            lemma_u32_round_trip(n, Seq::empty());
        },
        Cell::Bytes(b) => {
            lemma_u16_round_trip(b.len() as u16, Seq::empty());
        },
        Cell::Bool(_) => {},
    }
}

/// A row's encoding has the length that `row_len` gives.
pub proof fn lemma_row_bytes_len(cs: Seq<Cell>)
    ensures
        row_bytes(cs).len() == row_len(cs),
    decreases cs.len(),
{
    if cs.len() > 0 {
        lemma_cell_bytes_len(cs[0]);
        lemma_row_bytes_len(cs.skip(1));
    }
}

/// The encoding of a row of one cell is that cell's encoding.
pub proof fn lemma_row_bytes_one(c: Cell)
    ensures
        row_bytes(seq![c]) == cell_bytes(c),
        row_len(seq![c]) == cell_len(c),
{
    let one = seq![c];
    assert(one.skip(1) =~= Seq::<Cell>::empty());
    assert(row_bytes(one.skip(1)) =~= Seq::<u8>::empty());
    assert(row_len(one.skip(1)) == 0);
    assert(row_bytes(one) =~= cell_bytes(c));
}

/// The encoding of two rows' cells in a line is the two encodings in a line.
pub proof fn lemma_row_bytes_concat(a: Seq<Cell>, b: Seq<Cell>)
    ensures
        row_bytes(a + b) == row_bytes(a) + row_bytes(b),
    decreases a.len(),
{
    if a.len() == 0 {
        assert(a + b =~= b);
        assert(row_bytes(a) + row_bytes(b) =~= row_bytes(b));
    } else {
        lemma_row_bytes_concat(a.skip(1), b);
        assert((a + b).skip(1) =~= a.skip(1) + b);
        assert((a + b)[0] == a[0]);
        assert(row_bytes(a + b) =~= row_bytes(a) + row_bytes(b));
    }
}

/// The length of two rows' cells in a line is the two lengths together.
pub proof fn lemma_row_len_concat(a: Seq<Cell>, b: Seq<Cell>)
    ensures
        row_len(a + b) == row_len(a) + row_len(b),
{
    lemma_row_bytes_concat(a, b);
    lemma_row_bytes_len(a);
    lemma_row_bytes_len(b);
    lemma_row_bytes_len(a + b);
}

/// A cell that the format can hold is read back from its encoding, whatever
/// follows it.
pub proof fn lemma_parse_cell_round_trip(c: Cell, rest: Seq<u8>)
    requires
        cell_valid(c),
    ensures
        parse_cell(cell_bytes(c) + rest, kind_of(c)) == Some((c, cell_len(c) as int)),
{
    let bytes = cell_bytes(c) + rest;
    match c {
        Cell::Id(n) => {
            lemma_u32_round_trip(n, rest);
        },
        Cell::U32(n) => {
            lemma_u32_round_trip(n, rest);
        },
        Cell::Bytes(b) => {
            lemma_u16_round_trip(b.len() as u16, b + rest);
            assert(bytes =~= le_u16(b.len() as u16) + (b + rest));
            assert(bytes.subrange(2, 2 + b.len() as int) =~= b);
        },
        Cell::Bool(b) => {},
    }
}

/// A row of cells that the format can hold is read back from its encoding
/// with the schema it conforms to, whatever follows it.
#[verifier::rlimit(50)]
pub proof fn lemma_parse_row_round_trip(cs: Seq<Cell>, schema: Seq<RowType>, rest: Seq<u8>)
    requires
        row_valid(cs),
        conforms(cs, schema),
    ensures
        parse_row(row_bytes(cs) + rest, schema) == Some((cs, row_len(cs) as int)),
    decreases cs.len(),
{
    if cs.len() == 0 {
        assert(cs =~= Seq::empty());
    } else {
        let tail = cs.skip(1);
        let bytes = row_bytes(cs) + rest;
        lemma_cell_bytes_len(cs[0]);
        lemma_parse_cell_round_trip(cs[0], row_bytes(tail) + rest);
        assert(bytes =~= cell_bytes(cs[0]) + (row_bytes(tail) + rest));
        assert(bytes.skip(cell_len(cs[0]) as int) =~= row_bytes(tail) + rest);
        assert(conforms(tail, schema.skip(1))) by {
            assert forall|i: int| 0 <= i < tail.len() implies kind_of(#[trigger] tail[i])
                == schema.skip(1)[i] by {
                assert(tail[i] == cs[i + 1]);
            }
        }
        assert(row_valid(tail)) by {
            assert forall|i: int| 0 <= i < tail.len() implies cell_valid(#[trigger] tail[i]) by {
                assert(tail[i] == cs[i + 1]);
            }
        }
        lemma_parse_row_round_trip(tail, schema.skip(1), rest);
        assert(seq![cs[0]] + tail =~= cs);
    }
}

/// What a successful read of a row gives conforms to the schema, holds only
/// cells that the format can hold, and took the bytes of its own encoding.
#[verifier::rlimit(50)]
pub proof fn lemma_parse_row_sound(bytes: Seq<u8>, schema: Seq<RowType>)
    requires
        parse_row(bytes, schema) is Some,
    ensures
        conforms(parse_row(bytes, schema).unwrap().0, schema),
        row_valid(parse_row(bytes, schema).unwrap().0),
        0 <= parse_row(bytes, schema).unwrap().1 <= bytes.len(),
        row_len(parse_row(bytes, schema).unwrap().0) == parse_row(bytes, schema).unwrap().1,
        row_bytes(parse_row(bytes, schema).unwrap().0) == bytes.subrange(
            0,
            parse_row(bytes, schema).unwrap().1,
        ),
    decreases schema.len(),
{
    if schema.len() == 0 {
        assert(bytes.subrange(0, 0) =~= Seq::empty());
    } else {
        let (c, n) = parse_cell(bytes, schema[0]).unwrap();
        let (cs, m) = parse_row(bytes.skip(n), schema.skip(1)).unwrap();
        lemma_parse_row_sound(bytes.skip(n), schema.skip(1));
        lemma_parse_cell_sound(bytes, schema[0]);
        let all = seq![c] + cs;
        assert(all.skip(1) =~= cs);
        assert(all[0] == c);
        assert(conforms(all, schema)) by {
            assert forall|i: int| 0 <= i < all.len() implies kind_of(#[trigger] all[i])
                == schema[i] by {
                if i > 0 {
                    assert(all[i] == cs[i - 1]);
                    assert(schema.skip(1)[i - 1] == schema[i]);
                }
            }
        }
        assert(row_valid(all)) by {
            assert forall|i: int| 0 <= i < all.len() implies cell_valid(#[trigger] all[i]) by {
                if i > 0 {
                    assert(all[i] == cs[i - 1]);
                }
            }
        }
        assert(bytes.subrange(0, n + m) =~= bytes.subrange(0, n) + bytes.skip(n).subrange(0, m));
    }
}

/// What a successful read of a cell gives is of the asked kind, is a cell
/// that the format can hold, and took the bytes of its own encoding.
pub proof fn lemma_parse_cell_sound(bytes: Seq<u8>, kind: RowType)
    requires
        parse_cell(bytes, kind) is Some,
    ensures
        kind_of(parse_cell(bytes, kind).unwrap().0) == kind,
        cell_valid(parse_cell(bytes, kind).unwrap().0),
        parse_cell(bytes, kind).unwrap().1 == cell_len(parse_cell(bytes, kind).unwrap().0),
        0 < parse_cell(bytes, kind).unwrap().1 <= bytes.len(),
        cell_bytes(parse_cell(bytes, kind).unwrap().0) == bytes.subrange(
            0,
            parse_cell(bytes, kind).unwrap().1,
        ),
{
    match kind {
        RowType::Id => {
            lemma_u32_bytes_round_trip(bytes);
        },
        RowType::U32 => {
            lemma_u32_bytes_round_trip(bytes);
        },
        RowType::Bytes => {
            let l = u16_le(bytes);
            lemma_u16_bytes_round_trip(bytes);
            let b = bytes.subrange(2, 2 + l);
            assert(b.len() as u16 == l);
            assert(bytes.subrange(0, 2) + b =~= bytes.subrange(0, 2 + l));
        },
        RowType::Bool => {
            assert(cell_bytes(parse_cell(bytes, kind).unwrap().0) =~= bytes.subrange(0, 1));
        },
    }
}

/// The codes of a schema's kinds, one byte per column.
pub open spec fn schema_codes(schema: Seq<RowType>) -> Seq<u8> {
    schema.map_values(|t: RowType| kind_code(t))
}

/// The identifier at the head of a row, and the cells after it.
pub open spec fn row_id(row: Seq<Cell>) -> u32 {
    row[0]->Id_0
}

/// The byte that stands for a truth value.
pub fn to_bytes_bool(b: bool) -> (r: [u8; 1])
    ensures
        r@ == seq![if b { 1u8 } else { 0u8 }],
{
    let r: [u8; 1] = if b {
        [1u8]
    } else {
        [0u8]
    };
    assert(r@ =~= seq![if b { 1u8 } else { 0u8 }]);
    r
}

/// The truth value that a byte stands for. The byte is 0 or 1.
pub fn from_bytes_bool(bytes: &[u8; 1]) -> (r: bool)
    requires
        bytes@[0] <= 1,
    ensures
        r == (bytes@[0] == 1),
{
    bytes[0] == 1
}

/// The encoding of a byte string: its length in two bytes, then the bytes.
pub fn byte_array_to_bytes(bytes: &[u8]) -> (r: Vec<u8>)
    requires
        bytes@.len() <= 65535,
    ensures
        r@ == cell_bytes(Cell::Bytes(bytes@)),
{
    let mut res = u16_to_bytes(bytes.len() as u16);
    proof {
        lemma_u16_round_trip(bytes@.len() as u16, Seq::empty());
    }
    res.extend_from_slice(bytes);
    assert(res@ =~= le_u16(bytes@.len() as u16) + bytes@);
    res
}

/// The identifier that the first four bytes spell. It is not zero.
pub fn bytes_to_id(bytes: &[u8]) -> (r: u32)
    requires
        bytes@.len() >= 4,
        u32_le(bytes@) != 0,
    ensures
        r == u32_le(bytes@),
        r != 0,
{
    let r = read_u32(bytes, 0);
    assert(bytes@.skip(0) =~= bytes@);
    r
}

impl RowType {
    /// The kind's code, as it stands in a schema file.
    pub fn to_bytes(self) -> (r: [u8; 1])
        ensures
            r@ == seq![kind_code(self)],
    {
        let r: [u8; 1] = match self {
            RowType::Id => [0u8],
            RowType::U32 => [1u8],
            RowType::Bytes => [2u8],
            RowType::Bool => [3u8],
        };
        assert(r@ =~= seq![kind_code(self)]);
        r
    }

    /// The kind that a code stands for. The code is one of the four.
    pub fn from_bytes(bytes: &[u8; 1]) -> (r: Self)
        requires
            bytes@[0] <= 3,
        ensures
            kind_code(r) == bytes@[0],
    {
        let b: u8 = bytes[0];
        if b == 0 {
            RowType::Id
        } else if b == 1 {
            RowType::U32
        } else if b == 2 {
            RowType::Bytes
        } else {
            RowType::Bool
        }
    }

    /// The kind that a code stands for, if it is one of the four.
    pub fn try_from_code(b: u8) -> (r: Option<Self>)
        ensures
            r is Some <==> b <= 3,
            r is Some ==> kind_code(r.unwrap()) == b,
    {
        if b <= 3 {
            Some(RowType::from_bytes(&[b]))
        } else {
            None
        }
    }
}

impl RowVal {
    /// The cell's encoding.
    pub fn to_bytes(self) -> (r: Vec<u8>)
        requires
            cell_valid(self@),
        ensures
            r@ == cell_bytes(self@),
    {
        match self {
            RowVal::Id(n) => u32_to_bytes(n),
            RowVal::U32(n) => u32_to_bytes(n),
            RowVal::Bytes(b) => byte_array_to_bytes(b.as_slice()),
            RowVal::Bool(b) => {
                let r = vec![if b { 1u8 } else { 0u8 }];
                assert(r@ =~= seq![if b { 1u8 } else { 0u8 }]);
                r
            },
        }
    }

    /// Reads one cell of the given kind from the start of `bytes`, and says
    /// how many bytes it took. `None` where the bytes hold no such cell.
    pub fn try_from_bytes(bytes: &[u8], row_type: RowType) -> (r: Option<(Self, usize)>)
        ensures
            match parse_cell(bytes@, row_type) {
                Some((c, n)) => r is Some && r.unwrap().0@ == c && r.unwrap().1 == n,
                None => r is None,
            },
    {
        match row_type {
            RowType::Id => {
                if bytes.len() < 4 {
                    return None;
                }
                let n = read_u32(bytes, 0);
                assert(bytes@.skip(0) =~= bytes@);
                if n == 0 {
                    None
                } else {
                    Some((RowVal::Id(n), 4))
                }
            },
            RowType::U32 => {
                if bytes.len() < 4 {
                    return None;
                }
                let n = read_u32(bytes, 0);
                assert(bytes@.skip(0) =~= bytes@);
                Some((RowVal::U32(n), 4))
            },
            RowType::Bytes => {
                if bytes.len() < 2 {
                    return None;
                }
                let len: usize = bytes_to_u16(slice_subrange(bytes, 0, 2)) as usize;
                proof {
                    lemma_u16_le_prefix(bytes@, 2);
                }
                if bytes.len() - 2 < len {
                    return None;
                }
                let body = vstd::slice::slice_to_vec(slice_subrange(bytes, 2, 2 + len));
                Some((RowVal::Bytes(body), 2 + len))
            },
            RowType::Bool => {
                if bytes.len() < 1 {
                    return None;
                }
                let b: u8 = bytes[0];
                if b > 1 {
                    None
                } else {
                    Some((RowVal::Bool(b == 1), 1))
                }
            },
        }
    }

    /// Reads one cell of the given kind from the start of `bytes`, which
    /// hold one.
    pub fn from_bytes(bytes: &[u8], row_type: RowType) -> (r: Self)
        requires
            parse_cell(bytes@, row_type) is Some,
        ensures
            r@ == parse_cell(bytes@, row_type).unwrap().0,
    {
        RowVal::try_from_bytes(bytes, row_type).unwrap().0
    }

    /// The number of bytes that the cell's encoding takes.
    pub fn size(&self) -> (r: u16)
        requires
            cell_len(self@) <= u16::MAX,
        ensures
            r == cell_len(self@),
    {
        match self {
            RowVal::Id(_) => 4,
            RowVal::U32(_) => 4,
            RowVal::Bytes(b) => {
                let len: u16 = b.len() as u16;
                len + 2
            },
            RowVal::Bool(_) => 1,
        }
    }

    /// Whether the format can hold the cell.
    pub fn is_valid(&self) -> (r: bool)
        ensures
            r == cell_valid(self@),
    {
        match self {
            RowVal::Id(n) => *n != 0,
            RowVal::Bytes(b) => b.len() <= 65535,
            _ => true,
        }
    }
}

/// A copy of the cells of a row.
pub fn clone_values(values: &[RowVal]) -> (r: Vec<RowVal>)
    ensures
        cells(r@) == cells(values@),
{
    let mut res: Vec<RowVal> = Vec::new();
    let mut i: usize = 0;
    while i < values.len()
        invariant
            i <= values.len(),
            res@.len() == i,
            forall|j: int| 0 <= j < i ==> (#[trigger] res@[j])@ == values@[j]@,
        decreases values.len() - i,
    {
        res.push(values[i].clone());
        i = i + 1;
    }
    assert(cells(res@) =~= cells(values@));
    res
}

/// Whether the format can hold every cell of the row.
pub fn valid_values(values: &[RowVal]) -> (r: bool)
    ensures
        r == row_valid(cells(values@)),
{
    let mut i: usize = 0;
    while i < values.len()
        invariant
            i <= values.len(),
            forall|j: int| 0 <= j < i ==> cell_valid(#[trigger] cells(values@)[j]),
        decreases values.len() - i,
    {
        if !values[i].is_valid() {
            assert(!cell_valid(cells(values@)[i as int]));
            return false;
        }
        i = i + 1;
    }
    true
}

/// The codes of a schema's kinds, one byte per column.
pub fn schema_to_bytes(schema: &[RowType]) -> (r: Vec<u8>)
    ensures
        r@ == schema_codes(schema@),
{
    let mut res: Vec<u8> = Vec::new();
    let mut i: usize = 0;
    while i < schema.len()
        invariant
            i <= schema.len(),
            res@ == schema_codes(schema@.take(i as int)),
        decreases schema.len() - i,
    {
        let code = schema[i].to_bytes();
        res.push(code[0]);
        i = i + 1;
        assert(res@ =~= schema_codes(schema@.take(i as int)));
    }
    assert(schema@.take(i as int) =~= schema@);
    res
}

/// The schema that a schema file's bytes spell, if every byte is a kind's
/// code.
pub fn try_schema_from_bytes(bytes: &[u8]) -> (r: Option<Vec<RowType>>)
    ensures
        r is Some <==> (forall|i: int| 0 <= i < bytes@.len() ==> #[trigger] bytes@[i] <= 3),
        r is Some ==> schema_codes(r.unwrap()@) == bytes@,
{
    let mut res: Vec<RowType> = Vec::new();
    let mut i: usize = 0;
    while i < bytes.len()
        invariant
            i <= bytes.len(),
            forall|j: int| 0 <= j < i ==> #[trigger] bytes@[j] <= 3,
            res@.len() == i,
            forall|j: int| 0 <= j < i ==> kind_code(#[trigger] res@[j]) == bytes@[j],
        decreases bytes.len() - i,
    {
        match RowType::try_from_code(bytes[i]) {
            None => {
                return None;
            },
            Some(t) => {
                res.push(t);
            },
        }
        i = i + 1;
    }
    assert(schema_codes(res@) =~= bytes@);
    Some(res)
}

/// The schema that a schema file's bytes spell. Every byte is a kind's code.
pub fn schema_from_bytes(bytes: &[u8]) -> (r: Vec<RowType>)
    requires
        forall|i: int| 0 <= i < bytes@.len() ==> #[trigger] bytes@[i] <= 3,
    ensures
        schema_codes(r@) == bytes@,
{
    try_schema_from_bytes(bytes).unwrap()
}

/// Whether the engine accepts the schema: its first column is the identifier.
pub fn valid_schema(schema: &[RowType]) -> (r: bool)
    ensures
        r == schema_ok(schema@),
{
    if schema.len() == 0 {
        return false;
    }
    match schema[0] {
        RowType::Id => true,
        _ => false,
    }
}

/// Reads one cell per column of `schema` from the start of `bytes`, and says
/// how many bytes they took. `None` where any cell cannot be read.
pub fn try_bytes_to_values(bytes: &[u8], schema: &[RowType]) -> (r: Option<(Vec<RowVal>, usize)>)
    ensures
        match parse_row(bytes@, schema@) {
            Some((cs, n)) => r is Some && cells(r.unwrap().0@) == cs && r.unwrap().1 == n,
            None => r is None,
        },
{
    let mut res: Vec<RowVal> = Vec::new();
    let mut i: usize = 0;
    let mut k: usize = 0;
    proof {
        assert(bytes@.skip(0) =~= bytes@);
        assert(schema@.skip(0) =~= schema@);
        match parse_row(bytes@, schema@) {
            Some((cs, m)) => {
                assert(cells(res@) + cs =~= cs);
            },
            None => {},
        }
    }
    while k < schema.len()
        invariant
            k <= schema.len(),
            i <= bytes.len(),
            parse_row(bytes@, schema@) == parse_after(
                cells(res@),
                i as int,
                parse_row(bytes@.skip(i as int), schema@.skip(k as int)),
            ),
        decreases schema.len() - k,
    {
        let rest = slice_subrange(bytes, i, bytes.len());
        let ghost acc = cells(res@);
        let ghost tail_schema = schema@.skip(k as int);
        assert(tail_schema[0] == schema@[k as int]);
        assert(rest@ =~= bytes@.skip(i as int));
        match RowVal::try_from_bytes(rest, schema[k]) {
            None => {
                return None;
            },
            Some((v, n)) => {
                proof {
                    lemma_parse_cell_sound(rest@, schema@[k as int]);
                    assert(rest@.skip(n as int) =~= bytes@.skip(i + n));
                    assert(tail_schema.skip(1) =~= schema@.skip(k + 1));
                    match parse_row(bytes@.skip(i + n), schema@.skip(k + 1)) {
                        Some((cs, m)) => {
                            assert(acc.push(v@) + cs =~= acc + (seq![v@] + cs));
                        },
                        None => {},
                    }
                }
                res.push(v);
                assert(cells(res@) =~= acc.push(v@));
                i = i + n;
                k = k + 1;
            },
        }
    }
    proof {
        assert(cells(res@) + Seq::<Cell>::empty() =~= cells(res@));
    }
    Some((res, i))
}

/// Reads one cell per column of `schema` from the start of `bytes`, which
/// hold such a row, and says how many bytes it took.
pub fn bytes_to_values(bytes: &[u8], schema: &[RowType]) -> (r: (Vec<RowVal>, usize))
    requires
        parse_row(bytes@, schema@) is Some,
    ensures
        cells(r.0@) == parse_row(bytes@, schema@).unwrap().0,
        r.1 == parse_row(bytes@, schema@).unwrap().1,
{
    try_bytes_to_values(bytes, schema).unwrap()
}

/// The encoding of a row: its cells' encodings in column order.
pub fn values_to_bytes(values: &[RowVal]) -> (r: Vec<u8>)
    requires
        row_valid(cells(values@)),
    ensures
        r@ == row_bytes(cells(values@)),
{
    let mut res: Vec<u8> = Vec::new();
    let mut i: usize = 0;
    while i < values.len()
        invariant
            i <= values.len(),
            row_valid(cells(values@)),
            res@ == row_bytes(cells(values@.take(i as int))),
        decreases values.len() - i,
    {
        let ghost before = cells(values@.take(i as int));
        assert(cell_valid(cells(values@)[i as int]));
        let mut cell = values[i].clone().to_bytes();
        res.append(&mut cell);
        i = i + 1;
        proof {
            let one = seq![values@[i - 1]@];
            assert(cells(values@.take(i as int)) =~= before + one);
            lemma_row_bytes_concat(before, one);
            lemma_row_bytes_one(one[0]);
        }
    }
    assert(values@.take(i as int) =~= values@);
    res
}

/// Parts a row into its identifier and the cells after it. The row's first
/// cell is its identifier.
pub fn split_row(row: &[RowVal]) -> (r: (u32, &[RowVal]))
    requires
        row@.len() > 0,
        row@[0] is Id,
    ensures
        r.0 == row_id(cells(row@)),
        r.1@ == row@.skip(1),
{
    let tail = slice_subrange(row, 1, row.len());
    match &row[0] {
        RowVal::Id(id) => (*id, tail),
        _ => (0, tail),
    }
}

/// Whether a row's cells after the identifier are what the schema asks for:
/// one cell per column after the first, each of its column's kind.
pub fn verify_insert(vals: &[RowVal], schema: &[RowType]) -> (r: bool)
    requires
        schema@.len() >= 1,
    ensures
        r == conforms(cells(vals@), schema@.skip(1)),
{
    if vals.len() != schema.len() - 1 {
        return false;
    }
    let mut i: usize = 0;
    while i < vals.len()
        invariant
            i <= vals.len(),
            vals.len() == schema.len() - 1,
            forall|j: int| 0 <= j < i ==> kind_of(#[trigger] cells(vals@)[j]) == schema@.skip(1)[j],
        decreases vals.len() - i,
    {
        let same = match (&vals[i], schema[i + 1]) {
            (RowVal::Id(_), RowType::Id) => true,
            (RowVal::U32(_), RowType::U32) => true,
            (RowVal::Bytes(_), RowType::Bytes) => true,
            (RowVal::Bool(_), RowType::Bool) => true,
            _ => false,
        };
        if !same {
            assert(kind_of(cells(vals@)[i as int]) != schema@.skip(1)[i as int]);
            return false;
        }
        i = i + 1;
    }
    true
}

/// Reads the records of a log file: every record up to the first place where
/// none can be read.
pub fn bytes_to_actions(bytes: &[u8], schema: &[RowType]) -> (r: Vec<WALRecord>)
    ensures
        records_view(r@) == parse_log(bytes@, schema@),
{
    deserialize_wal(bytes, schema)
}

/// The text that `String::from_utf8_lossy` makes of bytes.
pub uninterp spec fn utf8_lossy(bytes: Seq<u8>) -> Seq<char>;

/// `String::from_utf8_lossy`, as an owned string: the text of the bytes,
/// which is their decoding where they are valid UTF-8.
#[verifier::external_body]
fn lossy_string(bytes: &[u8]) -> (r: String)
    ensures
        r@ == utf8_lossy(bytes@),
        valid_utf8(bytes@) ==> r@ == decode_utf8(bytes@),
{
    String::from_utf8_lossy(bytes).into_owned()
}

/// The text of an encoded byte string: the two bytes of the length are
/// passed over, and what follows is read as UTF-8, with a replacement
/// character for what is none.
pub fn from_bytes_string(bytes: &[u8]) -> (r: String)
    requires
        bytes@.len() >= 2,
    ensures
        r@ == utf8_lossy(bytes@.skip(2)),
        valid_utf8(bytes@.skip(2)) ==> r@ == decode_utf8(bytes@.skip(2)),
{
    let body = slice_subrange(bytes, 2, bytes.len());
    assert(body@ =~= bytes@.skip(2));
    lossy_string(body)
}

/// The encoding of a text as a byte string: the length of its UTF-8 bytes
/// in two bytes, then the bytes. There are at most 65535 of them.
pub fn to_bytes_string(s: &str) -> (r: Vec<u8>)
    requires
        s.spec_bytes().len() <= 65535,
    ensures
        r@ == cell_bytes(Cell::Bytes(encode_utf8(s@))),
        valid_utf8(r@.skip(2)),
        decode_utf8(r@.skip(2)) == s@,
{
    let r = byte_array_to_bytes(s.as_bytes());
    proof {
        lemma_u16_round_trip(encode_utf8(s@).len() as u16, Seq::empty());
        assert(r@.skip(2) =~= encode_utf8(s@));
        vstd::utf8::encode_utf8_valid_utf8(s@);
        vstd::utf8::encode_utf8_decode_utf8(s@);
    }
    r
}

/// The character of a decimal digit.
pub open spec fn digit_char(d: int) -> char {
    if d == 0 {
        '0'
    } else if d == 1 {
        '1'
    } else if d == 2 {
        '2'
    } else if d == 3 {
        '3'
    } else if d == 4 {
        '4'
    } else if d == 5 {
        '5'
    } else if d == 6 {
        '6'
    } else if d == 7 {
        '7'
    } else if d == 8 {
        '8'
    } else {
        '9'
    }
}

/// A number in decimal digits, without leading zeros.
pub open spec fn decimal(n: nat) -> Seq<char>
    decreases n,
{
    if n < 10 {
        seq![digit_char(n as int)]
    } else {
        decimal(n / 10).push(digit_char((n % 10) as int))
    }
}

/// The text of a truth value.
pub open spec fn bool_text(b: bool) -> Seq<char> {
    if b {
        seq!['t', 'r', 'u', 'e']
    } else {
        seq!['f', 'a', 'l', 's', 'e']
    }
}

/// The text that shows a cell: a number in decimal digits, a byte string as
/// its text between double quotes, a truth value as `true` or `false`.
pub open spec fn cell_text(c: Cell) -> Seq<char> {
    match c {
        Cell::Id(n) => decimal(n as nat),
        Cell::U32(n) => decimal(n as nat),
        Cell::Bytes(b) => seq!['"'] + utf8_lossy(b) + seq!['"'],
        Cell::Bool(b) => bool_text(b),
    }
}

/// The text of one decimal digit.
fn digit_text(d: u32) -> (r: &'static str)
    requires
        d < 10,
    ensures
        r@ == seq![digit_char(d as int)],
{
    proof {
        reveal_strlit("0");
        reveal_strlit("1");
        reveal_strlit("2");
        reveal_strlit("3");
        reveal_strlit("4");
        reveal_strlit("5");
        reveal_strlit("6");
        reveal_strlit("7");
        reveal_strlit("8");
        reveal_strlit("9");
    }
    let r = if d == 0 {
        "0"
    } else if d == 1 {
        "1"
    } else if d == 2 {
        "2"
    } else if d == 3 {
        "3"
    } else if d == 4 {
        "4"
    } else if d == 5 {
        "5"
    } else if d == 6 {
        "6"
    } else if d == 7 {
        "7"
    } else if d == 8 {
        "8"
    } else {
        "9"
    };
    assert(r@ =~= seq![digit_char(d as int)]);
    r
}

/// Writes a number in decimal digits at the end of a text.
pub fn push_decimal(text: &mut String, n: u64)
    ensures
        final(text)@ == old(text)@ + decimal(n as nat),
    decreases n,
{
    if n >= 10 {
        push_decimal(text, n / 10);
    }
    text.append(digit_text((n % 10) as u32));
    assert(text@ =~= old(text)@ + decimal(n as nat));
}

impl RowVal {
    /// The text that shows the cell.
    pub fn to_string(&self) -> (r: String)
        ensures
            r@ == cell_text(self@),
    {
        let mut text = String::new();
        match self {
            RowVal::Id(n) => {
                push_decimal(&mut text, *n as u64);
            },
            RowVal::U32(n) => {
                push_decimal(&mut text, *n as u64);
            },
            RowVal::Bytes(b) => {
                proof {
                    reveal_strlit("\"");
                }
                let inner = lossy_string(b.as_slice());
                text.append("\"");
                text.append(inner.as_str());
                text.append("\"");
                assert(text@ =~= seq!['"'] + utf8_lossy(b@) + seq!['"']);
            },
            RowVal::Bool(b) => {
                proof {
                    reveal_strlit("true");
                    reveal_strlit("false");
                }
                if *b {
                    text.append("true");
                } else {
                    text.append("false");
                }
                assert(text@ =~= bool_text(*b));
            },
        }
        assert(Seq::<char>::empty() + cell_text(self@) =~= cell_text(self@));
        text
    }
}

} // verus!
