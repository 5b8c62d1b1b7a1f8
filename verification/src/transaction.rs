//! The items of a transaction log, a format that is kept for later use: the
//! engine writes none.
//!
//! An item is a marker byte and what belongs to it: the number of a
//! transaction, nothing, or a list of cells. A list of cells is their count
//! in two bytes, then each cell led by the code of its kind.

use crate::row::{
    cell_bytes, cell_len, cell_valid, cells, kind_code, kind_of, lemma_cell_bytes_len,
    lemma_parse_cell_round_trip, lemma_parse_cell_sound, parse_cell, row_valid, Cell, RowType,
    RowVal,
};
use crate::utils::{
    bytes_to_u16, le_u16, le_u32, lemma_u16_le_prefix, lemma_u16_round_trip,
    lemma_u32_round_trip, read_u32, u16_le, u16_to_bytes, u32_le, u32_to_bytes,
};
use vstd::prelude::*;
use vstd::slice::slice_subrange;

verus! {

/// One item of a transaction log.
#[derive(Debug, PartialEq, Eq, PartialOrd, Ord, Hash)]
pub enum TransactionItem {
    /// The transaction of this number starts.
    Start(u32),
    /// The transaction of this number is rolled back.
    Rollback(u32),
    /// The transaction of this number is committed.
    Commit(u32),
    /// No transaction is under way.
    Checkpoint,
    /// A row with these cells is put in.
    Insert(Vec<RowVal>),
    /// A row with these cells is taken out.
    Delete(Vec<RowVal>),
}

/// What an item says, as a mathematical value.
pub enum Step {
    Start(u32),
    Rollback(u32),
    Commit(u32),
    Checkpoint,
    Insert(Seq<Cell>),
    Delete(Seq<Cell>),
}

impl View for TransactionItem {
    type V = Step;

    open spec fn view(&self) -> Step {
        match self {
            TransactionItem::Start(n) => Step::Start(*n),
            TransactionItem::Rollback(n) => Step::Rollback(*n),
            TransactionItem::Commit(n) => Step::Commit(*n),
            TransactionItem::Checkpoint => Step::Checkpoint,
            TransactionItem::Insert(row) => Step::Insert(cells(row@)),
            TransactionItem::Delete(row) => Step::Delete(cells(row@)),
        }
    }
}

/// A list of cells that an item can hold: every cell is one that the format
/// can hold, and there are at most 65535 of them.
pub open spec fn list_valid(cs: Seq<Cell>) -> bool {
    cs.len() <= 65535 && row_valid(cs)
}

/// An item that the log can hold.
pub open spec fn step_valid(t: Step) -> bool {
    match t {
        Step::Insert(cs) => list_valid(cs),
        Step::Delete(cs) => list_valid(cs),
        _ => true,
    }
}

/// The encoding of cells, each led by the code of its kind.
pub open spec fn tagged_bytes(cs: Seq<Cell>) -> Seq<u8>
    decreases cs.len(),
{
    if cs.len() == 0 {
        Seq::empty()
    } else {
        seq![kind_code(kind_of(cs[0]))] + cell_bytes(cs[0]) + tagged_bytes(cs.skip(1))
    }
}

/// The encoding of a list of cells: their count in two bytes, then the
/// cells, each led by the code of its kind.
pub open spec fn list_bytes(cs: Seq<Cell>) -> Seq<u8> {
    le_u16(cs.len() as u16) + tagged_bytes(cs)
}

/// The encoding of an item: its marker, then what belongs to it.
pub open spec fn step_bytes(t: Step) -> Seq<u8> {
    match t {
        Step::Start(n) => seq![0u8] + le_u32(n),
        Step::Rollback(n) => seq![1u8] + le_u32(n),
        Step::Commit(n) => seq![2u8] + le_u32(n),
        Step::Checkpoint => seq![3u8],
        Step::Insert(cs) => seq![4u8] + list_bytes(cs),
        Step::Delete(cs) => seq![5u8] + list_bytes(cs),
    }
}

/// What reading one cell that is led by the code of its kind gives: the cell
/// and the number of bytes that code and cell took. A truth value is true
/// where its byte is 1 and false for every other byte.
pub open spec fn parse_tagged_cell(bytes: Seq<u8>) -> Option<(Cell, int)> {
    if bytes.len() < 1 {
        None
    } else if bytes[0] == 0 {
        match parse_cell(bytes.skip(1), RowType::Id) {
            Some((c, n)) => Some((c, n + 1)),
            None => None,
        }
    } else if bytes[0] == 1 {
        match parse_cell(bytes.skip(1), RowType::U32) {
            Some((c, n)) => Some((c, n + 1)),
            None => None,
        }
    } else if bytes[0] == 2 {
        match parse_cell(bytes.skip(1), RowType::Bytes) {
            Some((c, n)) => Some((c, n + 1)),
            None => None,
        }
    } else if bytes[0] == 3 && bytes.len() >= 2 {
        Some((Cell::Bool(bytes[1] == 1), 2))
    } else {
        None
    }
}

/// What reading `count` cells, each led by the code of its kind, gives: the
/// cells and the number of bytes they took.
pub open spec fn parse_tagged(bytes: Seq<u8>, count: nat) -> Option<(Seq<Cell>, int)>
    decreases count,
{
    if count == 0 {
        Some((Seq::empty(), 0))
    } else {
        match parse_tagged_cell(bytes) {
            None => None,
            Some((c, n)) => match parse_tagged(bytes.skip(n), (count - 1) as nat) {
                None => None,
                Some((cs, m)) => Some((seq![c] + cs, n + m)),
            },
        }
    }
}

/// What reading a list of cells gives: as many cells as the first two bytes
/// count.
pub open spec fn parse_list(bytes: Seq<u8>) -> Option<Seq<Cell>> {
    if bytes.len() < 2 {
        None
    } else {
        match parse_tagged(bytes.skip(2), u16_le(bytes) as nat) {
            None => None,
            Some((cs, _)) => Some(cs),
        }
    }
}

/// What reading an item gives, or nothing where the marker is none of the
/// six or what belongs to it cannot be read.
pub open spec fn parse_step(bytes: Seq<u8>) -> Option<Step> {
    if bytes.len() < 1 {
        None
    } else if bytes[0] <= 2 {
        if bytes.len() >= 5 {
            let n = u32_le(bytes.skip(1));
            if bytes[0] == 0 {
                Some(Step::Start(n))
            } else if bytes[0] == 1 {
                Some(Step::Rollback(n))
            } else {
                Some(Step::Commit(n))
            }
        } else {
            None
        }
    } else if bytes[0] == 3 {
        Some(Step::Checkpoint)
    } else if bytes[0] == 4 {
        match parse_list(bytes.skip(1)) {
            Some(cs) => Some(Step::Insert(cs)),
            None => None,
        }
    } else if bytes[0] == 5 {
        match parse_list(bytes.skip(1)) {
            Some(cs) => Some(Step::Delete(cs)),
            None => None,
        }
    } else {
        None
    }
}

/// The cells read so far, followed by what the rest of the bytes gives.
pub open spec fn tagged_after(acc: Seq<Cell>, used: int, rest: Option<(Seq<Cell>, int)>) -> Option<
    (Seq<Cell>, int),
> {
    match rest {
        None => None,
        Some((cs, m)) => Some((acc + cs, used + m)),
    }
}

/// A cell that the format can hold is read back from its code and encoding,
/// whatever follows.
pub proof fn lemma_tagged_cell_round_trip(c: Cell, rest: Seq<u8>)
    requires
        cell_valid(c),
    ensures
        parse_tagged_cell(seq![kind_code(kind_of(c))] + cell_bytes(c) + rest) == Some(
            (c, 1 + cell_len(c) as int),
        ),
{
    let bytes = seq![kind_code(kind_of(c))] + cell_bytes(c) + rest;
    assert(bytes.skip(1) =~= cell_bytes(c) + rest);
    assert(bytes[0] == kind_code(kind_of(c)));
    lemma_parse_cell_round_trip(c, rest);
    lemma_cell_bytes_len(c);
    match c {
        Cell::Bool(b) => {
            assert(bytes[1] == cell_bytes(c)[0]);
        },
        _ => {},
    }
}

/// Cells that the format can hold are read back from their codes and
/// encodings, whatever follows.
pub proof fn lemma_tagged_round_trip(cs: Seq<Cell>, rest: Seq<u8>)
    requires
        row_valid(cs),
    ensures
        parse_tagged(tagged_bytes(cs) + rest, cs.len()).is_some(),
        parse_tagged(tagged_bytes(cs) + rest, cs.len()).unwrap().0 == cs,
    decreases cs.len(),
{
    if cs.len() == 0 {
        assert(cs =~= Seq::<Cell>::empty());
    } else {
        let tail = cs.skip(1);
        let bytes = tagged_bytes(cs) + rest;
        let after = tagged_bytes(tail) + rest;
        lemma_tagged_cell_round_trip(cs[0], after);
        lemma_cell_bytes_len(cs[0]);
        assert(bytes =~= seq![kind_code(kind_of(cs[0]))] + cell_bytes(cs[0]) + after);
        assert(bytes.skip(1 + cell_len(cs[0]) as int) =~= after);
        assert(row_valid(tail)) by {
            assert forall|i: int| 0 <= i < tail.len() implies cell_valid(#[trigger] tail[i]) by {
                assert(tail[i] == cs[i + 1]);
            }
        }
        lemma_tagged_round_trip(tail, rest);
        assert(seq![cs[0]] + tail =~= cs);
    }
}

/// An item that the log can hold is read back from its encoding.
pub proof fn lemma_step_round_trip(t: Step)
    requires
        step_valid(t),
    ensures
        parse_step(step_bytes(t)) == Some(t),
{
    let bytes = step_bytes(t);
    match t {
        Step::Start(n) => {
            lemma_u32_round_trip(n, Seq::empty());
            assert(bytes.skip(1) =~= le_u32(n) + Seq::<u8>::empty());
        },
        Step::Rollback(n) => {
            lemma_u32_round_trip(n, Seq::empty());
            assert(bytes.skip(1) =~= le_u32(n) + Seq::<u8>::empty());
        },
        Step::Commit(n) => {
            lemma_u32_round_trip(n, Seq::empty());
            assert(bytes.skip(1) =~= le_u32(n) + Seq::<u8>::empty());
        },
        Step::Checkpoint => {},
        Step::Insert(cs) => {
            lemma_list_round_trip(cs);
            assert(bytes.skip(1) =~= list_bytes(cs));
        },
        Step::Delete(cs) => {
            lemma_list_round_trip(cs);
            assert(bytes.skip(1) =~= list_bytes(cs));
        },
    }
}

/// A list of cells that an item can hold is read back from its encoding.
pub proof fn lemma_list_round_trip(cs: Seq<Cell>)
    requires
        list_valid(cs),
    ensures
        parse_list(list_bytes(cs)) == Some(cs),
{
    let bytes = list_bytes(cs);
    lemma_u16_round_trip(cs.len() as u16, tagged_bytes(cs));
    assert(bytes.skip(2) =~= tagged_bytes(cs) + Seq::<u8>::empty());
    lemma_tagged_round_trip(cs, Seq::empty());
}

/// Reads one cell that is led by the code of its kind, and says how many
/// bytes code and cell took. `None` where the bytes hold no such cell.
pub fn try_read_tagged(bytes: &[u8]) -> (r: Option<(RowVal, usize)>)
    ensures
        match parse_tagged_cell(bytes@) {
            Some((c, n)) => r is Some && r.unwrap().0@ == c && r.unwrap().1 == n,
            None => r is None,
        },
{
    if bytes.len() < 1 {
        return None;
    }
    let code: u8 = bytes[0];
    let rest = slice_subrange(bytes, 1, bytes.len());
    assert(rest@ =~= bytes@.skip(1));
    let kind = if code == 0 {
        RowType::Id
    } else if code == 1 {
        RowType::U32
    } else if code == 2 {
        RowType::Bytes
    } else if code == 3 {
        if bytes.len() < 2 {
            return None;
        }
        return Some((RowVal::Bool(bytes[1] == 1), 2));
    } else {
        return None;
    };
    match RowVal::try_from_bytes(rest, kind) {
        Some((v, n)) => {
            proof {
                lemma_parse_cell_sound(rest@, kind);
            }
            Some((v, n + 1))
        },
        None => None,
    }
}

/// Reads a list of cells: as many cells as the first two bytes count.
/// `None` where the bytes hold no such list.
pub fn try_deserialize_bytes(bytes: &[u8]) -> (r: Option<Vec<RowVal>>)
    ensures
        match parse_list(bytes@) {
            Some(cs) => r is Some && cells(r.unwrap()@) == cs,
            None => r is None,
        },
{
    if bytes.len() < 2 {
        return None;
    }
    let count: u16 = bytes_to_u16(slice_subrange(bytes, 0, 2));
    proof {
        lemma_u16_le_prefix(bytes@, 2);
    }
    let mut items: Vec<RowVal> = Vec::new();
    let mut i: usize = 2;
    let mut k: u16 = 0;
    let ghost body = bytes@.skip(2);
    proof {
        assert(body.skip(0) =~= body);
        match parse_tagged(body, count as nat) {
            Some((cs, m)) => {
                assert(cells(items@) + cs =~= cs);
            },
            None => {},
        }
    }
    while k < count
        invariant
            k <= count,
            2 <= i <= bytes@.len(),
            body == bytes@.skip(2),
            count == u16_le(bytes@),
            parse_tagged(body, count as nat) == tagged_after(
                cells(items@),
                i - 2,
                parse_tagged(body.skip(i - 2), (count - k) as nat),
            ),
        decreases count - k,
    {
        let rest = slice_subrange(bytes, i, bytes.len());
        let ghost acc = cells(items@);
        assert(rest@ =~= body.skip(i - 2));
        match try_read_tagged(rest) {
            None => {
                proof {
                    assert(parse_tagged(body.skip(i - 2), (count - k) as nat) is None);
                }
                return None;
            },
            Some((v, n)) => {
                proof {
                    lemma_tagged_cell_sound(rest@);
                    assert(rest@.skip(n as int) =~= body.skip(i - 2 + n));
                    match parse_tagged(body.skip(i - 2 + n), (count - k - 1) as nat) {
                        Some((cs, m)) => {
                            assert(acc.push(v@) + cs =~= acc + (seq![v@] + cs));
                        },
                        None => {},
                    }
                }
                items.push(v);
                assert(cells(items@) =~= acc.push(v@));
                i = i + n;
                k = k + 1;
            },
        }
    }
    proof {
        assert(cells(items@) + Seq::<Cell>::empty() =~= cells(items@));
    }
    Some(items)
}

/// What a successful read of a tagged cell took lies within the bytes.
pub proof fn lemma_tagged_cell_sound(bytes: Seq<u8>)
    requires
        parse_tagged_cell(bytes) is Some,
    ensures
        0 < parse_tagged_cell(bytes).unwrap().1 <= bytes.len(),
{
    if bytes[0] == 0 {
        lemma_parse_cell_sound(bytes.skip(1), RowType::Id);
    } else if bytes[0] == 1 {
        lemma_parse_cell_sound(bytes.skip(1), RowType::U32);
    } else if bytes[0] == 2 {
        lemma_parse_cell_sound(bytes.skip(1), RowType::Bytes);
    }
}

/// Reads a list of cells: as many cells as the first two bytes count. The
/// bytes hold such a list.
pub fn deserialize_bytes(bytes: &[u8]) -> (r: Vec<RowVal>)
    requires
        parse_list(bytes@) is Some,
    ensures
        cells(r@) == parse_list(bytes@).unwrap(),
{
    try_deserialize_bytes(bytes).unwrap()
}

/// The encoding of a list of cells: their count in two bytes, then the
/// cells, each led by the code of its kind. There are at most 65535 cells.
pub fn serialize_rows(rows: &[RowVal]) -> (r: Vec<u8>)
    requires
        list_valid(cells(rows@)),
    ensures
        r@ == list_bytes(cells(rows@)),
{
    let mut res = u16_to_bytes(rows.len() as u16);
    let mut i: usize = 0;
    let ghost cs = cells(rows@);
    proof {
        assert(cs.take(0) =~= Seq::<Cell>::empty());
        assert(res@ =~= le_u16(cs.len() as u16) + tagged_bytes(cs.take(0)));
    }
    while i < rows.len()
        invariant
            i <= rows.len(),
            cs == cells(rows@),
            row_valid(cs),
            res@ == le_u16(cs.len() as u16) + tagged_bytes(cs.take(i as int)),
        decreases rows.len() - i,
    {
        let code: u8 = match &rows[i] {
            RowVal::Id(_) => 0,
            RowVal::U32(_) => 1,
            RowVal::Bytes(_) => 2,
            RowVal::Bool(_) => 3,
        };
        assert(cell_valid(cs[i as int]));
        let mut cell = rows[i].clone().to_bytes();
        proof {
            lemma_tagged_push(cs.take(i as int), cs[i as int]);
            assert(cs.take(i + 1) =~= cs.take(i as int).push(cs[i as int]));
        }
        res.push(code);
        res.append(&mut cell);
        i = i + 1;
        assert(res@ =~= le_u16(cs.len() as u16) + tagged_bytes(cs.take(i as int)));
    }
    assert(cs.take(i as int) =~= cs);
    res
}

/// One more cell adds its code and encoding at the end.
pub proof fn lemma_tagged_push(cs: Seq<Cell>, c: Cell)
    ensures
        tagged_bytes(cs.push(c)) == tagged_bytes(cs) + seq![kind_code(kind_of(c))] + cell_bytes(c),
    decreases cs.len(),
{
    if cs.len() == 0 {
        let one = cs.push(c);
        assert(one.skip(1) =~= Seq::<Cell>::empty());
        assert(tagged_bytes(one.skip(1)) =~= Seq::<u8>::empty());
        assert(tagged_bytes(one) =~= tagged_bytes(cs) + seq![kind_code(kind_of(c))] + cell_bytes(
            c,
        ));
    } else {
        lemma_tagged_push(cs.skip(1), c);
        assert(cs.push(c).skip(1) =~= cs.skip(1).push(c));
        assert(cs.push(c)[0] == cs[0]);
        assert(tagged_bytes(cs.push(c)) =~= tagged_bytes(cs) + seq![kind_code(kind_of(c))]
            + cell_bytes(c));
    }
}

impl TransactionItem {
    /// The item's encoding. Its cells are ones that the format can hold, at
    /// most 65535 of them.
    pub fn to_bytes(&self) -> (r: Vec<u8>)
        requires
            step_valid(self@),
        ensures
            r@ == step_bytes(self@),
    {
        match self {
            TransactionItem::Start(n) => {
                let mut res: Vec<u8> = vec![0u8];
                let mut number = u32_to_bytes(*n);
                res.append(&mut number);
                assert(res@ =~= seq![0u8] + le_u32(*n));
                res
            },
            TransactionItem::Rollback(n) => {
                let mut res: Vec<u8> = vec![1u8];
                let mut number = u32_to_bytes(*n);
                res.append(&mut number);
                assert(res@ =~= seq![1u8] + le_u32(*n));
                res
            },
            TransactionItem::Commit(n) => {
                let mut res: Vec<u8> = vec![2u8];
                let mut number = u32_to_bytes(*n);
                res.append(&mut number);
                assert(res@ =~= seq![2u8] + le_u32(*n));
                res
            },
            TransactionItem::Checkpoint => {
                let res: Vec<u8> = vec![3u8];
                assert(res@ =~= seq![3u8]);
                res
            },
            TransactionItem::Insert(row) => {
                let mut res: Vec<u8> = vec![4u8];
                let mut list = serialize_rows(row.as_slice());
                res.append(&mut list);
                assert(res@ =~= seq![4u8] + list_bytes(cells(row@)));
                res
            },
            TransactionItem::Delete(row) => {
                let mut res: Vec<u8> = vec![5u8];
                let mut list = serialize_rows(row.as_slice());
                res.append(&mut list);
                assert(res@ =~= seq![5u8] + list_bytes(cells(row@)));
                res
            },
        }
    }

    /// Reads an item. `None` where the bytes hold none.
    pub fn try_from_bytes(bytes: &[u8]) -> (r: Option<Self>)
        ensures
            match parse_step(bytes@) {
                Some(t) => r is Some && r.unwrap()@ == t,
                None => r is None,
            },
    {
        if bytes.len() < 1 {
            return None;
        }
        let marker: u8 = bytes[0];
        if marker <= 2 {
            if bytes.len() < 5 {
                return None;
            }
            let n = read_u32(bytes, 1);
            if marker == 0 {
                Some(TransactionItem::Start(n))
            } else if marker == 1 {
                Some(TransactionItem::Rollback(n))
            } else {
                Some(TransactionItem::Commit(n))
            }
        } else if marker == 3 {
            Some(TransactionItem::Checkpoint)
        } else if marker == 4 || marker == 5 {
            let rest = slice_subrange(bytes, 1, bytes.len());
            assert(rest@ =~= bytes@.skip(1));
            match try_deserialize_bytes(rest) {
                Some(row) => if marker == 4 {
                    Some(TransactionItem::Insert(row))
                } else {
                    Some(TransactionItem::Delete(row))
                },
                None => None,
            }
        } else {
            None
        }
    }

    /// Reads an item from bytes that hold one.
    pub fn from_bytes(bytes: &[u8]) -> (r: Self)
        requires
            parse_step(bytes@) is Some,
        ensures
            r@ == parse_step(bytes@).unwrap(),
    {
        TransactionItem::try_from_bytes(bytes).unwrap()
    }
}

} // verus!
