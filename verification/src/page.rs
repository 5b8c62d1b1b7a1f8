//! Pages: the fixed-size blocks of the data file.
//!
//! A page holds rows in ascending order of identifier under a header of
//! twelve bytes. Its block is the header, then the rows, each led by its
//! identifier, then zeros up to `PAGE_SIZE`.

use crate::row::{
    cell_len, cells, clone_values, conforms, kind_of, lemma_parse_row_round_trip,
    lemma_parse_row_sound, lemma_row_bytes_len, lemma_row_bytes_one,
    parse_row, row_bytes, row_id, row_len, row_valid, schema_ok, split_row, try_bytes_to_values,
    valid_schema, values_to_bytes, Cell, RowType, RowVal,
};
use crate::table::{
    del, find, lemma_del, lemma_put, lemma_put_all_append, lemma_put_last, put,
    put_all, sorted, RowMap,
};
use crate::utils::{le_u32, lemma_u32_round_trip, read_u32, u32_le, u32_to_bytes};
use vstd::prelude::*;
use vstd::slice::{slice_subrange, slice_to_vec};

verus! {

/// The size of a page's block on disk.
pub const PAGE_SIZE: usize = 4096;

/// The header of a page: its greatest and least identifier, and the number
/// of its rows. An empty page has 1 for both identifiers.
#[derive(Debug, Clone, Copy, PartialEq, Eq, PartialOrd, Ord, Hash)]
pub struct PageHeader {
    pub end: u32,
    pub start: u32,
    pub count: u32,
}

/// A page of rows.
#[derive(Debug, PartialEq, Eq, PartialOrd, Ord, Hash)]
pub struct Page {
    pub header: PageHeader,
    /// The rows, each without its identifier, under their identifiers.
    pub data: RowMap,
    /// Whether the page differs from its block on disk.
    pub dirty: bool,
    /// The number of bytes that header and rows take; the page is split when
    /// this is above `PAGE_SIZE`.
    pub size: usize,
    pub schema: Vec<RowType>,
}

/// `n`, or the greatest `u32` where `n` is above it.
pub open spec fn clip_u32(n: int) -> u32 {
    if n > u32::MAX {
        u32::MAX
    } else {
        n as u32
    }
}

/// `n`, or the greatest `usize` where `n` is above it.
pub open spec fn clip_usize(n: int) -> usize {
    if n > usize::MAX {
        usize::MAX
    } else {
        n as usize
    }
}

/// The twelve bytes of a header: end, start, count.
pub open spec fn header_bytes(h: PageHeader) -> Seq<u8> {
    le_u32(h.end) + le_u32(h.start) + le_u32(h.count)
}

/// The header that belongs to ascending rows.
pub open spec fn header_of(e: Seq<(u32, Seq<Cell>)>) -> PageHeader {
    PageHeader {
        end: if e.len() == 0 {
            1
        } else {
            e.last().0
        },
        start: if e.len() == 0 {
            1
        } else {
            e[0].0
        },
        count: clip_u32(e.len() as int),
    }
}

/// An entry as a whole row: the identifier's cell, then the other cells.
pub open spec fn full_row(e: (u32, Seq<Cell>)) -> Seq<Cell> {
    seq![Cell::Id(e.0)] + e.1
}

/// The entries as whole rows.
pub open spec fn full_rows(e: Seq<(u32, Seq<Cell>)>) -> Seq<Seq<Cell>> {
    e.map_values(|x: (u32, Seq<Cell>)| full_row(x))
}

/// Whole rows as they are handed to a page, cells only.
pub open spec fn rows_view(d: Seq<Vec<RowVal>>) -> Seq<Seq<Cell>> {
    d.map_values(|r: Vec<RowVal>| cells(r@))
}

/// A whole row that a page of this schema can hold.
pub open spec fn row_ok(row: Seq<Cell>, schema: Seq<RowType>) -> bool {
    conforms(row, schema) && row_valid(row)
}

/// Every entry is a row that a page of this schema can hold.
pub open spec fn rows_ok(e: Seq<(u32, Seq<Cell>)>, schema: Seq<RowType>) -> bool {
    forall|i: int| 0 <= i < e.len() ==> row_ok(full_row(#[trigger] e[i]), schema)
}

/// The encoding of the rows, one after the other.
pub open spec fn entries_bytes(e: Seq<(u32, Seq<Cell>)>) -> Seq<u8>
    decreases e.len(),
{
    if e.len() == 0 {
        Seq::empty()
    } else {
        row_bytes(full_row(e[0])) + entries_bytes(e.skip(1))
    }
}

/// The number of bytes that the rows' encodings take.
pub open spec fn entries_len(e: Seq<(u32, Seq<Cell>)>) -> nat
    decreases e.len(),
{
    if e.len() == 0 {
        0
    } else {
        row_len(full_row(e[0])) + entries_len(e.skip(1))
    }
}

/// The number of bytes that header and rows take.
pub open spec fn page_len(e: Seq<(u32, Seq<Cell>)>) -> nat {
    12 + entries_len(e)
}

/// The encoding of a page without its padding.
pub open spec fn page_bytes(e: Seq<(u32, Seq<Cell>)>) -> Seq<u8> {
    header_bytes(header_of(e)) + entries_bytes(e)
}

/// The block of a page: its encoding, then zeros up to `PAGE_SIZE`.
pub open spec fn page_block(e: Seq<(u32, Seq<Cell>)>) -> Seq<u8> {
    page_bytes(e) + Seq::new((PAGE_SIZE - page_len(e)) as nat, |i: int| 0u8)
}

/// The page that whole rows make when they are put in one by one: a later
/// row takes the place of an earlier one with its identifier.
pub open spec fn build(rows: Seq<Seq<Cell>>) -> Seq<(u32, Seq<Cell>)>
    decreases rows.len(),
{
    if rows.len() == 0 {
        Seq::empty()
    } else {
        put(build(rows.drop_last()), row_id(rows.last()), rows.last().skip(1))
    }
}

/// What reading `count` rows from the start of `bytes` gives: the rows and
/// the number of bytes they took, or nothing where a row cannot be read.
pub open spec fn parse_rows(bytes: Seq<u8>, schema: Seq<RowType>, count: nat) -> Option<
    (Seq<Seq<Cell>>, int),
>
    decreases count,
{
    if count == 0 {
        Some((Seq::empty(), 0))
    } else {
        match parse_row(bytes, schema) {
            None => None,
            Some((r, n)) => match parse_rows(bytes.skip(n), schema, (count - 1) as nat) {
                None => None,
                Some((rs, m)) => Some((seq![r] + rs, n + m)),
            },
        }
    }
}

/// The rows read so far, followed by what the rest of the bytes gives.
pub open spec fn rows_after(
    acc: Seq<Seq<Cell>>,
    used: int,
    rest: Option<(Seq<Seq<Cell>>, int)>,
) -> Option<(Seq<Seq<Cell>>, int)> {
    match rest {
        None => None,
        Some((rs, m)) => Some((acc + rs, used + m)),
    }
}

/// What reading a page from `bytes` gives: the whole rows in the order in
/// which they stand, or nothing where the header is cut short, an identifier
/// in it is zero, or one of the rows it counts cannot be read.
pub open spec fn parse_page(bytes: Seq<u8>, schema: Seq<RowType>) -> Option<Seq<Seq<Cell>>> {
    if bytes.len() < 12 || u32_le(bytes) == 0 || u32_le(bytes.skip(4)) == 0 {
        None
    } else {
        match parse_rows(bytes.skip(12), schema, u32_le(bytes.skip(8)) as nat) {
            None => None,
            Some((rows, _)) => Some(rows),
        }
    }
}

/// A whole row takes four bytes for its identifier, then its cells' bytes.
pub proof fn lemma_full_row(e: (u32, Seq<Cell>))
    ensures
        row_bytes(full_row(e)) == le_u32(e.0) + row_bytes(e.1),
        row_len(full_row(e)) == 4 + row_len(e.1),
        row_id(full_row(e)) == e.0,
        full_row(e).skip(1) == e.1,
{
    assert(full_row(e).skip(1) =~= e.1);
    assert(full_row(e)[0] == Cell::Id(e.0));
}

/// The rows' encodings have the length that `entries_len` gives.
pub proof fn lemma_entries_bytes_len(e: Seq<(u32, Seq<Cell>)>)
    ensures
        entries_bytes(e).len() == entries_len(e),
    decreases e.len(),
{
    if e.len() > 0 {
        lemma_row_bytes_len(full_row(e[0]));
        lemma_entries_bytes_len(e.skip(1));
    }
}

/// The encoding of rows in a line is their encodings in a line.
pub proof fn lemma_entries_concat(a: Seq<(u32, Seq<Cell>)>, b: Seq<(u32, Seq<Cell>)>)
    ensures
        entries_bytes(a + b) == entries_bytes(a) + entries_bytes(b),
        entries_len(a + b) == entries_len(a) + entries_len(b),
    decreases a.len(),
{
    if a.len() == 0 {
        assert(a + b =~= b);
        assert(entries_bytes(a) + entries_bytes(b) =~= entries_bytes(b));
    } else {
        lemma_entries_concat(a.skip(1), b);
        assert((a + b).skip(1) =~= a.skip(1) + b);
        assert((a + b)[0] == a[0]);
        assert(entries_bytes(a + b) =~= entries_bytes(a) + entries_bytes(b));
    }
}

/// One more row adds its own encoding at the end.
pub proof fn lemma_entries_push(e: Seq<(u32, Seq<Cell>)>, x: (u32, Seq<Cell>))
    ensures
        entries_bytes(e.push(x)) == entries_bytes(e) + le_u32(x.0) + row_bytes(x.1),
        entries_len(e.push(x)) == entries_len(e) + 4 + row_len(x.1),
{
    let one = seq![x];
    assert(e.push(x) =~= e + one);
    lemma_entries_concat(e, one);
    lemma_full_row(x);
    assert(one.skip(1) =~= Seq::<(u32, Seq<Cell>)>::empty());
    assert(entries_bytes(one.skip(1)) =~= Seq::<u8>::empty());
    assert(entries_len(one.skip(1)) == 0);
    assert(entries_bytes(one) =~= row_bytes(full_row(x)));
    assert(entries_bytes(e.push(x)) =~= entries_bytes(e) + le_u32(x.0) + row_bytes(x.1));
}

/// Every row takes four bytes at the least.
pub proof fn lemma_entries_len_min(e: Seq<(u32, Seq<Cell>)>)
    ensures
        entries_len(e) >= 4 * e.len(),
    decreases e.len(),
{
    if e.len() > 0 {
        lemma_full_row(e[0]);
        lemma_entries_len_min(e.skip(1));
    }
}

/// Rows that a page can hold are read back from their encodings, whatever
/// follows them.
pub proof fn lemma_parse_rows_round_trip(
    e: Seq<(u32, Seq<Cell>)>,
    schema: Seq<RowType>,
    rest: Seq<u8>,
)
    requires
        rows_ok(e, schema),
    ensures
        parse_rows(entries_bytes(e) + rest, schema, e.len()) == Some(
            (full_rows(e), entries_len(e) as int),
        ),
    decreases e.len(),
{
    if e.len() == 0 {
        assert(full_rows(e) =~= Seq::<Seq<Cell>>::empty());
    } else {
        let tail = e.skip(1);
        let bytes = entries_bytes(e) + rest;
        let row = full_row(e[0]);
        lemma_row_bytes_len(row);
        lemma_parse_row_round_trip(row, schema, entries_bytes(tail) + rest);
        assert(bytes =~= row_bytes(row) + (entries_bytes(tail) + rest));
        assert(bytes.skip(row_len(row) as int) =~= entries_bytes(tail) + rest);
        assert(rows_ok(tail, schema)) by {
            assert forall|i: int| 0 <= i < tail.len() implies row_ok(
                full_row(#[trigger] tail[i]),
                schema,
            ) by {
                assert(tail[i] == e[i + 1]);
            }
        }
        lemma_parse_rows_round_trip(tail, schema, rest);
        assert(seq![row] + full_rows(tail) =~= full_rows(e));
    }
}

/// Ascending rows put in one by one make the page that holds them in their
/// order.
pub proof fn lemma_build_full_rows(e: Seq<(u32, Seq<Cell>)>)
    requires
        sorted(e),
    ensures
        build(full_rows(e)) == e,
    decreases e.len(),
{
    if e.len() == 0 {
        assert(full_rows(e) =~= Seq::<Seq<Cell>>::empty());
        assert(build(full_rows(e)) =~= e);
    } else {
        let d = e.drop_last();
        assert(full_rows(e).drop_last() =~= full_rows(d));
        assert(sorted(d)) by {
            assert forall|i: int, j: int| 0 <= i < j < d.len() implies (#[trigger] d[i]).0 < (
            #[trigger] d[j]).0 by {
                assert(d[i] == e[i]);
                assert(d[j] == e[j]);
            }
        }
        lemma_build_full_rows(d);
        lemma_full_row(e.last());
        assert(full_rows(e).last() == full_row(e.last()));
        if d.len() > 0 {
            assert(d.last() == e[e.len() - 2]);
            assert(e[e.len() - 2].0 < e[e.len() - 1].0);
        }
        lemma_put_last(d, e.last().0, e.last().1);
        assert(d.push(e.last()) =~= e);
    }
}

/// A page of rows that it can hold is read back from its encoding, whatever
/// follows it: the rows come back in their order, and putting them in one by
/// one makes the page again.
pub proof fn lemma_page_round_trip(e: Seq<(u32, Seq<Cell>)>, schema: Seq<RowType>, rest: Seq<u8>)
    requires
        sorted(e),
        rows_ok(e, schema),
        e.len() <= u32::MAX,
    ensures
        parse_page(page_bytes(e) + rest, schema) == Some(full_rows(e)),
        build(full_rows(e)) == e,
{
    let h = header_of(e);
    let bytes = page_bytes(e) + rest;
    let r1 = le_u32(h.start) + le_u32(h.count) + entries_bytes(e) + rest;
    let r2 = le_u32(h.count) + entries_bytes(e) + rest;
    let r3 = entries_bytes(e) + rest;
    lemma_u32_round_trip(h.end, r1);
    lemma_u32_round_trip(h.start, r2);
    lemma_u32_round_trip(h.count, r3);
    assert(bytes =~= le_u32(h.end) + r1);
    assert(bytes.skip(4) =~= le_u32(h.start) + r2);
    assert(bytes.skip(8) =~= le_u32(h.count) + r3);
    assert(bytes.skip(12) =~= entries_bytes(e) + rest);
    if e.len() > 0 {
        assert(row_ok(full_row(e[0]), schema));
        assert(full_row(e[0])[0] == Cell::Id(e[0].0));
        assert(row_ok(full_row(e[e.len() - 1]), schema));
        assert(full_row(e[e.len() - 1])[0] == Cell::Id(e[e.len() - 1].0));
    }
    lemma_parse_rows_round_trip(e, schema, rest);
    lemma_build_full_rows(e);
}

/// Parting ascending rows in two and putting the second part's rows into
/// the first gives the rows again, in their order.
pub proof fn lemma_split_merge(e: Seq<(u32, Seq<Cell>)>, mid: int)
    requires
        sorted(e),
        0 <= mid <= e.len(),
    ensures
        put_all(e.take(mid), e.skip(mid)) == e,
{
    assert(e.take(mid) + e.skip(mid) =~= e);
    lemma_put_all_append(e.take(mid), e.skip(mid));
}

/// `a + b`, or the greatest `usize` where the sum is above it.
fn sat_add(a: usize, b: usize) -> (r: usize)
    ensures
        r == clip_usize(a + b),
{
    if a > usize::MAX - b {
        usize::MAX
    } else {
        a + b
    }
}

/// The number of bytes that a row's encoding takes, or the greatest `usize`
/// where it is above it.
fn row_size(row: &[RowVal]) -> (r: usize)
    ensures
        r == clip_usize(row_len(cells(row@)) as int),
{
    let mut total: usize = 0;
    let mut i: usize = 0;
    assert(cells(row@).take(0) =~= Seq::<Cell>::empty());
    while i < row.len()
        invariant
            i <= row.len(),
            total == clip_usize(row_len(cells(row@).take(i as int)) as int),
        decreases row.len() - i,
    {
        let n: usize = match &row[i] {
            RowVal::Id(_) => 4,
            RowVal::U32(_) => 4,
            RowVal::Bytes(b) => sat_add(b.len(), 2),
            RowVal::Bool(_) => 1,
        };
        proof {
            let cs = cells(row@);
            let c = cs[i as int];
            assert(n == clip_usize(cell_len(c) as int));
            assert(cs.take(i + 1) =~= cs.take(i as int) + seq![c]);
            crate::row::lemma_row_len_concat(cs.take(i as int), seq![c]);
            lemma_row_bytes_one(c);
        }
        total = sat_add(total, n);
        i = i + 1;
    }
    assert(cells(row@).take(i as int) =~= cells(row@));
    total
}

/// The header that belongs to the rows.
fn header_for(data: &RowMap) -> (r: PageHeader)
    ensures
        r == header_of(data.seq()),
{
    let n: usize = data.len();
    let count: u32 = if n > u32::MAX as usize {
        u32::MAX
    } else {
        n as u32
    };
    match (data.first_key(), data.last_key()) {
        (Some(start), Some(end)) => PageHeader { end, start, count },
        _ => PageHeader { end: 1, start: 1, count },
    }
}

/// The number of bytes that header and rows take, or the greatest `usize`
/// where it is above it.
fn measure(data: &RowMap) -> (r: usize)
    ensures
        r == clip_usize(page_len(data.seq()) as int),
{
    let mut total: usize = 12;
    let mut i: usize = 0;
    assert(data.seq().take(0) =~= Seq::<(u32, Seq<Cell>)>::empty());
    while i < data.len()
        invariant
            i <= data.seq().len(),
            total == clip_usize(12 + entries_len(data.seq().take(i as int)) as int),
        decreases data.seq().len() - i,
    {
        let n = row_size(data.row_at(i).as_slice());
        proof {
            let e = data.seq();
            assert(e.take(i + 1) =~= e.take(i as int).push(e[i as int]));
            lemma_entries_push(e.take(i as int), e[i as int]);
        }
        total = sat_add(total, sat_add(4, n));
        i = i + 1;
    }
    assert(data.seq().take(i as int) =~= data.seq());
    total
}

impl PageHeader {
    /// The header's twelve bytes: end, start, count, each little-endian.
    pub fn to_bytes(self) -> (r: Vec<u8>)
        ensures
            r@ == header_bytes(self),
    {
        let mut res = u32_to_bytes(self.end);
        let mut start = u32_to_bytes(self.start);
        let mut count = u32_to_bytes(self.count);
        res.append(&mut start);
        res.append(&mut count);
        res
    }

    /// Reads a header from the first twelve bytes. `None` where there are
    /// fewer bytes, or where end or start is zero.
    pub fn try_from_slice(bytes: &[u8]) -> (r: Option<Self>)
        ensures
            r is Some <==> bytes@.len() >= 12 && u32_le(bytes@) != 0 && u32_le(bytes@.skip(4)) != 0,
            r is Some ==> r.unwrap() == (PageHeader {
                end: u32_le(bytes@),
                start: u32_le(bytes@.skip(4)),
                count: u32_le(bytes@.skip(8)),
            }),
    {
        if bytes.len() < 12 {
            return None;
        }
        let end = read_u32(bytes, 0);
        let start = read_u32(bytes, 4);
        let count = read_u32(bytes, 8);
        assert(bytes@.skip(0) =~= bytes@);
        if end == 0 || start == 0 {
            None
        } else {
            Some(PageHeader { end, start, count })
        }
    }

    /// Reads a header from its twelve bytes. Neither end nor start is zero.
    pub fn from_bytes(bytes: &[u8; 12]) -> (r: Self)
        requires
            u32_le(bytes@) != 0,
            u32_le(bytes@.skip(4)) != 0,
        ensures
            r == (PageHeader {
                end: u32_le(bytes@),
                start: u32_le(bytes@.skip(4)),
                count: u32_le(bytes@.skip(8)),
            }),
    {
        PageHeader::try_from_slice(bytes.as_slice()).unwrap()
    }

    /// The number of bytes that a header takes.
    pub fn size() -> (r: usize)
        ensures
            r == 12,
    {
        12
    }
}

impl Clone for Page {
    fn clone(&self) -> (r: Self)
        ensures
            r.rows() == self.rows(),
            r.header == self.header,
            r.dirty == self.dirty,
            r.size == self.size,
            r.schema@ == self.schema@,
    {
        Page {
            header: self.header,
            data: self.data.clone(),
            dirty: self.dirty,
            size: self.size,
            schema: slice_to_vec(self.schema.as_slice()),
        }
    }
}

impl Page {
    /// The rows in order: identifier, and the cells after it.
    pub open spec fn rows(&self) -> Seq<(u32, Seq<Cell>)> {
        self.data.seq()
    }

    /// The page is in order: its rows ascend, each is one that its schema
    /// asks for and the format can hold, and header and size are those of
    /// the rows.
    pub open spec fn wf(&self) -> bool {
        &&& sorted(self.rows())
        &&& schema_ok(self.schema@)
        &&& rows_ok(self.rows(), self.schema@)
        &&& self.header == header_of(self.rows())
        &&& self.size == clip_usize(page_len(self.rows()) as int)
    }

    /// The page of the given rows, with header and size worked out.
    fn assemble(data: RowMap, schema: &[RowType], dirty: bool) -> (r: Self)
        requires
            data.wf(),
            schema_ok(schema@),
            rows_ok(data.seq(), schema@),
        ensures
            r.rows() == data.seq(),
            r.schema@ == schema@,
            r.dirty == dirty,
            r.wf(),
    {
        let header = header_for(&data);
        let size = measure(&data);
        Page { header, data, dirty, size, schema: slice_to_vec(schema) }
    }

    /// The page that the rows make when they are put in one by one. Every
    /// row is one that the schema asks for, its identifier first.
    #[verifier::rlimit(50)]
    pub fn new(data: &[Vec<RowVal>], schema: &[RowType]) -> (r: Self)
        requires
            schema_ok(schema@),
            forall|i: int| 0 <= i < data@.len() ==> row_ok(cells(#[trigger] data@[i]@), schema@),
        ensures
            r.rows() == build(rows_view(data@)),
            r.schema@ == schema@,
            !r.dirty,
            r.wf(),
    {
        let mut map = RowMap::new();
        let mut i: usize = 0;
        assert(rows_view(data@).take(0) =~= Seq::<Seq<Cell>>::empty());
        while i < data.len()
            invariant
                i <= data.len(),
                schema_ok(schema@),
                forall|i: int| 0 <= i < data@.len() ==> row_ok(cells(#[trigger] data@[i]@), schema@),
                map.wf(),
                map.seq() == build(rows_view(data@).take(i as int)),
                rows_ok(map.seq(), schema@),
            decreases data.len() - i,
        {
            let row = &data[i];
            let ghost whole = cells(row@);
            assert(row_ok(whole, schema@));
            assert(kind_of(whole[0]) == schema@[0]);
            let (id, tail) = split_row(row.as_slice());
            let vals = clone_values(tail);
            let ghost before = map.seq();
            proof {
                assert(cells(tail@) =~= whole.skip(1));
                assert(full_row((id, whole.skip(1))) =~= whole);
                lemma_put(before, id, whole.skip(1));
                let taken = rows_view(data@).take(i + 1);
                assert(taken.drop_last() =~= rows_view(data@).take(i as int));
                assert(taken.last() == whole);
            }
            map.insert(id, vals);
            i = i + 1;
        }
        assert(rows_view(data@).take(i as int) =~= rows_view(data@));
        Page::assemble(map, schema, false)
    }

    /// As `new`, for a page that is not on disk as it stands.
    pub fn new_dirty(data: &[Vec<RowVal>], schema: &[RowType]) -> (r: Self)
        requires
            schema_ok(schema@),
            forall|i: int| 0 <= i < data@.len() ==> row_ok(cells(#[trigger] data@[i]@), schema@),
        ensures
            r.rows() == build(rows_view(data@)),
            r.schema@ == schema@,
            r.dirty,
            r.wf(),
    {
        let mut page = Page::new(data, schema);
        page.dirty = true;
        page
    }

    /// The number of bytes that header and rows take.
    pub fn size(&self) -> (r: usize)
        ensures
            r == self.size,
    {
        self.size
    }

    /// The number of rows.
    pub fn len(&self) -> (r: usize)
        ensures
            r == self.rows().len(),
    {
        self.data.len()
    }

    /// Whether the page holds no row.
    pub fn is_empty(&self) -> (r: bool)
        ensures
            r == (self.rows().len() == 0),
    {
        self.len() == 0
    }

    /// Whether header and rows fit in one block.
    pub fn fits(&self) -> (r: bool)
        requires
            self.wf(),
        ensures
            r == (page_len(self.rows()) <= PAGE_SIZE),
    {
        self.size <= PAGE_SIZE
    }

    /// A copy of the row under `id`, without its identifier.
    pub fn get(&self, id: u32) -> (r: Option<Vec<RowVal>>)
        requires
            self.wf(),
        ensures
            match find(self.rows(), id) {
                Some(v) => r is Some && cells(r.unwrap()@) == v,
                None => r is None,
            },
    {
        self.data.get(id)
    }

    /// Puts a row in, in place of the one with its identifier if there is
    /// one. The row is one that the schema asks for, its identifier first.
    pub fn insert(&mut self, row: &[RowVal])
        requires
            old(self).wf(),
            row_ok(cells(row@), old(self).schema@),
        ensures
            final(self).rows() == put(
                old(self).rows(),
                row_id(cells(row@)),
                cells(row@).skip(1),
            ),
            final(self).schema@ == old(self).schema@,
            final(self).dirty,
            final(self).wf(),
    {
        let ghost whole = cells(row@);
        let ghost before = self.rows();
        assert(kind_of(whole[0]) == self.schema@[0]);
        let (id, tail) = split_row(row);
        let vals = clone_values(tail);
        proof {
            assert(cells(tail@) =~= whole.skip(1));
            assert(full_row((id, whole.skip(1))) =~= whole);
            lemma_put(before, id, whole.skip(1));
        }
        self.data.insert(id, vals);
        self.header = header_for(&self.data);
        self.size = measure(&self.data);
        self.dirty = true;
    }

    /// Takes the row under `id` out and hands it back. Where there is none
    /// the page stays as it is.
    pub fn remove(&mut self, id: u32) -> (r: Option<Vec<RowVal>>)
        requires
            old(self).wf(),
        ensures
            final(self).rows() == del(old(self).rows(), id),
            final(self).schema@ == old(self).schema@,
            final(self).dirty == (old(self).dirty || r is Some),
            final(self).wf(),
            match find(old(self).rows(), id) {
                Some(v) => r is Some && cells(r.unwrap()@) == v,
                None => r is None,
            },
    {
        proof {
            lemma_del(self.rows(), id);
        }
        match self.data.remove(id) {
            Some(val) => {
                self.header = header_for(&self.data);
                self.size = measure(&self.data);
                self.dirty = true;
                Some(val)
            },
            None => None,
        }
    }

    /// Parts the rows at the middle: the first half of them, rounded down,
    /// and the rest, each as a page that is not on disk.
    pub fn split(&self) -> (r: (Self, Self))
        requires
            self.wf(),
        ensures
            r.0.rows() == self.rows().take(self.rows().len() as int / 2),
            r.1.rows() == self.rows().skip(self.rows().len() as int / 2),
            r.0.schema@ == self.schema@,
            r.1.schema@ == self.schema@,
            r.0.dirty,
            r.1.dirty,
            r.0.wf(),
            r.1.wf(),
    {
        let len: usize = self.len();
        let mid: usize = len / 2;
        let head = self.data.range(0, mid);
        let tail = self.data.range(mid, len);
        proof {
            let e = self.rows();
            assert(head.seq() =~= e.take(mid as int));
            assert(tail.seq() =~= e.skip(mid as int));
            assert forall|i: int| 0 <= i < head.seq().len() implies row_ok(
                full_row(#[trigger] head.seq()[i]),
                self.schema@,
            ) by {
                assert(head.seq()[i] == e[i]);
            }
            assert forall|i: int| 0 <= i < tail.seq().len() implies row_ok(
                full_row(#[trigger] tail.seq()[i]),
                self.schema@,
            ) by {
                assert(tail.seq()[i] == e[mid + i]);
            }
        }
        (
            Page::assemble(head, self.schema.as_slice(), true),
            Page::assemble(tail, self.schema.as_slice(), true),
        )
    }

    /// Puts every row of `other` into this page; where both hold an
    /// identifier, the row of `other` stays. Both pages have one schema.
    pub fn merge(&mut self, other: Page)
        requires
            old(self).wf(),
            other.wf(),
            other.schema@ == old(self).schema@,
        ensures
            final(self).rows() == put_all(old(self).rows(), other.rows()),
            final(self).schema@ == old(self).schema@,
            final(self).dirty,
            final(self).wf(),
    {
        let ghost start = self.rows();
        let ghost schema = self.schema@;
        let mut i: usize = 0;
        assert(other.rows().take(0) =~= Seq::<(u32, Seq<Cell>)>::empty());
        while i < other.data.len()
            invariant
                i <= other.rows().len(),
                other.wf(),
                self.schema@ == schema,
                other.schema@ == schema,
                self.data.wf(),
                rows_ok(self.data.seq(), schema),
                self.data.seq() == put_all(start, other.rows().take(i as int)),
            decreases other.rows().len() - i,
        {
            let id = other.data.key_at(i);
            let vals = clone_values(other.data.row_at(i).as_slice());
            proof {
                let taken = other.rows().take(i + 1);
                assert(taken.drop_last() =~= other.rows().take(i as int));
                assert(taken.last() == other.rows()[i as int]);
                lemma_put(self.data.seq(), id, cells(vals@));
                assert(row_ok(full_row(other.rows()[i as int]), schema));
            }
            self.data.insert(id, vals);
            i = i + 1;
        }
        assert(other.rows().take(i as int) =~= other.rows());
        self.header = header_for(&self.data);
        self.size = measure(&self.data);
        self.dirty = true;
    }

    /// The page's encoding without padding: the header, then the rows in
    /// ascending order, each led by its identifier.
    pub fn to_bytes(&self) -> (r: Vec<u8>)
        requires
            self.wf(),
        ensures
            r@ == page_bytes(self.rows()),
    {
        let mut res = self.header.to_bytes();
        let mut i: usize = 0;
        assert(self.rows().take(0) =~= Seq::<(u32, Seq<Cell>)>::empty());
        assert(res@ =~= header_bytes(self.header) + entries_bytes(self.rows().take(0)));
        while i < self.data.len()
            invariant
                i <= self.rows().len(),
                self.wf(),
                res@ == header_bytes(self.header) + entries_bytes(self.rows().take(i as int)),
            decreases self.rows().len() - i,
        {
            let mut id = u32_to_bytes(self.data.key_at(i));
            let ghost row = self.rows()[i as int];
            proof {
                assert(row_ok(full_row(row), self.schema@));
                assert forall|j: int| 0 <= j < row.1.len() implies crate::row::cell_valid(
                    #[trigger] row.1[j],
                ) by {
                    assert(full_row(row)[j + 1] == row.1[j]);
                }
            }
            let mut cells = values_to_bytes(self.data.row_at(i).as_slice());
            proof {
                let e = self.rows();
                assert(e.take(i + 1) =~= e.take(i as int).push(row));
                lemma_entries_push(e.take(i as int), row);
            }
            res.append(&mut id);
            res.append(&mut cells);
            i = i + 1;
        }
        assert(self.rows().take(i as int) =~= self.rows());
        res
    }

    /// The page's block: its encoding, then zeros up to `PAGE_SIZE`. Header
    /// and rows fit in one block.
    pub fn to_page_bytes(&self) -> (r: Vec<u8>)
        requires
            self.wf(),
            page_len(self.rows()) <= PAGE_SIZE,
        ensures
            r@ == page_block(self.rows()),
            r@.len() == PAGE_SIZE,
    {
        let mut res = self.to_bytes();
        proof {
            lemma_entries_bytes_len(self.rows());
            lemma_u32_round_trip(self.header.end, Seq::empty());
            lemma_u32_round_trip(self.header.start, Seq::empty());
            lemma_u32_round_trip(self.header.count, Seq::empty());
        }
        let ghost body = res@;
        while res.len() < PAGE_SIZE
            invariant
                body.len() <= res@.len() <= PAGE_SIZE,
                res@ == body + Seq::new((res@.len() - body.len()) as nat, |i: int| 0u8),
            decreases PAGE_SIZE - res@.len(),
        {
            res.push(0u8);
            assert(res@ =~= body + Seq::new((res@.len() - body.len()) as nat, |i: int| 0u8));
        }
        res
    }

    /// Reads a page from its encoding: the header, then as many rows as it
    /// counts; what follows them is not read. The rows are put in one by
    /// one. `None` where the schema's first column is no identifier, or the
    /// bytes hold no such page.
    #[verifier::rlimit(50)]
    pub fn try_from_bytes(bytes: &[u8], schema: &[RowType]) -> (r: Option<Self>)
        ensures
            r is Some <==> schema_ok(schema@) && parse_page(bytes@, schema@) is Some,
            r is Some ==> r.unwrap().rows() == build(parse_page(bytes@, schema@).unwrap())
                && r.unwrap().schema@ == schema@ && !r.unwrap().dirty && r.unwrap().wf(),
    {
        if !valid_schema(schema) {
            return None;
        }
        let header = match PageHeader::try_from_slice(bytes) {
            None => {
                return None;
            },
            Some(header) => header,
        };
        let count: u32 = header.count;
        let mut rows: Vec<Vec<RowVal>> = Vec::new();
        let mut offset: usize = 12;
        let mut j: u32 = 0;
        let ghost body = bytes@.skip(12);
        proof {
            assert(body.skip(0) =~= body);
            match parse_rows(body, schema@, count as nat) {
                Some((rs, m)) => {
                    assert(rows_view(rows@) + rs =~= rs);
                },
                None => {},
            }
        }
        while j < count
            invariant
                j <= count,
                12 <= offset <= bytes@.len(),
                body == bytes@.skip(12),
                schema_ok(schema@),
                u32_le(bytes@) != 0,
                u32_le(bytes@.skip(4)) != 0,
                count == u32_le(bytes@.skip(8)),
                parse_rows(body, schema@, count as nat) == rows_after(
                    rows_view(rows@),
                    offset - 12,
                    parse_rows(body.skip(offset - 12), schema@, (count - j) as nat),
                ),
                forall|i: int| 0 <= i < rows@.len() ==> row_ok(cells(#[trigger] rows@[i]@), schema@),
            decreases count - j,
        {
            let rest = slice_subrange(bytes, offset, bytes.len());
            let ghost acc = rows_view(rows@);
            assert(rest@ =~= body.skip(offset - 12));
            match try_bytes_to_values(rest, schema) {
                None => {
                    return None;
                },
                Some((row, n)) => {
                    proof {
                        lemma_parse_row_sound(rest@, schema@);
                        assert(rest@.skip(n as int) =~= body.skip(offset - 12 + n));
                        match parse_rows(
                            body.skip(offset - 12 + n),
                            schema@,
                            (count - j - 1) as nat,
                        ) {
                            Some((rs, m)) => {
                                assert(acc.push(cells(row@)) + rs =~= acc + (seq![cells(row@)]
                                    + rs));
                            },
                            None => {},
                        }
                    }
                    rows.push(row);
                    assert(rows_view(rows@) =~= acc.push(cells(row@)));
                    offset = offset + n;
                    j = j + 1;
                },
            }
        }
        proof {
            assert(rows_view(rows@) + Seq::<Seq<Cell>>::empty() =~= rows_view(rows@));
        }
        Some(Page::new(rows.as_slice(), schema))
    }

    /// Reads a page from its encoding. The schema's first column is the
    /// identifier, and the bytes hold a page.
    pub fn from_bytes(bytes: &[u8], schema: &[RowType]) -> (r: Self)
        requires
            schema_ok(schema@),
            parse_page(bytes@, schema@) is Some,
        ensures
            r.rows() == build(parse_page(bytes@, schema@).unwrap()),
            r.schema@ == schema@,
            !r.dirty,
            r.wf(),
    {
        Page::try_from_bytes(bytes, schema).unwrap()
    }
}

} // verus!
