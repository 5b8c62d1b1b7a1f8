//! The pages of a database as a whole: what it means for them to be in
//! order, what they hold together, and what putting a row in or taking one
//! out makes of them.

use crate::page::{full_row, Page, page_len, PAGE_SIZE, rows_ok};
use crate::row::{Cell, conforms, row_valid, RowType, schema_ok};
use crate::table::{
    del, find, lemma_del, lemma_find, lemma_put, lemma_put_last, put, rank, sorted, to_map,
};
use vstd::prelude::*;

verus! {

/// The extent under which a page stands in the index.
pub open spec fn key_of(p: Page) -> (u32, u32, u32) {
    (p.header.end, p.header.start, p.header.count)
}

/// A page that the index of a database with this schema can hold: it is in
/// order, of this schema, and not empty.
pub open spec fn page_ok(p: Page, schema: Seq<RowType>) -> bool {
    p.wf() && p.schema@ == schema && p.rows().len() > 0
}

/// The pages of a database are in order: each stands under its greatest
/// identifier, and of two pages the one with the lesser identifiers ends
/// before the other starts.
pub open spec fn dir_ok(dir: Map<u32, (Page, Option<usize>)>, schema: Seq<RowType>) -> bool {
    &&& forall|e: u32| #[trigger]
        dir.contains_key(e) ==> page_ok(dir[e].0, schema) && dir[e].0.header.end == e
    &&& forall|a: u32, b: u32|
        #![trigger dir.contains_key(a), dir.contains_key(b)]
        dir.contains_key(a) && dir.contains_key(b) && a < b ==> a < dir[b].0.header.start
}

/// The page lies apart from every page of `dir`.
pub open spec fn apart(dir: Map<u32, (Page, Option<usize>)>, p: Page) -> bool {
    forall|e: u32| #[trigger]
        dir.contains_key(e) ==> e < p.header.start || p.header.end < dir[e].0.header.start
}

/// The page under `e` holds a row for `id`.
pub open spec fn holds(dir: Map<u32, (Page, Option<usize>)>, e: u32, id: u32) -> bool {
    dir.contains_key(e) && find(dir[e].0.rows(), id) is Some
}

/// The rows of all pages, as one map from identifier to row.
pub open spec fn page_map(dir: Map<u32, (Page, Option<usize>)>) -> Map<u32, Seq<Cell>> {
    Map::new(
        |id: u32| exists|e: u32| holds(dir, e, id),
        |id: u32| find(dir[choose|e: u32| holds(dir, e, id)].0.rows(), id).unwrap(),
    )
}

/// What a page of the index holds, as a mathematical value: its rows in
/// order, whether it differs from its block on disk, and the slot of the
/// data file that it was read from.
pub struct Leaf {
    pub rows: Seq<(u32, Seq<Cell>)>,
    pub dirty: bool,
    pub slot: Option<usize>,
}

/// What a page holds, with its slot.
pub open spec fn leaf_of(entry: (Page, Option<usize>)) -> Leaf {
    Leaf { rows: entry.0.rows(), dirty: entry.0.dirty, slot: entry.1 }
}

/// What the pages hold, each under its greatest identifier.
pub open spec fn layout(dir: Map<u32, (Page, Option<usize>)>) -> Map<u32, Leaf> {
    Map::new(|e: u32| dir.contains_key(e), |e: u32| leaf_of(dir[e]))
}

/// The page under `e` is the one that a row with this identifier goes to:
/// the first page that does not end before the identifier, or the last page
/// where every page ends before it.
pub open spec fn is_target(l: Map<u32, Leaf>, e: u32, id: u32) -> bool {
    l.contains_key(e) && if id <= e {
        forall|o: u32| l.contains_key(o) && id <= o ==> e <= o
    } else {
        forall|o: u32| l.contains_key(o) ==> o <= e
    }
}

/// The page that a row with this identifier goes to.
pub open spec fn target(l: Map<u32, Leaf>, id: u32) -> u32 {
    choose|e: u32| is_target(l, e, id)
}

/// The pages with a changed page of these rows put in: as it is where it
/// fits in a block, with the slot it had; else in two halves, the first
/// half of the rows, rounded down, and the rest, of which an empty half is
/// left out.
pub open spec fn stored(l: Map<u32, Leaf>, rows: Seq<(u32, Seq<Cell>)>, slot: Option<usize>) -> Map<
    u32,
    Leaf,
> {
    if page_len(rows) > PAGE_SIZE {
        let mid = rows.len() as int / 2;
        let head = rows.take(mid);
        let tail = rows.skip(mid);
        let with_head = if mid > 0 {
            l.insert(head.last().0, Leaf { rows: head, dirty: true, slot: None })
        } else {
            l
        };
        with_head.insert(tail.last().0, Leaf { rows: tail, dirty: true, slot: None })
    } else {
        l.insert(rows.last().0, Leaf { rows, dirty: true, slot })
    }
}

/// The pages after a row is put into the page it goes to; into no pages it
/// goes as a page of its own.
pub open spec fn inserted(l: Map<u32, Leaf>, id: u32, v: Seq<Cell>) -> Map<u32, Leaf> {
    if forall|o: u32| !l.contains_key(o) {
        stored(l, seq![(id, v)], None)
    } else {
        let t = target(l, id);
        stored(l.remove(t), put(l[t].rows, id, v), l[t].slot)
    }
}

/// The page under `e` holds a row for `id`.
pub open spec fn leaf_holds(l: Map<u32, Leaf>, e: u32, id: u32) -> bool {
    l.contains_key(e) && find(l[e].rows, id) is Some
}

/// The pages after the row of `id` is taken out of the page that holds it:
/// a page that is left empty is left out. Where no page holds a row for
/// `id`, the pages as they are.
pub open spec fn removed(l: Map<u32, Leaf>, id: u32) -> Map<u32, Leaf> {
    if exists|e: u32| leaf_holds(l, e, id) {
        let t = choose|e: u32| leaf_holds(l, e, id);
        let rows = del(l[t].rows, id);
        if rows.len() == 0 {
            l.remove(t)
        } else {
            l.remove(t).insert(rows.last().0, Leaf { rows, dirty: true, slot: l[t].slot })
        }
    } else {
        l
    }
}

/// The pages after the pending rows are put in, one by one in ascending
/// order of identifier.
pub open spec fn folded(l: Map<u32, Leaf>, pending: Seq<(u32, Seq<Cell>)>) -> Map<u32, Leaf>
    decreases pending.len(),
{
    if pending.len() == 0 {
        l
    } else {
        inserted(folded(l, pending.drop_last()), pending.last().0, pending.last().1)
    }
}

/// One page at most is the one that a row goes to.
pub proof fn lemma_target(l: Map<u32, Leaf>, e: u32, id: u32)
    requires
        is_target(l, e, id),
    ensures
        target(l, id) == e,
{
    let t = target(l, id);
    assert(is_target(l, t, id));
}

/// A page that is in order and not empty starts at its first row and ends at
/// its last; neither identifier is zero.
pub proof fn lemma_page_span(p: Page)
    requires
        p.wf(),
        p.rows().len() > 0,
    ensures
        p.header.start == p.rows()[0].0,
        p.header.end == p.rows().last().0,
        0 < p.header.start <= p.header.end,
        forall|i: int| 0 <= i < p.rows().len() ==> p.header.start <= (#[trigger] p.rows()[i]).0
            <= p.header.end,
{
    let e = p.rows();
    assert(crate::page::row_ok(full_row(e[0]), p.schema@));
    assert(full_row(e[0])[0] == Cell::Id(e[0].0));
    assert forall|i: int| 0 <= i < e.len() implies p.header.start <= (#[trigger] e[i]).0
        <= p.header.end by {
        if 0 < i {
            assert(e[0].0 < e[i].0);
        }
        if i < e.len() - 1 {
            assert(e[i].0 < e[e.len() - 1].0);
        }
    }
}

/// A row that a page holds lies within the page's extent.
pub proof fn lemma_held_in_span(p: Page, id: u32)
    requires
        p.wf(),
        find(p.rows(), id) is Some,
    ensures
        p.rows().len() > 0,
        p.header.start <= id <= p.header.end,
{
    lemma_find(p.rows(), id);
    lemma_page_span(p);
    let i = rank(p.rows(), id);
    assert(p.rows()[i].0 == id);
}

/// No page that is in order holds a row for the identifier zero.
pub proof fn lemma_no_zero(dir: Map<u32, (Page, Option<usize>)>, schema: Seq<RowType>)
    requires
        dir_ok(dir, schema),
    ensures
        !page_map(dir).contains_key(0),
        forall|e: u32| !leaf_holds(layout(dir), e, 0),
{
    assert forall|e: u32| !holds(dir, e, 0) by {
        if holds(dir, e, 0) {
            lemma_held_in_span(dir[e].0, 0);
            lemma_page_span(dir[e].0);
        }
    }
    assert forall|e: u32| !leaf_holds(layout(dir), e, 0) by {
        assert(!holds(dir, e, 0));
    }
}

/// Among pages in order, one page at most holds a row for an identifier,
/// and the map of all rows has that row.
pub proof fn lemma_owner(dir: Map<u32, (Page, Option<usize>)>, schema: Seq<RowType>, e: u32, id: u32)
    requires
        dir_ok(dir, schema),
        holds(dir, e, id),
    ensures
        forall|o: u32| holds(dir, o, id) ==> o == e,
        page_map(dir).contains_key(id),
        page_map(dir)[id] == find(dir[e].0.rows(), id).unwrap(),
{
    lemma_held_in_span(dir[e].0, id);
    assert forall|o: u32| holds(dir, o, id) implies o == e by {
        lemma_held_in_span(dir[o].0, id);
        if o < e {
            assert(dir.contains_key(o) && dir.contains_key(e));
        } else if e < o {
            assert(dir.contains_key(e) && dir.contains_key(o));
        }
    }
    let c = choose|o: u32| holds(dir, o, id);
    assert(holds(dir, c, id));
}

/// Without one of its pages, the pages are still in order, and the map of
/// all rows has lost the rows of that page.
#[verifier::rlimit(50)]
pub proof fn lemma_page_map_remove(
    dir: Map<u32, (Page, Option<usize>)>,
    schema: Seq<RowType>,
    e: u32,
)
    requires
        dir_ok(dir, schema),
        dir.contains_key(e),
    ensures
        dir_ok(dir.remove(e), schema),
        apart(dir.remove(e), dir[e].0),
        page_map(dir.remove(e)) == page_map(dir).remove_keys(to_map(dir[e].0.rows()).dom()),
{
    let less = dir.remove(e);
    let gone = to_map(dir[e].0.rows()).dom();
    lemma_page_span(dir[e].0);
    assert(dir_ok(less, schema)) by {
        assert forall|a: u32, b: u32|
            #![trigger less.contains_key(a), less.contains_key(b)]
            less.contains_key(a) && less.contains_key(b) && a < b implies a
            < less[b].0.header.start by {
            assert(dir.contains_key(a) && dir.contains_key(b));
        }
    }
    assert(apart(less, dir[e].0)) by {
        assert forall|o: u32| #[trigger] less.contains_key(o) implies o < dir[e].0.header.start
            || dir[e].0.header.end < less[o].0.header.start by {
            lemma_page_span(dir[o].0);
            if o < e {
                assert(dir.contains_key(o) && dir.contains_key(e));
            } else {
                assert(dir.contains_key(e) && dir.contains_key(o));
            }
        }
    }
    assert forall|id: u32| #[trigger]
        page_map(less).contains_key(id) <==> page_map(dir).contains_key(id) && !gone.contains(
            id,
        ) by {
        if page_map(less).contains_key(id) {
            let o = choose|o: u32| holds(less, o, id);
            assert(holds(dir, o, id));
            lemma_owner(dir, schema, o, id);
            if gone.contains(id) {
                assert(holds(dir, e, id));
            }
        }
        if page_map(dir).contains_key(id) && !gone.contains(id) {
            let o = choose|o: u32| holds(dir, o, id);
            assert(o != e);
            assert(holds(less, o, id));
        }
    }
    assert forall|id: u32| #[trigger] page_map(less).contains_key(id) implies page_map(less)[id]
        == page_map(dir)[id] by {
        let o = choose|o: u32| holds(less, o, id);
        assert(holds(dir, o, id));
        lemma_owner(dir, schema, o, id);
        lemma_owner(less, schema, o, id);
    }
    assert(page_map(less) =~= page_map(dir).remove_keys(gone));
}

/// With one more page that lies apart from the others, the pages are still
/// in order, and the map of all rows has gained the rows of that page.
#[verifier::rlimit(50)]
pub proof fn lemma_page_map_insert(
    dir: Map<u32, (Page, Option<usize>)>,
    schema: Seq<RowType>,
    p: Page,
    slot: Option<usize>,
)
    requires
        dir_ok(dir, schema),
        page_ok(p, schema),
        apart(dir, p),
    ensures
        !dir.contains_key(p.header.end),
        dir_ok(dir.insert(p.header.end, (p, slot)), schema),
        page_map(dir.insert(p.header.end, (p, slot))) == page_map(dir).union_prefer_right(
            to_map(p.rows()),
        ),
{
    let e = p.header.end;
    let more = dir.insert(e, (p, slot));
    lemma_page_span(p);
    if dir.contains_key(e) {
        lemma_page_span(dir[e].0);
    }
    assert(dir_ok(more, schema)) by {
        assert forall|a: u32, b: u32|
            #![trigger more.contains_key(a), more.contains_key(b)]
            more.contains_key(a) && more.contains_key(b) && a < b implies a
            < more[b].0.header.start by {
            if a == e {
                assert(dir.contains_key(b));
                lemma_page_span(dir[b].0);
            } else if b == e {
                assert(dir.contains_key(a));
                lemma_page_span(dir[a].0);
            } else {
                assert(dir.contains_key(a) && dir.contains_key(b));
            }
        }
    }
    let added = to_map(p.rows());
    assert forall|id: u32| #[trigger]
        page_map(more).contains_key(id) <==> page_map(dir).contains_key(id) || added.contains_key(
            id,
        ) by {
        if page_map(more).contains_key(id) {
            let o = choose|o: u32| holds(more, o, id);
            if o != e {
                assert(holds(dir, o, id));
            }
        }
        if page_map(dir).contains_key(id) {
            let o = choose|o: u32| holds(dir, o, id);
            assert(holds(more, o, id));
        }
        if added.contains_key(id) {
            assert(holds(more, e, id));
        }
    }
    assert forall|id: u32| #[trigger] page_map(more).contains_key(id) implies page_map(more)[id]
        == page_map(dir).union_prefer_right(added)[id] by {
        let o = choose|o: u32| holds(more, o, id);
        lemma_owner(more, schema, o, id);
        if added.contains_key(id) {
            assert(holds(more, e, id));
        } else {
            assert(holds(dir, o, id));
            lemma_owner(dir, schema, o, id);
        }
    }
    assert(page_map(more) =~= page_map(dir).union_prefer_right(added));
}

/// Two pages lie apart: one ends before the other starts.
pub open spec fn lie_apart(a: Page, b: Page) -> bool {
    a.header.end < b.header.start || b.header.end < a.header.start
}

/// Of the pages that are not empty, every two lie apart.
pub open spec fn all_apart(pages: Seq<(Page, Option<usize>)>) -> bool {
    forall|i: int, j: int|
        0 <= i < j < pages.len() && (#[trigger] pages[i]).0.rows().len() > 0 && (
        #[trigger] pages[j]).0.rows().len() > 0 ==> lie_apart(pages[i].0, pages[j].0)
}

/// Two pages with one slot that hold the same: rows, header, size, schema
/// and whether they differ from disk.
pub open spec fn same_page(a: (Page, Option<usize>), b: (Page, Option<usize>)) -> bool {
    &&& a.0.rows() == b.0.rows()
    &&& a.0.header == b.0.header
    &&& a.0.size == b.0.size
    &&& a.0.dirty == b.0.dirty
    &&& a.0.schema@ == b.0.schema@
    &&& a.1 == b.1
}

/// The number of bytes that a cell of this kind takes, where every cell of
/// the kind takes as many.
pub open spec fn kind_width(t: RowType) -> nat {
    match t {
        RowType::Id => 4,
        RowType::U32 => 4,
        RowType::Bool => 1,
        RowType::Bytes => 0,
    }
}

/// Every row of the schema takes as many bytes: it has no column of byte
/// strings.
pub open spec fn fixed_width(schema: Seq<RowType>) -> bool {
    forall|i: int| 0 <= i < schema.len() ==> #[trigger] schema[i] != RowType::Bytes
}

/// The number of bytes that a row of a schema without byte strings takes.
pub open spec fn schema_width(schema: Seq<RowType>) -> nat
    decreases schema.len(),
{
    if schema.len() == 0 {
        0
    } else {
        kind_width(schema[0]) + schema_width(schema.skip(1))
    }
}

/// A row of a schema without byte strings takes the schema's width.
pub proof fn lemma_row_width(row: Seq<Cell>, schema: Seq<RowType>)
    requires
        conforms(row, schema),
        fixed_width(schema),
    ensures
        crate::row::row_len(row) == schema_width(schema),
    decreases row.len(),
{
    if row.len() > 0 {
        let rest = row.skip(1);
        assert(conforms(rest, schema.skip(1))) by {
            assert forall|i: int| 0 <= i < rest.len() implies crate::row::kind_of(
                #[trigger] rest[i],
            ) == schema.skip(1)[i] by {
                assert(rest[i] == row[i + 1]);
            }
        }
        assert(fixed_width(schema.skip(1))) by {
            assert forall|i: int| 0 <= i < schema.skip(1).len() implies #[trigger] schema.skip(
                1,
            )[i] != RowType::Bytes by {
                assert(schema.skip(1)[i] == schema[i + 1]);
            }
        }
        assert(crate::row::kind_of(row[0]) == schema[0]);
        assert(schema[0] != RowType::Bytes);
        lemma_row_width(rest, schema.skip(1));
    }
}

/// Rows of a schema without byte strings take, together, the schema's
/// width each.
pub proof fn lemma_entries_width(e: Seq<(u32, Seq<Cell>)>, schema: Seq<RowType>)
    requires
        rows_ok(e, schema),
        fixed_width(schema),
    ensures
        crate::page::entries_len(e) == e.len() * schema_width(schema),
    decreases e.len(),
{
    if e.len() > 0 {
        let rest = e.skip(1);
        assert(rows_ok(rest, schema)) by {
            assert forall|i: int| 0 <= i < rest.len() implies crate::page::row_ok(
                full_row(#[trigger] rest[i]),
                schema,
            ) by {
                assert(rest[i] == e[i + 1]);
            }
        }
        assert(crate::page::row_ok(full_row(e[0]), schema));
        lemma_row_width(full_row(e[0]), schema);
        lemma_entries_width(rest, schema);
        let w = schema_width(schema) as int;
        assert(e.len() * w == w + (e.len() - 1) * w) by (nonlinear_arith);
    }
}

/// Where rows of one width fit in a block and one more row is put in, each
/// half of them fits in a block, and so do they all where they are one
/// row that fits.
pub proof fn lemma_halves_fit(
    before: Seq<(u32, Seq<Cell>)>,
    after: Seq<(u32, Seq<Cell>)>,
    schema: Seq<RowType>,
)
    requires
        rows_ok(before, schema),
        rows_ok(after, schema),
        fixed_width(schema),
        12 + schema_width(schema) <= PAGE_SIZE,
        before.len() == 0 || page_len(before) <= PAGE_SIZE,
        after.len() <= before.len() + 1,
        page_len(after) > PAGE_SIZE,
    ensures
        page_len(after.take(after.len() as int / 2)) <= PAGE_SIZE,
        page_len(after.skip(after.len() as int / 2)) <= PAGE_SIZE,
{
    let w = schema_width(schema) as int;
    let n = before.len() as int;
    let m = after.len() as int;
    let mid = m / 2;
    let head = after.take(mid);
    let tail = after.skip(mid);
    assert(rows_ok(head, schema)) by {
        assert forall|i: int| 0 <= i < head.len() implies crate::page::row_ok(
            full_row(#[trigger] head[i]),
            schema,
        ) by {
            assert(head[i] == after[i]);
        }
    }
    assert(rows_ok(tail, schema)) by {
        assert forall|i: int| 0 <= i < tail.len() implies crate::page::row_ok(
            full_row(#[trigger] tail[i]),
            schema,
        ) by {
            assert(tail[i] == after[mid + i]);
        }
    }
    lemma_entries_width(before, schema);
    lemma_entries_width(after, schema);
    lemma_entries_width(head, schema);
    lemma_entries_width(tail, schema);
    assert(m * w > PAGE_SIZE - 12);
    assert(m >= 2) by (nonlinear_arith)
        requires
            m * w > PAGE_SIZE - 12,
            12 + w <= PAGE_SIZE,
            m >= 0,
            w >= 0,
    ;
    assert(n >= 1);
    assert(head.len() <= n && tail.len() <= n);
    assert(head.len() * w <= n * w) by (nonlinear_arith)
        requires
            head.len() <= n,
            w >= 0,
    ;
    assert(tail.len() * w <= n * w) by (nonlinear_arith)
        requires
            tail.len() <= n,
            w >= 0,
    ;
}

/// The page under `e` can take a row with this identifier and still lie
/// apart from every other page: the pages below it end before the
/// identifier, and the pages above it start after it.
pub open spec fn has_room(dir: Map<u32, (Page, Option<usize>)>, e: u32, id: u32) -> bool {
    forall|o: u32| #[trigger]
        dir.contains_key(o) ==> (o < e ==> o < id) && (e < o ==> id < dir[o].0.header.start)
}

/// A page that has taken a row for which it had room lies apart from every
/// other page.
#[verifier::rlimit(50)]
pub proof fn lemma_apart_after_put(
    dir: Map<u32, (Page, Option<usize>)>,
    schema: Seq<RowType>,
    e: u32,
    id: u32,
    v: Seq<Cell>,
    page: Page,
)
    requires
        dir_ok(dir, schema),
        dir.contains_key(e),
        has_room(dir, e, id),
        page.wf(),
        page.rows() == put(dir[e].0.rows(), id, v),
    ensures
        page.rows().len() > 0,
        apart(dir.remove(e), page),
{
    let rows = dir[e].0.rows();
    let after = page.rows();
    let less = dir.remove(e);
    lemma_put(rows, id, v);
    lemma_page_span(dir[e].0);
    lemma_page_span(page);
    let a = after[0];
    let b = after[after.len() - 1];
    if a != (id, v) {
        let i = choose|i: int| 0 <= i < rows.len() && rows[i] == a;
        assert(rows[i] == a);
    }
    if b != (id, v) {
        let j = choose|j: int| 0 <= j < rows.len() && rows[j] == b;
        assert(rows[j] == b);
    }
    assert forall|o: u32| #[trigger] less.contains_key(o) implies o < page.header.start
        || page.header.end < less[o].0.header.start by {
        assert(dir.contains_key(o) && o != e);
        if o < e {
            assert(dir.contains_key(o) && dir.contains_key(e));
        } else {
            assert(dir.contains_key(e) && dir.contains_key(o));
        }
    }
}

/// A first page of one row gives the map of all rows that row.
pub proof fn lemma_first_page(
    dir: Map<u32, (Page, Option<usize>)>,
    schema: Seq<RowType>,
    id: u32,
    v: Seq<Cell>,
)
    requires
        forall|o: u32| !dir.contains_key(o),
    ensures
        page_map(dir).union_prefer_right(to_map(seq![(id, v)])) == page_map(dir).insert(id, v),
        forall|o: u32| !layout(dir).contains_key(o),
{
    let none = Seq::<(u32, Seq<Cell>)>::empty();
    lemma_put(none, id, v);
    assert(put(none, id, v) =~= seq![(id, v)]);
    assert forall|q: u32| !page_map(dir).contains_key(q) by {}
    assert forall|q: u32| !to_map(none).contains_key(q) by {}
    assert(page_map(dir).union_prefer_right(to_map(seq![(id, v)])) =~= page_map(dir).insert(
        id,
        v,
    ));
}

/// Where pages that fit in a block get a page of rows of one width that has
/// taken one row, as it is or in halves, every page fits in a block.
pub proof fn lemma_fit_after_store(
    less: Map<u32, (Page, Option<usize>)>,
    more: Map<u32, (Page, Option<usize>)>,
    schema: Seq<RowType>,
    before: Seq<(u32, Seq<Cell>)>,
    after: Seq<(u32, Seq<Cell>)>,
    slot: Option<usize>,
)
    requires
        layout(more) == stored(layout(less), after, slot),
        rows_ok(before, schema),
        rows_ok(after, schema),
        after.len() <= before.len() + 1,
        before.len() == 0 || page_len(before) <= PAGE_SIZE,
    ensures
        (forall|e: u32| #[trigger] less.contains_key(e) ==> page_len(less[e].0.rows())
            <= PAGE_SIZE) && fixed_width(schema) && 12 + schema_width(schema) <= PAGE_SIZE ==> (
        forall|e: u32| #[trigger] more.contains_key(e) ==> page_len(more[e].0.rows())
            <= PAGE_SIZE),
{
    if (forall|e: u32| #[trigger] less.contains_key(e) ==> page_len(less[e].0.rows())
        <= PAGE_SIZE) && fixed_width(schema) && 12 + schema_width(schema) <= PAGE_SIZE {
        if page_len(after) > PAGE_SIZE {
            lemma_halves_fit(before, after, schema);
        }
        assert forall|e: u32| #[trigger] more.contains_key(e) implies page_len(more[e].0.rows())
            <= PAGE_SIZE by {
            assert(layout(more).contains_key(e));
            assert(layout(more)[e].rows == more[e].0.rows());
            if layout(less).contains_key(e) {
                assert(less.contains_key(e));
                assert(layout(less)[e].rows == less[e].0.rows());
            }
        }
    }
}

/// Rows that a page can hold are still such rows without one of them.
pub proof fn lemma_rows_ok_del(e: Seq<(u32, Seq<Cell>)>, schema: Seq<RowType>, k: u32)
    requires
        sorted(e),
        rows_ok(e, schema),
    ensures
        rows_ok(del(e, k), schema),
{
    lemma_del(e, k);
    let n = del(e, k);
    assert forall|i: int| 0 <= i < n.len() implies crate::page::row_ok(
        full_row(#[trigger] n[i]),
        schema,
    ) by {
        let j = choose|j: int| 0 <= j < e.len() && e[j] == n[i];
        assert(e[j] == n[i]);
    }
}

/// Rows that a page can hold are still such rows with one more of them.
pub proof fn lemma_rows_ok_put(e: Seq<(u32, Seq<Cell>)>, schema: Seq<RowType>, k: u32, v: Seq<Cell>)
    requires
        sorted(e),
        rows_ok(e, schema),
        crate::page::row_ok(full_row((k, v)), schema),
    ensures
        rows_ok(put(e, k, v), schema),
{
    lemma_put(e, k, v);
    let n = put(e, k, v);
    assert forall|i: int| 0 <= i < n.len() implies crate::page::row_ok(
        full_row(#[trigger] n[i]),
        schema,
    ) by {
        if n[i] != (k, v) {
            let j = choose|j: int| 0 <= j < e.len() && e[j] == n[i];
            assert(e[j] == n[i]);
        }
    }
}

/// A page whose rows are all rows of another page lies within that page's
/// extent, and so apart from every page that the other lies apart from.
pub proof fn lemma_span_within(old_page: Page, new_page: Page)
    requires
        old_page.wf(),
        new_page.wf(),
        new_page.rows().len() > 0,
        forall|i: int|
            0 <= i < new_page.rows().len() ==> exists|j: int|
                0 <= j < old_page.rows().len() && old_page.rows()[j] == #[trigger] new_page.rows()[i],
    ensures
        old_page.rows().len() > 0,
        old_page.header.start <= new_page.header.start,
        new_page.header.end <= old_page.header.end,
        forall|dir: Map<u32, (Page, Option<usize>)>|
            apart(dir, old_page) ==> #[trigger] apart(dir, new_page),
{
    let a = new_page.rows();
    let b = old_page.rows();
    let i = choose|i: int| 0 <= i < b.len() && b[i] == a[0];
    assert(b[i] == a[0]);
    let j = choose|j: int| 0 <= j < b.len() && b[j] == a[a.len() - 1];
    assert(b[j] == a[a.len() - 1]);
    lemma_page_span(old_page);
    lemma_page_span(new_page);
}

/// Where the page under `e` loses the row of `id`, which no other page
/// holds, the map of all rows loses it and nothing else.
pub proof fn lemma_page_map_swap_remove(
    dir: Map<u32, (Page, Option<usize>)>,
    schema: Seq<RowType>,
    e: u32,
    id: u32,
)
    requires
        dir_ok(dir, schema),
        dir.contains_key(e),
        forall|o: u32| holds(dir, o, id) ==> o == e,
    ensures
        page_map(dir.remove(e)).union_prefer_right(to_map(del(dir[e].0.rows(), id))) == page_map(
            dir,
        ).remove(id),
{
    let rows = dir[e].0.rows();
    lemma_page_map_remove(dir, schema, e);
    lemma_del(rows, id);
    let less = page_map(dir.remove(e));
    let kept = to_map(del(rows, id));
    assert forall|q: u32| #[trigger] to_map(rows).contains_key(q) implies page_map(
        dir,
    ).contains_key(q) && page_map(dir)[q] == to_map(rows)[q] by {
        assert(holds(dir, e, q));
        lemma_owner(dir, schema, e, q);
    }
    assert(!less.contains_key(id)) by {
        if less.contains_key(id) {
            let o = choose|o: u32| holds(dir, o, id);
            assert(holds(dir, o, id));
            assert(holds(dir, e, id));
        }
    }
    assert(less.union_prefer_right(kept) =~= page_map(dir).remove(id));
}

/// Where the page under `e` takes a row, the map of all rows takes it and
/// is else as it was.
pub proof fn lemma_page_map_swap_insert(
    dir: Map<u32, (Page, Option<usize>)>,
    schema: Seq<RowType>,
    e: u32,
    id: u32,
    v: Seq<Cell>,
)
    requires
        dir_ok(dir, schema),
        dir.contains_key(e),
    ensures
        page_map(dir.remove(e)).union_prefer_right(to_map(put(dir[e].0.rows(), id, v)))
            == page_map(dir).insert(id, v),
{
    let rows = dir[e].0.rows();
    lemma_page_map_remove(dir, schema, e);
    lemma_put(rows, id, v);
    let less = page_map(dir.remove(e));
    assert forall|q: u32| #[trigger] to_map(rows).contains_key(q) implies page_map(
        dir,
    ).contains_key(q) && page_map(dir)[q] == to_map(rows)[q] by {
        assert(holds(dir, e, q));
        lemma_owner(dir, schema, e, q);
    }
    assert(less.union_prefer_right(to_map(put(rows, id, v))) =~= page_map(dir).insert(id, v));
}

/// A whole row that a page of the schema can hold has a non-zero
/// identifier, and after it the cells that the schema asks for there.
pub proof fn lemma_whole_row_parts(e: (u32, Seq<Cell>), schema: Seq<RowType>)
    requires
        schema_ok(schema),
        crate::page::row_ok(full_row(e), schema),
    ensures
        e.0 != 0,
        conforms(e.1, schema.skip(1)),
        row_valid(e.1),
{
    let whole = full_row(e);
    assert(whole[0] == Cell::Id(e.0));
    assert(crate::row::cell_valid(whole[0]));
    assert forall|i: int| 0 <= i < e.1.len() implies crate::row::kind_of(#[trigger] e.1[i])
        == schema.skip(1)[i] && crate::row::cell_valid(e.1[i]) by {
        assert(whole[i + 1] == e.1[i]);
    }
}

/// The map of the first `i + 1` of ascending entries is the map of the first
/// `i` with the next entry put in.
pub proof fn lemma_to_map_take(e: Seq<(u32, Seq<Cell>)>, i: int)
    requires
        sorted(e),
        0 <= i < e.len(),
    ensures
        to_map(e.take(i + 1)) == to_map(e.take(i)).insert(e[i].0, e[i].1),
{
    let a = e.take(i);
    assert(sorted(a)) by {
        assert forall|x: int, y: int| 0 <= x < y < a.len() implies (#[trigger] a[x]).0 < (
        #[trigger] a[y]).0 by {
            assert(a[x] == e[x]);
            assert(a[y] == e[y]);
        }
    }
    if a.len() > 0 {
        assert(a.last() == e[i - 1]);
        assert(e[i - 1].0 < e[i].0);
    }
    lemma_put_last(a, e[i].0, e[i].1);
    lemma_put(a, e[i].0, e[i].1);
    assert(a.push(e[i]) =~= e.take(i + 1));
}

/// A row that the schema asks for after the identifier is, with a non-zero
/// identifier before it, a whole row that a page of the schema can hold.
pub proof fn lemma_whole_row_ok(e: (u32, Seq<Cell>), schema: Seq<RowType>)
    requires
        schema_ok(schema),
        e.0 != 0,
        conforms(e.1, schema.skip(1)),
        row_valid(e.1),
    ensures
        crate::page::row_ok(full_row(e), schema),
        rows_ok(seq![e], schema),
{
    let whole = full_row(e);
    assert(whole[0] == Cell::Id(e.0));
    assert(conforms(whole, schema)) by {
        assert forall|i: int| 0 <= i < whole.len() implies crate::row::kind_of(#[trigger] whole[i])
            == schema[i] by {
            if i > 0 {
                assert(whole[i] == e.1[i - 1]);
                assert(schema.skip(1)[i - 1] == schema[i]);
            }
        }
    }
    assert(row_valid(whole)) by {
        assert forall|i: int| 0 <= i < whole.len() implies crate::row::cell_valid(
            #[trigger] whole[i],
        ) by {
            if i > 0 {
                assert(whole[i] == e.1[i - 1]);
            }
        }
    }
}

} // verus!
