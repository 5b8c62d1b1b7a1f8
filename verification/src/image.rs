//! The data file as a sync leaves it.
//!
//! A sync hands back the blocks to write and the number of slots that the
//! file has afterwards. Writing them to a file that holds the clean pages at
//! their slots gives a file that holds every page at its place in the
//! index, so a database that is opened from it holds what the pages held.

use crate::db::{block_holds, blocks_apart, DB, image_map, parse_image};
use crate::index::index_keys;
use crate::layout::{dir_ok, holds, key_of, lemma_owner, lemma_page_span, page_map};
use crate::page::{
    build, full_rows, lemma_entries_bytes_len, lemma_entries_len_min, lemma_page_round_trip, Page,
    page_block, page_bytes, page_len, PAGE_SIZE, parse_page,
};
use crate::row::{Cell, RowType};
use crate::utils::lemma_u32_round_trip;
use crate::wal::{parse_log, replay, Action};
use vstd::prelude::*;

verus! {

/// What a sync asks of the data file: the blocks to write, each with the
/// slot to write it at, and the number of slots that the file has
/// afterwards.
#[derive(Debug, PartialEq, Eq)]
pub struct Image {
    pub writes: Vec<(usize, Vec<u8>)>,
    pub slots: usize,
}

/// The blocks to write, as slot and bytes.
pub open spec fn writes_view(writes: Seq<(usize, Vec<u8>)>) -> Seq<(int, Seq<u8>)> {
    writes.map_values(|w: (usize, Vec<u8>)| (w.0 as int, w.1@))
}

/// A page has to be written at a slot where it differs from its block on
/// disk, or was not read from that slot.
pub open spec fn needs_write(entry: (Page, Option<usize>), slot: int) -> bool {
    entry.0.dirty || match entry.1 {
        Some(s) => s != slot,
        None => true,
    }
}

/// The blocks that the pages ask to be written when they stand in the given
/// order: for each page that has to be written its block, at the slot of
/// its place in the order.
pub open spec fn writes_of(
    dir: Map<u32, (Page, Option<usize>)>,
    order: Seq<(u32, u32, u32)>,
) -> Seq<(int, Seq<u8>)>
    decreases order.len(),
{
    if order.len() == 0 {
        Seq::empty()
    } else {
        let rest = writes_of(dir, order.drop_last());
        let slot = order.len() - 1;
        let entry = dir[order.last().0];
        if needs_write(entry, slot) {
            rest.push((slot, page_block(entry.0.rows())))
        } else {
            rest
        }
    }
}

/// The file cut off at `len` bytes, or filled up to them with zeros.
pub open spec fn resized(file: Seq<u8>, len: int) -> Seq<u8> {
    Seq::new(
        len as nat,
        |i: int|
            if i < file.len() {
                file[i]
            } else {
                0u8
            },
    )
}

/// The file with a block in place of the bytes at a slot.
pub open spec fn with_block(file: Seq<u8>, slot: int, block: Seq<u8>) -> Seq<u8> {
    Seq::new(
        file.len(),
        |i: int|
            if slot * PAGE_SIZE <= i < (slot + 1) * PAGE_SIZE {
                block[i - slot * PAGE_SIZE]
            } else {
                file[i]
            },
    )
}

/// The bytes at a slot.
pub open spec fn block_at(file: Seq<u8>, slot: int) -> Seq<u8> {
    file.subrange(slot * PAGE_SIZE, (slot + 1) * PAGE_SIZE)
}

/// The file after it is brought to `slots` blocks and the blocks are
/// written to it, one after the other.
pub open spec fn written(file: Seq<u8>, writes: Seq<(int, Seq<u8>)>, slots: nat) -> Seq<u8>
    decreases writes.len(),
{
    if writes.len() == 0 {
        resized(file, slots * PAGE_SIZE)
    } else {
        with_block(
            written(file, writes.drop_last(), slots),
            writes.last().0,
            writes.last().1,
        )
    }
}

/// The file holds every page that a sync does not write: at the slot of its
/// place in the order stands a block that gives the page's rows.
pub open spec fn on_disk(
    dir: Map<u32, (Page, Option<usize>)>,
    schema: Seq<RowType>,
    order: Seq<(u32, u32, u32)>,
    file: Seq<u8>,
) -> bool {
    forall|i: int|
        0 <= i < order.len() && !needs_write(dir[(#[trigger] order[i]).0], i) ==> (i + 1)
            * PAGE_SIZE <= file.len() && parse_page(block_at(file, i), schema) is Some && build(
            parse_page(block_at(file, i), schema).unwrap(),
        ) == dir[order[i].0].0.rows()
}

/// The pages that the blocks of a file give, block by block.
pub open spec fn blocks_of(file: Seq<u8>, schema: Seq<RowType>, slots: nat) -> Seq<Seq<Seq<Cell>>> {
    Seq::new(slots, |i: int| parse_page(block_at(file, i), schema).unwrap())
}

impl Image {
    /// Every block has `PAGE_SIZE` bytes and a slot within the file.
    pub open spec fn wf(&self) -> bool {
        forall|w: int|
            0 <= w < self.writes@.len() ==> (#[trigger] self.writes@[w]).0 < self.slots
                && self.writes@[w].1@.len() == PAGE_SIZE
    }

    /// Writes the image to a data file that is held in memory: the file is
    /// brought to the image's number of blocks, and each block is written at
    /// its slot.
    #[verifier::rlimit(50)]
    pub fn apply(&self, file: &mut Vec<u8>)
        requires
            self.wf(),
            self.slots * PAGE_SIZE <= usize::MAX,
        ensures
            final(file)@ == written(old(file)@, writes_view(self.writes@), self.slots as nat),
    {
        let len: usize = self.slots * PAGE_SIZE;
        let ghost before = file@;
        file.truncate(len);
        while file.len() < len
            invariant
                file@.len() <= len,
                before.len() <= file@.len() || file@.len() == len,
                file@ == resized(before, file@.len() as int),
            decreases len - file@.len(),
        {
            file.push(0u8);
            assert(file@ =~= resized(before, file@.len() as int));
        }
        let mut w: usize = 0;
        assert(writes_view(self.writes@).take(0) =~= Seq::<(int, Seq<u8>)>::empty());
        while w < self.writes.len()
            invariant
                w <= self.writes@.len(),
                self.wf(),
                len == self.slots * PAGE_SIZE,
                file@.len() == len,
                file@ == written(before, writes_view(self.writes@).take(w as int), self.slots as nat),
            decreases self.writes@.len() - w,
        {
            let slot: usize = self.writes[w].0;
            let ghost block = self.writes@[w as int].1@;
            let ghost base = file@;
            assert(slot < self.slots);
            assert((slot + 1) * PAGE_SIZE <= len) by (nonlinear_arith)
                requires
                    slot < self.slots,
                    len == self.slots * PAGE_SIZE,
            ;
            let start: usize = slot * PAGE_SIZE;
            let mut j: usize = 0;
            while j < PAGE_SIZE
                invariant
                    j <= PAGE_SIZE,
                    start == slot * PAGE_SIZE,
                    start + PAGE_SIZE <= len,
                    file@.len() == len,
                    w < self.writes@.len(),
                    block == self.writes@[w as int].1@,
                    block.len() == PAGE_SIZE,
                    forall|i: int|
                        0 <= i < len ==> file@[i] == (if start <= i < start + j {
                            block[i - start]
                        } else {
                            base[i]
                        }),
                decreases PAGE_SIZE - j,
            {
                file.set(start + j, self.writes[w].1[j]);
                j = j + 1;
            }
            proof {
                assert(file@ =~= with_block(base, slot as int, block));
                let taken = writes_view(self.writes@).take(w + 1);
                assert(taken.drop_last() =~= writes_view(self.writes@).take(w as int));
                assert(taken.last() == (slot as int, block));
            }
            w = w + 1;
        }
        assert(writes_view(self.writes@).take(w as int) =~= writes_view(self.writes@));
    }
}

/// The block of a page that fits in a block has `PAGE_SIZE` bytes, and gives
/// the page's rows when it is read.
pub proof fn lemma_block_read_back(e: Seq<(u32, Seq<Cell>)>, schema: Seq<RowType>)
    requires
        crate::table::sorted(e),
        crate::page::rows_ok(e, schema),
        page_len(e) <= PAGE_SIZE,
    ensures
        page_block(e).len() == PAGE_SIZE,
        parse_page(page_block(e), schema) == Some(full_rows(e)),
        build(full_rows(e)) == e,
{
    let h = crate::page::header_of(e);
    lemma_entries_bytes_len(e);
    lemma_entries_len_min(e);
    lemma_u32_round_trip(h.end, Seq::empty());
    lemma_u32_round_trip(h.start, Seq::empty());
    lemma_u32_round_trip(h.count, Seq::empty());
    assert(page_bytes(e).len() == page_len(e));
    lemma_page_round_trip(e, schema, Seq::new((PAGE_SIZE - page_len(e)) as nat, |i: int| 0u8));
}

/// The blocks that a sync writes of the first `k` pages in the order stand
/// in the file, each at the slot of its page's place; every other block is
/// as it was in the file at its new length.
#[verifier::rlimit(50)]
pub proof fn lemma_written_blocks(
    dir: Map<u32, (Page, Option<usize>)>,
    schema: Seq<RowType>,
    order: Seq<(u32, u32, u32)>,
    file: Seq<u8>,
    k: int,
)
    requires
        0 <= k <= order.len(),
        forall|i: int|
            0 <= i < order.len() ==> dir.contains_key((#[trigger] order[i]).0),
        dir_ok(dir, schema),
        forall|e: u32| #[trigger] dir.contains_key(e) ==> page_len(dir[e].0.rows()) <= PAGE_SIZE,
    ensures
        written(file, writes_of(dir, order.take(k)), order.len()).len() == order.len() * PAGE_SIZE,
        forall|i: int|
            0 <= i < order.len() ==> #[trigger] block_at(
                written(file, writes_of(dir, order.take(k)), order.len()),
                i,
            ) == (if i < k && needs_write(dir[order[i].0], i) {
                page_block(dir[order[i].0].0.rows())
            } else {
                block_at(resized(file, order.len() * PAGE_SIZE), i)
            }),
    decreases k,
{
    let n = order.len();
    if k == 0 {
        assert(order.take(0) =~= Seq::<(u32, u32, u32)>::empty());
    } else {
        lemma_written_blocks(dir, schema, order, file, k - 1);
        let prev = written(file, writes_of(dir, order.take(k - 1)), n);
        let taken = order.take(k);
        assert(taken.drop_last() =~= order.take(k - 1));
        assert(taken.last() == order[k - 1]);
        let entry = dir[order[k - 1].0];
        if needs_write(entry, k - 1) {
            let block = page_block(entry.0.rows());
            assert(dir.contains_key(order[k - 1].0));
            lemma_block_read_back(entry.0.rows(), schema);
            let now = with_block(prev, k - 1, block);
            let rest = writes_of(dir, order.take(k - 1));
            assert(writes_of(dir, taken) == rest.push((k - 1, block)));
            assert(rest.push((k - 1, block)).drop_last() =~= rest);
            assert(written(file, writes_of(dir, taken), n) == now);
            assert forall|i: int| 0 <= i < n implies #[trigger] block_at(now, i) == (if i < k
                && needs_write(dir[order[i].0], i) {
                page_block(dir[order[i].0].0.rows())
            } else {
                block_at(resized(file, n * PAGE_SIZE), i)
            }) by {
                if i == k - 1 {
                    assert(block_at(now, i) =~= block);
                } else {
                    assert(block_at(now, i) =~= block_at(prev, i));
                }
            }
        }
    }
}

/// What pages that fit in a block ask to be written are whole blocks, at
/// slots below the number of pages.
pub proof fn lemma_writes_are_blocks(
    dir: Map<u32, (Page, Option<usize>)>,
    schema: Seq<RowType>,
    order: Seq<(u32, u32, u32)>,
)
    requires
        forall|i: int|
            0 <= i < order.len() ==> dir.contains_key((#[trigger] order[i]).0),
        dir_ok(dir, schema),
        forall|e: u32| #[trigger] dir.contains_key(e) ==> page_len(dir[e].0.rows()) <= PAGE_SIZE,
    ensures
        forall|w: int|
            0 <= w < writes_of(dir, order).len() ==> 0 <= (#[trigger] writes_of(dir, order)[w]).0
                < order.len() && writes_of(dir, order)[w].1.len() == PAGE_SIZE,
    decreases order.len(),
{
    if order.len() > 0 {
        let rest = order.drop_last();
        assert forall|i: int| 0 <= i < rest.len() implies dir.contains_key(
            (#[trigger] rest[i]).0,
        ) by {
            assert(rest[i] == order[i]);
        }
        lemma_writes_are_blocks(dir, schema, rest);
        let entry = dir[order.last().0];
        assert(dir.contains_key(order[order.len() - 1].0));
        lemma_block_read_back(entry.0.rows(), schema);
        let all = writes_of(dir, order);
        let fewer = writes_of(dir, rest);
        assert forall|w: int| 0 <= w < all.len() implies 0 <= (#[trigger] all[w]).0 < order.len()
            && all[w].1.len() == PAGE_SIZE by {
            if w < fewer.len() {
                assert(all[w] == fewer[w]);
            }
        }
    }
}

/// What a sync hands back, where every page fits in a block, is whole
/// blocks at slots within the file.
pub proof fn lemma_image_wf(db: DB, image: Image)
    requires
        db.wf(),
        db.all_fit(),
        db.image_ok(image),
    ensures
        image.wf(),
{
    let order = choose|order: Seq<(u32, u32, u32)>| #[trigger]
        db.is_order(order) && image.slots == order.len() && writes_view(image.writes@)
            == writes_of(db.pages@, order);
    assert forall|i: int| 0 <= i < order.len() implies db.pages@.contains_key(
        (#[trigger] order[i]).0,
    ) by {
        assert(order.contains(order[i]));
        assert(index_keys(db.index).contains(order[i]));
    }
    lemma_writes_are_blocks(db.pages@, db.schema@, order);
    assert forall|w: int| 0 <= w < image.writes@.len() implies (#[trigger] image.writes@[w]).0
        < image.slots && image.writes@[w].1@.len() == PAGE_SIZE by {
        assert(writes_view(image.writes@)[w] == (image.writes@[w].0 as int, image.writes@[w].1@));
    }
}

/// A file of whole blocks, each of which holds a page, is read as its
/// pages, block by block.
pub proof fn lemma_parse_image_blocks(file: Seq<u8>, schema: Seq<RowType>, slots: nat)
    requires
        file.len() == slots * PAGE_SIZE,
        forall|i: int| 0 <= i < slots ==> parse_page(#[trigger] block_at(file, i), schema) is Some,
    ensures
        parse_image(file, schema) == Some(blocks_of(file, schema, slots)),
    decreases slots,
{
    if slots == 0 {
        assert(blocks_of(file, schema, slots) =~= Seq::<Seq<Seq<Cell>>>::empty());
    } else {
        let rest = file.skip(PAGE_SIZE as int);
        assert(file.take(PAGE_SIZE as int) =~= block_at(file, 0));
        assert forall|i: int| 0 <= i < slots - 1 implies #[trigger] block_at(rest, i) == block_at(
            file,
            i + 1,
        ) by {
            assert(block_at(rest, i) =~= block_at(file, i + 1));
        }
        assert forall|i: int| 0 <= i < slots - 1 implies parse_page(
            #[trigger] block_at(rest, i),
            schema,
        ) is Some by {
            assert(block_at(rest, i) == block_at(file, i + 1));
        }
        lemma_parse_image_blocks(rest, schema, (slots - 1) as nat);
        assert(seq![parse_page(block_at(file, 0), schema).unwrap()] + blocks_of(
            rest,
            schema,
            (slots - 1) as nat,
        ) =~= blocks_of(file, schema, slots));
    }
}

/// Where a file holds the clean pages of a database at their slots, and what
/// a sync asks for is written to it, the file holds every page at its place
/// in the index: it is read as these pages, which lie apart, and their rows
/// are the rows of the database's pages. So a database that is opened from
/// the file and an empty log, which holds the rows of the file's pages,
/// holds what the pages of this one hold.
#[verifier::rlimit(50)]
pub proof fn lemma_image_read_back(db: DB, order: Seq<(u32, u32, u32)>, file: Seq<u8>)
    requires
        db.wf(),
        db.all_fit(),
        db.is_order(order),
        on_disk(db.pages@, db.schema@, order, file),
    ensures
        ({
            let now = written(file, writes_of(db.pages@, order), order.len());
            let blocks = blocks_of(now, db.schema@, order.len());
            &&& now.len() == order.len() * PAGE_SIZE
            &&& parse_image(now, db.schema@) == Some(blocks)
            &&& forall|i: int|
                0 <= i < order.len() ==> build(#[trigger] blocks[i]) == db.pages@[order[i].0].0.rows()
            &&& blocks_apart(blocks)
            &&& image_map(blocks) == db.page_map()
            &&& image_map(blocks).union_prefer_right(
                replay(parse_log(Seq::empty(), db.schema@)),
            ) == db.page_map()
        }),
{
    let dir = db.pages@;
    let schema = db.schema@;
    let n = order.len();
    let now = written(file, writes_of(dir, order), n);
    let blocks = blocks_of(now, schema, n);
    assert forall|i: int| 0 <= i < n implies dir.contains_key((#[trigger] order[i]).0) && key_of(
        dir[order[i].0].0,
    ) == order[i] by {
        assert(order.contains(order[i]));
        assert(index_keys(db.index).contains(order[i]));
    }
    assert(order.take(n as int) =~= order);
    lemma_written_blocks(dir, schema, order, file, n as int);
    assert forall|i: int| 0 <= i < n implies parse_page(#[trigger] block_at(now, i), schema)
        is Some && build(parse_page(block_at(now, i), schema).unwrap()) == dir[order[i].0].0.rows() by {
        let rows = dir[order[i].0].0.rows();
        assert(dir.contains_key(order[i].0));
        if needs_write(dir[order[i].0], i) {
            lemma_block_read_back(rows, schema);
        } else {
            assert(block_at(resized(file, n * PAGE_SIZE), i) =~= block_at(file, i));
        }
    }
    lemma_parse_image_blocks(now, schema, n);
    assert forall|i: int| 0 <= i < n implies build(#[trigger] blocks[i]) == dir[order[i].0].0.rows() by {
        assert(blocks[i] == parse_page(block_at(now, i), schema).unwrap());
    }
    assert(blocks_apart(blocks)) by {
        assert forall|i: int, j: int|
            0 <= i < j < blocks.len() && (#[trigger] build(blocks[i])).len() > 0 && (
            #[trigger] build(blocks[j])).len() > 0 implies build(blocks[i]).last().0 < build(
            blocks[j],
        )[0].0 || build(blocks[j]).last().0 < build(blocks[i])[0].0 by {
            let a = order[i].0;
            let b = order[j].0;
            assert(dir.contains_key(a) && dir.contains_key(b));
            lemma_page_span(dir[a].0);
            lemma_page_span(dir[b].0);
            assert(order[i] != order[j]);
            if a < b {
                assert(dir.contains_key(a) && dir.contains_key(b));
            } else if b < a {
                assert(dir.contains_key(b) && dir.contains_key(a));
            }
        }
    }
    assert forall|id: u32| #[trigger]
        image_map(blocks).contains_key(id) <==> page_map(dir).contains_key(id) by {
        if image_map(blocks).contains_key(id) {
            let j = choose|j: int| block_holds(blocks, j, id);
            assert(holds(dir, order[j].0, id));
        }
        if page_map(dir).contains_key(id) {
            let e = choose|e: u32| holds(dir, e, id);
            let k = key_of(dir[e].0);
            assert(index_keys(db.index).contains(k));
            assert(order.contains(k));
            let j = choose|j: int| 0 <= j < order.len() && order[j] == k;
            assert(block_holds(blocks, j, id));
        }
    }
    assert forall|id: u32| #[trigger] image_map(blocks).contains_key(id) implies image_map(
        blocks,
    )[id] == page_map(dir)[id] by {
        let j = choose|j: int| block_holds(blocks, j, id);
        assert(holds(dir, order[j].0, id));
        lemma_owner(dir, schema, order[j].0, id);
    }
    assert(image_map(blocks) =~= page_map(dir));
    assert(parse_log(Seq::empty(), schema) =~= Seq::<Action>::empty());
    assert(image_map(blocks).union_prefer_right(replay(parse_log(Seq::empty(), schema)))
        =~= page_map(dir));
}

} // verus!
