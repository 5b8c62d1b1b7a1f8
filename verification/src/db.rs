//! The database: pages under an ordered index of their extents, and the log
//! that takes every write before it reaches a page.
//!
//! The pages' key ranges are pairwise apart, so the index, which orders the
//! extents by their greatest identifier, finds the page of an identifier
//! with one look. Reads ask the log first and then the pages; writes go to
//! the log alone, and `sync` folds the log into the pages.

use crate::image::{Image, writes_of, writes_view};
use crate::index::{
    index_keys, key_le, keys_ascending, keys_first, keys_insert, keys_last, keys_new,
    keys_range_first, keys_remove, keys_to_vec,
};
use crate::layout::{
    all_apart, apart, dir_ok, fixed_width, folded, has_room, holds, inserted, is_target, key_of,
    layout, Leaf, leaf_holds, lemma_apart_after_put, lemma_first_page, lemma_fit_after_store,
    lemma_held_in_span, lemma_no_zero, lemma_owner, lemma_page_map_insert, lemma_page_map_remove,
    lemma_page_map_swap_insert, lemma_page_map_swap_remove, lemma_page_span, lemma_rows_ok_del,
    lemma_rows_ok_put, lemma_span_within, lemma_target, lemma_to_map_take, lemma_whole_row_ok,
    lemma_whole_row_parts, lie_apart, page_map, page_ok, removed, same_page, schema_width, stored,
};
use crate::page::{
    build, full_row, lemma_full_row, Page, page_block, page_len, PAGE_SIZE, parse_page, rows_ok,
    rows_view,
};
use crate::row::{
    cells, clone_values, conforms, decimal, push_decimal, row_valid, schema_ok, valid_schema,
    valid_values, verify_insert, Cell, RowType, RowVal,
};
use crate::table::{find, lemma_del, lemma_find, lemma_put, rank, sorted, to_map};
use crate::wal::{
    action_bytes, action_ok, deserialize_wal, lemma_parse_log_ok, parse_log, records_view, replay,
    Action, WAL,
};
use indexset::BTreeSet;
use std::collections::HashMap;
use vstd::prelude::*;
use vstd::slice::slice_subrange;
use vstd::string::StringExecFns;

verus! {

broadcast use vstd::std_specs::hash::group_hash_axioms;

/// The database.
#[derive(Debug)]
pub struct DB {
    /// The extents of the pages in order: for each page its greatest and
    /// least identifier and the number of its rows.
    pub index: BTreeSet<(u32, u32, u32)>,
    /// The pages, each under its greatest identifier, with the slot of the
    /// data file that it was read from, if it was read from one.
    pub pages: HashMap<u32, (Page, Option<usize>)>,
    /// The writes that have not reached a page.
    pub wal: WAL,
    pub epoch: u64,
    pub schema: Vec<RowType>,
}

impl View for DB {
    type V = Map<u32, Seq<Cell>>;

    /// What the database holds as a reader sees it: the rows of the pages,
    /// with the pending writes of the log laid over them.
    open spec fn view(&self) -> Map<u32, Seq<Cell>> {
        self.page_map().union_prefer_right(self.wal@)
    }
}

impl DB {
    /// The rows of all pages, as one map from identifier to row.
    pub open spec fn page_map(&self) -> Map<u32, Seq<Cell>> {
        page_map(self.pages@)
    }

    /// What the pages hold, each under its greatest identifier.
    pub open spec fn layout(&self) -> Map<u32, Leaf> {
        layout(self.pages@)
    }

    /// The database is in order: the index holds the extent of every page
    /// and nothing else, no page is empty, the pages' key ranges lie apart,
    /// and every row, in a page or pending, is one that the schema asks
    /// for.
    pub open spec fn wf(&self) -> bool {
        &&& schema_ok(self.schema@)
        &&& self.wal.wf()
        &&& rows_ok(self.wal.records.seq(), self.schema@)
        &&& dir_ok(self.pages@, self.schema@)
        &&& forall|k: (u32, u32, u32)| #[trigger]
            index_keys(self.index).contains(k) <==> self.pages@.contains_key(k.0) && key_of(
                self.pages@[k.0].0,
            ) == k
    }

    /// Takes the page under `end` out of the index and hands it over.
    fn take_page(&mut self, end: u32) -> (r: (Page, Option<usize>))
        requires
            old(self).wf(),
            old(self).pages@.contains_key(end),
        ensures
            final(self).wf(),
            final(self).pages@ == old(self).pages@.remove(end),
            r == old(self).pages@[end],
            final(self).wal == old(self).wal,
            final(self).schema == old(self).schema,
            final(self).epoch == old(self).epoch,
    {
        let ghost before = self.pages@;
        let ghost keys = index_keys(self.index);
        let entry = self.pages.remove(&end).unwrap();
        let key = (entry.0.header.end, entry.0.header.start, entry.0.header.count);
        proof {
            lemma_page_map_remove(before, self.schema@, end);
            assert(keys.contains(key));
        }
        keys_remove(&mut self.index, key);
        proof {
            assert forall|k: (u32, u32, u32)| #[trigger]
                index_keys(self.index).contains(k) <==> self.pages@.contains_key(k.0) && key_of(
                    self.pages@[k.0].0,
                ) == k by {
                assert(keys.contains(k) <==> before.contains_key(k.0) && key_of(before[k.0].0)
                    == k);
            }
        }
        entry
    }

    /// Puts a page, which lies apart from every page of the index, into the
    /// index.
    fn put_page(&mut self, page: Page, slot: Option<usize>)
        requires
            old(self).wf(),
            page_ok(page, old(self).schema@),
            apart(old(self).pages@, page),
        ensures
            final(self).wf(),
            final(self).pages@ == old(self).pages@.insert(page.header.end, (page, slot)),
            final(self).wal == old(self).wal,
            final(self).schema == old(self).schema,
            final(self).epoch == old(self).epoch,
    {
        let ghost before = self.pages@;
        let ghost keys = index_keys(self.index);
        let key = (page.header.end, page.header.start, page.header.count);
        proof {
            lemma_page_map_insert(before, self.schema@, page, slot);
        }
        keys_insert(&mut self.index, key);
        self.pages.insert(key.0, (page, slot));
        proof {
            assert forall|k: (u32, u32, u32)| #[trigger]
                index_keys(self.index).contains(k) <==> self.pages@.contains_key(k.0) && key_of(
                    self.pages@[k.0].0,
                ) == k by {
                assert(keys.contains(k) <==> before.contains_key(k.0) && key_of(before[k.0].0)
                    == k);
            }
        }
    }

    /// An empty database of the given schema, whose first column is the
    /// identifier.
    pub fn new(schema: &[RowType]) -> (r: Self)
        requires
            schema_ok(schema@),
        ensures
            r.wf(),
            r.schema@ == schema@,
            r.epoch == 1,
            r.pages@ == Map::<u32, (Page, Option<usize>)>::empty(),
            r.wal@ == Map::<u32, Seq<Cell>>::empty(),
            r@ == Map::<u32, Seq<Cell>>::empty(),
    {
        let r = DB {
            index: keys_new(),
            pages: HashMap::new(),
            wal: WAL::new(),
            epoch: 1,
            schema: vstd::slice::slice_to_vec(schema),
        };
        assert(r@ =~= Map::<u32, Seq<Cell>>::empty());
        r
    }

    /// The page that a row with this identifier belongs to by the order of
    /// the index: the first page that does not end before the identifier.
    /// It is looked up between two extents that no page has: the least
    /// that ends at the identifier, and the greatest that starts at it.
    pub fn find_page(&self, id: u32) -> (r: Option<u32>)
        requires
            self.wf(),
        ensures
            match r {
                Some(e) => self.pages@.contains_key(e) && id <= e && forall|o: u32|
                    self.pages@.contains_key(o) && id <= o ==> e <= o,
                None => forall|o: u32| self.pages@.contains_key(o) ==> o < id,
            },
    {
        let lo: (u32, u32, u32) = (id, 1, 0);
        let hi: (u32, u32, u32) = (u32::MAX, id, u32::MAX);
        proof {
            assert forall|o: u32| self.pages@.contains_key(o) implies index_keys(
                self.index,
            ).contains(#[trigger] key_of(self.pages@[o].0)) && key_of(self.pages@[o].0).0 == o
                && key_of(self.pages@[o].0).1 >= 1 by {
                lemma_page_span(self.pages@[o].0);
            }
        }
        match keys_range_first(&self.index, lo, hi) {
            Some(k) => {
                proof {
                    assert forall|o: u32| self.pages@.contains_key(o) && id <= o implies k.0
                        <= o by {
                        let ko = key_of(self.pages@[o].0);
                        assert(index_keys(self.index).contains(ko));
                        assert(key_le(lo, ko));
                    }
                }
                Some(k.0)
            },
            None => match keys_last(&self.index) {
                Some(l) => {
                    if l.0 >= id {
                        proof {
                            assert forall|o: u32| self.pages@.contains_key(o) && id <= o implies l.0
                                <= o by {
                                let ko = key_of(self.pages@[o].0);
                                assert(index_keys(self.index).contains(ko));
                                assert(key_le(lo, ko));
                                assert(!key_le(ko, hi));
                            }
                        }
                        Some(l.0)
                    } else {
                        proof {
                            assert forall|o: u32| self.pages@.contains_key(o) implies o < id by {
                                let ko = key_of(self.pages@[o].0);
                                assert(index_keys(self.index).contains(ko));
                                assert(key_le(ko, l));
                            }
                        }
                        None
                    }
                },
                None => {
                    proof {
                        assert forall|o: u32| self.pages@.contains_key(o) implies o < id by {
                            let ko = key_of(self.pages@[o].0);
                            assert(index_keys(self.index).contains(ko));
                        }
                    }
                    None
                },
            },
        }
    }

    /// A copy of the row of `id`, without its identifier: the pending row
    /// where the log has one, else the row of the page that holds one.
    pub fn get(&self, id: u32) -> (r: Option<Vec<RowVal>>)
        requires
            self.wf(),
        ensures
            self@.contains_key(id) ==> r is Some && cells(r.unwrap()@) == self@[id],
            !self@.contains_key(id) ==> r is None,
    {
        match self.wal.get(id) {
            Some(val) => {
                return Some(val);
            },
            None => {},
        }
        match self.find_page(id) {
            Some(e) => {
                let entry = self.pages.get(&e).unwrap();
                let r = entry.0.get(id);
                proof {
                    if find(entry.0.rows(), id) is Some {
                        assert(holds(self.pages@, e, id));
                        lemma_owner(self.pages@, self.schema@, e, id);
                    } else {
                        assert forall|o: u32| !holds(self.pages@, o, id) by {
                            if holds(self.pages@, o, id) {
                                lemma_held_in_span(self.pages@[o].0, id);
                                if e < o {
                                    assert(self.pages@.contains_key(e) && self.pages@.contains_key(
                                        o,
                                    ));
                                }
                            }
                        }
                    }
                }
                r
            },
            None => {
                proof {
                    assert forall|o: u32| !holds(self.pages@, o, id) by {
                        if holds(self.pages@, o, id) {
                            lemma_held_in_span(self.pages@[o].0, id);
                        }
                    }
                }
                None
            },
        }
    }

    /// Takes a write into the log, where it is taken at all: the identifier
    /// is not zero, and the cells are what the schema asks for after the
    /// identifier, each one that the format can hold. The answer says
    /// whether it was taken; a write that is not taken changes nothing. A
    /// write that is taken leaves its record to be appended to the log file.
    pub fn insert(&mut self, id: u32, val: &[RowVal]) -> (r: bool)
        requires
            old(self).wf(),
        ensures
            final(self).wf(),
            r == (id != 0 && conforms(cells(val@), old(self).schema@.skip(1)) && row_valid(
                cells(val@),
            )),
            r ==> final(self).wal@ == old(self).wal@.insert(id, cells(val@)),
            r ==> final(self)@ == old(self)@.insert(id, cells(val@)),
            r ==> final(self).wal.unwritten@ == old(self).wal.unwritten@ + action_bytes(
                Action::Insert(id, cells(val@)),
            ),
            !r ==> final(self).wal == old(self).wal && final(self)@ == old(self)@,
            final(self).pages@ == old(self).pages@,
            final(self).schema@ == old(self).schema@,
    {
        if id == 0 || !verify_insert(val, self.schema.as_slice()) || !valid_values(val) {
            return false;
        }
        proof {
            let e = (id, cells(val@));
            lemma_whole_row_ok(e, self.schema@);
            lemma_put(self.wal.records.seq(), id, cells(val@));
        }
        self.wal.insert(id, val);
        assert(self@ =~= old(self)@.insert(id, cells(val@)));
        true
    }

    /// Takes the row of `id` out of the page that holds one, and hands it
    /// back. A page that is left empty leaves the index.
    #[verifier::rlimit(50)]
    fn remove_from_pages(&mut self, id: u32) -> (r: Option<Vec<RowVal>>)
        requires
            old(self).wf(),
        ensures
            final(self).wf(),
            final(self).wal == old(self).wal,
            final(self).schema == old(self).schema,
            final(self).epoch == old(self).epoch,
            final(self).page_map() == old(self).page_map().remove(id),
            final(self).layout() == removed(old(self).layout(), id),
            old(self).page_map().contains_key(id) ==> r is Some
                && cells(r.unwrap()@) == old(self).page_map()[id],
            !old(self).page_map().contains_key(id) ==> r is None,
    {
        let ghost dir = self.pages@;
        let ghost schema = self.schema@;
        let target = match self.find_page(id) {
            Some(e) => e,
            None => {
                proof {
                    assert forall|o: u32| !holds(dir, o, id) by {
                        if holds(dir, o, id) {
                            lemma_held_in_span(dir[o].0, id);
                        }
                    }
                    assert(self.page_map() =~= old(self).page_map().remove(id));
                    assert forall|o: u32| !leaf_holds(layout(dir), o, id) by {
                        assert(!holds(dir, o, id));
                    }
                }
                return None;
            },
        };
        proof {
            assert forall|o: u32| leaf_holds(layout(dir), o, id) implies o == target by {
                assert(holds(dir, o, id));
                lemma_held_in_span(dir[o].0, id);
                if target < o {
                    assert(dir.contains_key(target) && dir.contains_key(o));
                }
            }
            if holds(dir, target, id) {
                assert(leaf_holds(layout(dir), target, id));
            }
            assert forall|o: u32| holds(dir, o, id) implies o == target by {
                lemma_held_in_span(dir[o].0, id);
                if target < o {
                    assert(dir.contains_key(target) && dir.contains_key(o));
                }
            }
            lemma_page_map_swap_remove(dir, schema, target, id);
            if holds(dir, target, id) {
                lemma_owner(dir, schema, target, id);
            }
        }
        let (mut page, slot) = self.take_page(target);
        let ghost taken = page;
        let ghost less = dir.remove(target);
        proof {
            lemma_page_map_remove(dir, schema, target);
            lemma_del(page.rows(), id);
        }
        let res = page.remove(id);
        if !page.is_empty() {
            proof {
                lemma_span_within(taken, page);
                lemma_page_map_insert(less, schema, page, slot);
                lemma_page_span(page);
                lemma_page_span(taken);
            }
            self.put_page(page, slot);
        } else {
            proof {
                assert forall|q: u32| !to_map(page.rows()).contains_key(q) by {}
                assert(page_map(less).union_prefer_right(to_map(page.rows())) =~= page_map(less));
            }
        }
        assert(self.layout() =~= removed(layout(dir), id));
        res
    }

    /// Takes the row of `id` out and hands it back: the pending row where
    /// the log has one, and then no page is touched; else the row of the
    /// page that holds one. A page that is left empty leaves the index.
    /// Either way a delete record is left to be appended to the log file,
    /// unless the identifier is zero, which no row has.
    pub fn remove(&mut self, id: u32) -> (r: Option<Vec<RowVal>>)
        requires
            old(self).wf(),
        ensures
            final(self).wf(),
            final(self).schema@ == old(self).schema@,
            id != 0 ==> final(self).wal.unwritten@ == old(self).wal.unwritten@ + action_bytes(
                Action::Delete(id),
            ),
            id == 0 ==> final(self).wal.unwritten@ == old(self).wal.unwritten@,
            old(self).wal@.contains_key(id) ==> {
                &&& r is Some
                &&& cells(r.unwrap()@) == old(self).wal@[id]
                &&& final(self).wal@ == old(self).wal@.remove(id)
                &&& final(self).page_map() == old(self).page_map()
                &&& final(self).layout() == old(self).layout()
            },
            !old(self).wal@.contains_key(id) ==> {
                &&& final(self).wal@ == old(self).wal@
                &&& final(self).page_map() == old(self).page_map().remove(id)
                &&& final(self).layout() == removed(old(self).layout(), id)
                &&& final(self)@ == old(self)@.remove(id)
                &&& old(self).page_map().contains_key(id) ==> r is Some && cells(r.unwrap()@)
                    == old(self).page_map()[id]
                &&& !old(self).page_map().contains_key(id) ==> r is None
            },
    {
        proof {
            lemma_del(self.wal.records.seq(), id);
            lemma_rows_ok_del(self.wal.records.seq(), self.schema@, id);
        }
        if id == 0 {
            proof {
                lemma_no_zero(self.pages@, self.schema@);
                lemma_find(self.wal.records.seq(), 0);
                if self.wal@.contains_key(0) {
                    let i = rank(self.wal.records.seq(), 0);
                    lemma_whole_row_parts(self.wal.records.seq()[i], self.schema@);
                }
                assert(self.page_map() =~= self.page_map().remove(0));
                assert(self@ =~= self@.remove(0));
            }
            return None;
        }
        match self.wal.remove(id) {
            Some(val) => {
                return Some(val);
            },
            None => {},
        }
        assert(self.wal@ =~= old(self).wal@);
        let r = self.remove_from_pages(id);
        assert(self@ =~= old(self)@.remove(id));
        r
    }

    /// Puts a page that lies apart from every page of the index into the
    /// index: as it is where it fits in a block, else in two halves, of
    /// which an empty one is dropped.
    #[verifier::rlimit(50)]
    fn store_back(&mut self, page: Page, slot: Option<usize>)
        requires
            old(self).wf(),
            page_ok(page, old(self).schema@),
            page.dirty,
            apart(old(self).pages@, page),
        ensures
            final(self).wf(),
            final(self).page_map() == old(self).page_map().union_prefer_right(
                to_map(page.rows()),
            ),
            final(self).wal == old(self).wal,
            final(self).schema == old(self).schema,
            final(self).epoch == old(self).epoch,
            final(self).layout() == stored(old(self).layout(), page.rows(), slot),
    {
        let ghost dir = self.pages@;
        let ghost schema = self.schema@;
        let ghost rows = page.rows();
        proof {
            lemma_page_span(page);
        }
        if page.size() > PAGE_SIZE {
            let (head, tail) = page.split();
            let ghost mid = rows.len() as int / 2;
            proof {
                lemma_page_span(page);
                lemma_page_span(tail);
                assert forall|i: int| 0 <= i < tail.rows().len() implies #[trigger] tail.rows()[i]
                    == rows[mid + i] by {}
                assert(apart(dir, tail)) by {
                    assert(tail.rows()[0] == rows[mid + 0]);
                    assert(tail.rows()[tail.rows().len() - 1] == rows[mid + (tail.rows().len()
                        - 1)]);
                }
                crate::page::lemma_split_merge(rows, mid);
                crate::table::lemma_put_all(rows.take(mid), rows.skip(mid));
            }
            if !head.is_empty() {
                proof {
                    lemma_page_span(head);
                    assert forall|i: int| 0 <= i < head.rows().len() implies
                        #[trigger] head.rows()[i] == rows[i] by {}
                    assert(apart(dir, head)) by {
                        assert(head.rows()[0] == rows[0]);
                        assert(head.rows()[head.rows().len() - 1] == rows[mid - 1]);
                    }
                    lemma_page_map_insert(dir, schema, head, None);
                    let more = dir.insert(head.header.end, (head, None::<usize>));
                    assert(apart(more, tail)) by {
                        assert(head.rows()[head.rows().len() - 1] == rows[mid - 1]);
                        assert(tail.rows()[0] == rows[mid + 0]);
                        assert(rows[mid - 1].0 < rows[mid].0);
                    }
                    lemma_page_map_insert(more, schema, tail, None);
                    assert(page_map(dir).union_prefer_right(to_map(head.rows())).union_prefer_right(
                        to_map(tail.rows()),
                    ) =~= page_map(dir).union_prefer_right(to_map(rows)));
                }
                self.put_page(head, None);
            } else {
                proof {
                    assert(rows.skip(0) =~= rows);
                    lemma_page_map_insert(dir, schema, tail, None);
                }
            }
            self.put_page(tail, None);
            assert(self.layout() =~= stored(layout(dir), rows, slot));
        } else {
            proof {
                lemma_page_map_insert(dir, schema, page, slot);
            }
            self.put_page(page, slot);
            assert(self.layout() =~= stored(layout(dir), rows, slot));
        }
    }

    /// The page that a row with this identifier goes to, in an index that
    /// is not empty: below the first page it goes into the first, above the
    /// last into the last, and else into the first page that does not end
    /// before it.
    #[verifier::rlimit(50)]
    fn route(&self, id: u32, first: (u32, u32, u32)) -> (r: u32)
        requires
            self.wf(),
            index_keys(self.index).contains(first),
            forall|o: (u32, u32, u32)| index_keys(self.index).contains(o) ==> key_le(first, o),
        ensures
            self.pages@.contains_key(r),
            is_target(self.layout(), r, id),
            has_room(self.pages@, r, id),
    {
        let ghost dir = self.pages@;
        let last = match keys_last(&self.index) {
            Some(last) => last,
            None => first,
        };
        let r: u32 = if id < first.1 {
            first.0
        } else if id > last.0 {
            last.0
        } else {
            match self.find_page(id) {
                Some(e) => e,
                None => last.0,
            }
        };
        proof {
            assert(index_keys(self.index).contains(last));
            assert(id > r ==> r == last.0);
            assert forall|o: u32| #[trigger] dir.contains_key(o) implies (o < r ==> o < id) && (r
                < o ==> id < dir[o].0.header.start) && (id <= r && id <= o ==> r <= o) && (id > r
                ==> o <= r) by {
                let ko = key_of(dir[o].0);
                assert(index_keys(self.index).contains(ko));
                assert(key_le(first, ko));
                assert(key_le(ko, last));
                lemma_page_span(dir[o].0);
                lemma_page_span(dir[r].0);
                if o < r {
                    assert(dir.contains_key(o) && dir.contains_key(r));
                } else if r < o {
                    assert(dir.contains_key(r) && dir.contains_key(o));
                }
            }
            assert(is_target(layout(dir), r, id)) by {
                assert forall|o: u32| layout(dir).contains_key(o) implies (id <= r ==> (id <= o
                    ==> r <= o)) && (id > r ==> o <= r) by {
                    assert(dir.contains_key(o));
                }
            }
        }
        r
    }

    /// Puts a row into the page it belongs to. Into an empty index it goes
    /// as a page of its own; below the first page it goes into the first,
    /// above the last into the last, and else into the first page that does
    /// not end before it. A page that no longer fits in a block is parted in
    /// two. The identifier is not zero, and the cells are what the schema
    /// asks for after the identifier.
    #[verifier::rlimit(50)]
    pub fn insert_to_page(&mut self, id: u32, val: &[RowVal])
        requires
            old(self).wf(),
            id != 0,
            conforms(cells(val@), old(self).schema@.skip(1)),
            row_valid(cells(val@)),
        ensures
            final(self).wf(),
            final(self).page_map() == old(self).page_map().insert(id, cells(val@)),
            final(self).layout() == inserted(old(self).layout(), id, cells(val@)),
            old(self).all_fit() && fixed_width(old(self).schema@) && 12 + schema_width(
                old(self).schema@,
            ) <= PAGE_SIZE ==> final(self).all_fit(),
            final(self).wal == old(self).wal,
            final(self).schema == old(self).schema,
            final(self).epoch == old(self).epoch,
    {
        let ghost dir = self.pages@;
        let ghost schema = self.schema@;
        let ghost v = cells(val@);
        let mut row: Vec<RowVal> = Vec::new();
        row.push(RowVal::Id(id));
        let mut rest = clone_values(val);
        row.append(&mut rest);
        proof {
            assert(cells(row@) =~= full_row((id, v)));
            lemma_whole_row_ok((id, v), schema);
            lemma_full_row((id, v));
        }
        let first = match keys_first(&self.index) {
            None => {
                let mut rows: Vec<Vec<RowVal>> = Vec::new();
                rows.push(row);
                let page = Page::new_dirty(rows.as_slice(), self.schema.as_slice());
                proof {
                    let whole = rows_view(rows@);
                    assert(whole.drop_last() =~= Seq::<Seq<Cell>>::empty());
                    assert(build(whole.drop_last()) =~= Seq::<(u32, Seq<Cell>)>::empty());
                    assert(page.rows() =~= seq![(id, v)]);
                    assert forall|o: u32| !dir.contains_key(o) by {
                        if dir.contains_key(o) {
                            assert(index_keys(self.index).contains(key_of(dir[o].0)));
                        }
                    }
                    lemma_first_page(dir, schema, id, v);
                }
                self.store_back(page, None);
                proof {
                    lemma_fit_after_store(dir, self.pages@, schema, seq![], seq![(id, v)], None);
                }
                return ;
            },
            Some(first) => first,
        };
        let target = self.route(id, first);
        proof {
            lemma_target(layout(dir), target, id);
            assert(layout(dir).contains_key(first.0));
        }
        let (mut page, slot) = self.take_page(target);
        let ghost rows = page.rows();
        let ghost less = dir.remove(target);
        proof {
            lemma_page_map_remove(dir, schema, target);
            assert(layout(less) =~= layout(dir).remove(target));
        }
        page.insert(row.as_slice());
        let ghost after = page.rows();
        proof {
            lemma_apart_after_put(dir, schema, target, id, v, page);
            lemma_page_map_swap_insert(dir, schema, target, id, v);
        }
        self.store_back(page, slot);
        proof {
            lemma_put(rows, id, v);
            lemma_rows_ok_put(rows, schema, id, v);
            assert forall|e: u32| old(self).all_fit() && #[trigger] less.contains_key(
                e,
            ) implies page_len(less[e].0.rows()) <= PAGE_SIZE by {
                assert(dir.contains_key(e));
            }
            if old(self).all_fit() {
                assert(dir.contains_key(target));
                lemma_fit_after_store(less, self.pages@, schema, rows, after, slot);
            }
        }
    }

    /// Every page fits in a block.
    pub open spec fn all_fit(&self) -> bool {
        forall|e: u32| #[trigger]
            self.pages@.contains_key(e) ==> page_len(self.pages@[e].0.rows()) <= PAGE_SIZE
    }

    /// The extents of the index, every one once and in ascending order.
    pub open spec fn is_order(&self, order: Seq<(u32, u32, u32)>) -> bool {
        &&& keys_ascending(order)
        &&& forall|k: (u32, u32, u32)| index_keys(self.index).contains(k) <==> order.contains(k)
    }

    /// What the image asks for is what the pages ask for in the order of the
    /// index.
    pub open spec fn image_ok(&self, image: Image) -> bool {
        exists|order: Seq<(u32, u32, u32)>| #[trigger]
            self.is_order(order) && image.slots == order.len() && writes_view(image.writes@)
                == writes_of(self.pages@, order)
    }

    /// What has to be written to the data file for it to hold the pages:
    /// the block of every page that differs from its block on disk or is
    /// not at its old slot, and the number of pages. `None` where a page
    /// does not fit in a block.
    pub fn serialize(&self) -> (r: Option<Image>)
        requires
            self.wf(),
        ensures
            r is Some <==> self.all_fit(),
            r is Some ==> self.image_ok(r.unwrap()),
    {
        let keys = keys_to_vec(&self.index);
        let mut writes: Vec<(usize, Vec<u8>)> = Vec::new();
        let mut i: usize = 0;
        assert(keys@.take(0) =~= Seq::<(u32, u32, u32)>::empty());
        while i < keys.len()
            invariant
                i <= keys@.len(),
                self.wf(),
                self.is_order(keys@),
                writes_view(writes@) == writes_of(self.pages@, keys@.take(i as int)),
                forall|j: int|
                    0 <= j < i ==> page_len(self.pages@[(#[trigger] keys@[j]).0].0.rows())
                        <= PAGE_SIZE,
            decreases keys@.len() - i,
        {
            let key = keys[i];
            assert(keys@.contains(key));
            assert(index_keys(self.index).contains(key));
            let entry = self.pages.get(&key.0).unwrap();
            if !entry.0.fits() {
                return None;
            }
            proof {
                let taken = keys@.take(i + 1);
                assert(taken.drop_last() =~= keys@.take(i as int));
                assert(taken.last() == key);
            }
            let moved = match entry.1 {
                Some(slot) => slot != i,
                None => true,
            };
            if entry.0.dirty || moved {
                let ghost before = writes_view(writes@);
                writes.push((i, entry.0.to_page_bytes()));
                assert(writes_view(writes@) =~= before.push(
                    (i as int, page_block(entry.0.rows())),
                ));
            }
            i = i + 1;
        }
        proof {
            assert(keys@.take(i as int) =~= keys@);
            assert forall|e: u32| #[trigger] self.pages@.contains_key(e) implies page_len(
                self.pages@[e].0.rows(),
            ) <= PAGE_SIZE by {
                let k = key_of(self.pages@[e].0);
                assert(index_keys(self.index).contains(k));
                assert(keys@.contains(k));
                let j = choose|j: int| 0 <= j < keys@.len() && keys@[j] == k;
                assert(keys@[j].0 == e);
            }
        }
        let image = Image { writes, slots: keys.len() };
        assert(self.is_order(keys@) && image.slots == keys@.len() && writes_view(image.writes@)
            == writes_of(self.pages@, keys@));
        Some(image)
    }

    /// Folds the log into the pages: every pending row is put into the page
    /// it belongs to, in ascending order of identifier. What a reader sees
    /// stays as it is. Where every page then fits in a block, the log is
    /// emptied and what has to be written to the data file is handed back,
    /// after which the log file is to be cut to no length; else the log
    /// stays and `None` comes back.
    #[verifier::rlimit(50)]
    pub fn sync(&mut self) -> (r: Option<Image>)
        requires
            old(self).wf(),
        ensures
            final(self).wf(),
            final(self).schema@ == old(self).schema@,
            final(self)@ == old(self)@,
            final(self).page_map() == old(self)@,
            final(self).layout() == folded(old(self).layout(), old(self).wal.records.seq()),
            old(self).all_fit() && fixed_width(old(self).schema@) && 12 + schema_width(
                old(self).schema@,
            ) <= PAGE_SIZE ==> final(self).all_fit(),
            r is Some <==> final(self).all_fit(),
            r is Some ==> final(self).wal@ == Map::<u32, Seq<Cell>>::empty()
                && final(self).wal.unwritten@ == Seq::<u8>::empty() && final(self).image_ok(
                r.unwrap(),
            ),
            r is None ==> final(self).wal == old(self).wal,
    {
        let ghost start = self.page_map();
        let ghost before = self.layout();
        let ghost pending = self.wal.records.seq();
        let n: usize = self.wal.records.len();
        let mut i: usize = 0;
        proof {
            assert(pending.take(0) =~= Seq::<(u32, Seq<Cell>)>::empty());
            assert forall|q: u32| !to_map(pending.take(0)).contains_key(q) by {}
            assert(start.union_prefer_right(to_map(pending.take(0))) =~= start);
        }
        while i < n
            invariant
                i <= n == pending.len(),
                self.wf(),
                self.wal == old(self).wal,
                self.schema == old(self).schema,
                pending == self.wal.records.seq(),
                self.page_map() == start.union_prefer_right(to_map(pending.take(i as int))),
                self.layout() == folded(before, pending.take(i as int)),
                old(self).all_fit() && fixed_width(old(self).schema@) && 12 + schema_width(
                    old(self).schema@,
                ) <= PAGE_SIZE ==> self.all_fit(),
            decreases n - i,
        {
            let id = self.wal.records.key_at(i);
            let val = clone_values(self.wal.records.row_at(i).as_slice());
            proof {
                assert(crate::page::row_ok(full_row(pending[i as int]), self.schema@));
                lemma_whole_row_parts(pending[i as int], self.schema@);
                lemma_to_map_take(pending, i as int);
                assert(pending.take(i + 1).drop_last() =~= pending.take(i as int));
                assert(pending.take(i + 1).last() == pending[i as int]);
                assert(start.union_prefer_right(to_map(pending.take(i as int))).insert(
                    id,
                    cells(val@),
                ) =~= start.union_prefer_right(to_map(pending.take(i + 1))));
            }
            self.insert_to_page(id, val.as_slice());
            i = i + 1;
        }
        proof {
            assert(pending.take(i as int) =~= pending);
            assert(self@ =~= old(self)@);
        }
        match self.serialize() {
            Some(image) => {
                let ghost folded = *self;
                self.wal = WAL::new();
                proof {
                    assert(self@ =~= old(self)@);
                    assert(rows_ok(self.wal.records.seq(), self.schema@));
                    let order = choose|order: Seq<(u32, u32, u32)>| #[trigger]
                        folded.is_order(order) && image.slots == order.len() && writes_view(
                            image.writes@,
                        ) == writes_of(folded.pages@, order);
                    assert(self.is_order(order));
                }
                Some(image)
            },
            None => None,
        }
    }

    /// Whether the page lies apart from every page of the index.
    fn lies_apart(&self, page: &Page) -> (r: bool)
        requires
            self.wf(),
            page_ok(*page, self.schema@),
        ensures
            r == apart(self.pages@, *page),
    {
        proof {
            lemma_page_span(*page);
        }
        match self.find_page(page.header.start) {
            None => true,
            Some(e) => {
                let first = self.pages.get(&e).unwrap();
                let r = first.0.header.start > page.header.end;
                proof {
                    lemma_page_span(first.0);
                    if r {
                        assert forall|o: u32| #[trigger] self.pages@.contains_key(o) implies o
                            < page.header.start || page.header.end
                            < self.pages@[o].0.header.start by {
                            if o >= page.header.start && o != e {
                                assert(self.pages@.contains_key(e) && self.pages@.contains_key(o));
                            }
                        }
                    }
                }
                r
            },
        }
    }

    /// A database of the given pages, with nothing pending. Empty pages are
    /// left out. `None` where two of the pages do not lie apart. Every page
    /// is in order and of the given schema, whose first column is the
    /// identifier.
    #[verifier::rlimit(50)]
    pub fn new_with_pages(pages: Vec<(Page, Option<usize>)>, schema: &[RowType]) -> (r: Option<
        Self,
    >)
        requires
            schema_ok(schema@),
            forall|i: int|
                0 <= i < pages@.len() ==> (#[trigger] pages@[i]).0.wf() && pages@[i].0.schema@
                    == schema@,
        ensures
            r is Some <==> all_apart(pages@),
            r is Some ==> {
                &&& r.unwrap().wf()
                &&& r.unwrap().schema@ == schema@
                &&& r.unwrap().wal@ == Map::<u32, Seq<Cell>>::empty()
                &&& forall|j: int|
                    0 <= j < pages@.len() && (#[trigger] pages@[j]).0.rows().len() > 0
                        ==> r.unwrap().pages@.contains_key(pages@[j].0.header.end)
                        && r.unwrap().pages@[pages@[j].0.header.end] == pages@[j]
                &&& forall|e: u32| #[trigger]
                    r.unwrap().pages@.contains_key(e) ==> exists|j: int|
                        0 <= j < pages@.len() && pages@[j].0.rows().len() > 0
                            && pages@[j].0.header.end == e
            },
    {
        let ghost all = pages@;
        let mut rest = pages;
        let mut db = DB::new(schema);
        while rest.len() > 0
            invariant
                all == pages@,
                rest@.len() <= all.len(),
                rest@ == all.take(rest@.len() as int),
                schema_ok(schema@),
                forall|i: int|
                    0 <= i < all.len() ==> (#[trigger] all[i]).0.wf() && all[i].0.schema@
                        == schema@,
                db.wf(),
                db.schema@ == schema@,
                db.wal@ == Map::<u32, Seq<Cell>>::empty(),
                forall|j: int|
                    rest@.len() <= j < all.len() && (#[trigger] all[j]).0.rows().len() > 0
                        ==> db.pages@.contains_key(all[j].0.header.end)
                        && db.pages@[all[j].0.header.end] == all[j],
                forall|e: u32| #[trigger]
                    db.pages@.contains_key(e) ==> exists|j: int|
                        rest@.len() <= j < all.len() && all[j].0.rows().len() > 0
                            && all[j].0.header.end == e,
                forall|i: int, j: int|
                    rest@.len() <= i < j < all.len() && (#[trigger] all[i]).0.rows().len() > 0 && (
                    #[trigger] all[j]).0.rows().len() > 0 ==> lie_apart(all[i].0, all[j].0),
            decreases rest@.len(),
        {
            let ghost n = rest@.len() as int;
            let ghost dir = db.pages@;
            let (page, slot) = rest.pop().unwrap();
            assert(rest@ =~= all.take(n - 1));
            assert((page, slot) == all[n - 1]);
            if !page.is_empty() {
                if !db.lies_apart(&page) {
                    proof {
                        let o = choose|o: u32| #[trigger]
                            dir.contains_key(o) && !(o < page.header.start || page.header.end
                                < dir[o].0.header.start);
                        let j = choose|j: int|
                            n <= j < all.len() && all[j].0.rows().len() > 0 && all[j].0.header.end
                                == o;
                        lemma_page_span(all[j].0);
                        assert(!lie_apart(all[n - 1].0, all[j].0));
                    }
                    return None;
                }
                proof {
                    lemma_page_map_insert(dir, schema@, page, slot);
                    assert forall|j: int|
                        n <= j < all.len() && (#[trigger] all[j]).0.rows().len()
                            > 0 implies lie_apart(all[n - 1].0, all[j].0) by {
                        assert(dir.contains_key(all[j].0.header.end));
                        lemma_page_span(all[j].0);
                    }
                }
                db.put_page(page, slot);
            }
        }
        assert(rest@.len() == 0);
        Some(db)
    }

    /// Copies of the pages in the order of the index, each with the slot it
    /// was read from.
    pub fn pages(&self) -> (r: Vec<(Page, Option<usize>)>)
        requires
            self.wf(),
        ensures
            exists|order: Seq<(u32, u32, u32)>| #[trigger]
                self.is_order(order) && r@.len() == order.len() && forall|i: int|
                    0 <= i < order.len() ==> same_page(
                        #[trigger] r@[i],
                        self.pages@[order[i].0],
                    ),
    {
        let keys = keys_to_vec(&self.index);
        let mut out: Vec<(Page, Option<usize>)> = Vec::new();
        let mut i: usize = 0;
        while i < keys.len()
            invariant
                i <= keys@.len(),
                self.wf(),
                self.is_order(keys@),
                out@.len() == i,
                forall|j: int|
                    0 <= j < i ==> same_page(#[trigger] out@[j], self.pages@[keys@[j].0]),
            decreases keys@.len() - i,
        {
            let key = keys[i];
            assert(keys@.contains(key));
            assert(index_keys(self.index).contains(key));
            let entry = self.pages.get(&key.0).unwrap();
            out.push((entry.0.clone(), entry.1));
            i = i + 1;
        }
        assert(self.is_order(keys@) && out@.len() == keys@.len() && forall|i: int|
            0 <= i < keys@.len() ==> same_page(#[trigger] out@[i], self.pages@[keys@[i].0]));
        out
    }

    /// Opens a database from what its files hold: the pages of the data
    /// file and the records of the log are read, the records are added up to
    /// the pending writes, and these are folded into the pages as by
    /// `sync`, whose answer comes back beside the database. `None` where
    /// the schema's first column is no identifier, the data file holds no
    /// pages, or two of its pages do not lie apart.
    #[verifier::rlimit(50)]
    pub fn open(data: &[u8], log: &[u8], schema: &[RowType]) -> (r: Option<(Self, Option<Image>)>)
        ensures
            r is Some <==> schema_ok(schema@) && parse_image(data@, schema@) is Some
                && blocks_apart(parse_image(data@, schema@).unwrap()),
            r is Some ==> {
                &&& r.unwrap().0.wf()
                &&& r.unwrap().0.schema@ == schema@
                &&& r.unwrap().0@ == image_map(
                    parse_image(data@, schema@).unwrap(),
                ).union_prefer_right(replay(parse_log(log@, schema@)))
                &&& r.unwrap().0@ == r.unwrap().0.page_map()
                &&& exists|pending: Seq<(u32, Seq<Cell>)>|
                    #![trigger sorted(pending)]
                    sorted(pending) && to_map(pending) == replay(parse_log(log@, schema@))
                        && r.unwrap().0.layout() == folded(
                        blocks_layout(parse_image(data@, schema@).unwrap()),
                        pending,
                    )
                &&& r.unwrap().1 is Some <==> r.unwrap().0.all_fit()
                &&& r.unwrap().1 is Some ==> r.unwrap().0.wal@ == Map::<u32, Seq<Cell>>::empty()
                    && r.unwrap().0.image_ok(r.unwrap().1.unwrap())
            },
    {
        let pages = match try_deserialize(data, schema) {
            None => {
                return None;
            },
            Some(pages) => pages,
        };
        let ghost blocks = parse_image(data@, schema@).unwrap();
        let ghost loaded_pages = pages@;
        proof {
            assert forall|i: int| 0 <= i < loaded_pages.len() && (
            #[trigger] loaded_pages[i]).0.rows().len() > 0 implies loaded_pages[i].0.header.end
                == build(blocks[i]).last().0 && loaded_pages[i].0.header.start == build(
                blocks[i],
            )[0].0 by {
                lemma_page_span(loaded_pages[i].0);
            }
            if blocks_apart(blocks) {
                assert(all_apart(loaded_pages));
            }
            if all_apart(loaded_pages) {
                assert forall|i: int, j: int|
                    0 <= i < j < blocks.len() && (#[trigger] build(blocks[i])).len() > 0 && (
                    #[trigger] build(blocks[j])).len() > 0 implies build(blocks[i]).last().0
                    < build(blocks[j])[0].0 || build(blocks[j]).last().0 < build(
                    blocks[i],
                )[0].0 by {
                    assert(lie_apart(loaded_pages[i].0, loaded_pages[j].0));
                }
            }
        }
        let mut db = match DB::new_with_pages(pages, schema) {
            None => {
                return None;
            },
            Some(db) => db,
        };
        let records = deserialize_wal(log, schema);
        let wal = WAL::from_records(records.as_slice());
        proof {
            let actions = parse_log(log@, schema@);
            lemma_parse_log_ok(log@, schema@);
            assert forall|i: int| 0 <= i < wal.records.seq().len() implies crate::page::row_ok(
                full_row(#[trigger] wal.records.seq()[i]),
                schema@,
            ) by {
                let e = wal.records.seq()[i];
                let j = choose|j: int|
                    0 <= j < records@.len() && records@[j]@ == Action::Insert(e.0, e.1);
                assert(records_view(records@)[j] == records@[j]@);
                assert(action_ok(actions[j], schema@));
                lemma_whole_row_ok(e, schema@);
            }
        }
        let ghost dir = db.pages@;
        db.wal = wal;
        proof {
            assert forall|id: u32| #[trigger]
                page_map(dir).contains_key(id) <==> image_map(blocks).contains_key(id) by {
                if page_map(dir).contains_key(id) {
                    let e = choose|e: u32| holds(dir, e, id);
                    let j = choose|j: int|
                        0 <= j < loaded_pages.len() && loaded_pages[j].0.rows().len() > 0
                            && loaded_pages[j].0.header.end == e;
                    assert(dir[e] == loaded_pages[j]);
                    assert(block_holds(blocks, j, id));
                }
                if image_map(blocks).contains_key(id) {
                    let j = choose|j: int| block_holds(blocks, j, id);
                    lemma_find(loaded_pages[j].0.rows(), id);
                    assert(holds(dir, loaded_pages[j].0.header.end, id));
                }
            }
            assert forall|id: u32| #[trigger] page_map(dir).contains_key(id) implies page_map(
                dir,
            )[id] == image_map(blocks)[id] by {
                let j = choose|j: int| block_holds(blocks, j, id);
                lemma_find(loaded_pages[j].0.rows(), id);
                let e = loaded_pages[j].0.header.end;
                assert(holds(dir, e, id));
                lemma_owner(dir, schema@, e, id);
            }
            assert(page_map(dir) =~= image_map(blocks));
            assert forall|e: u32| #[trigger]
                layout(dir).contains_key(e) <==> blocks_layout(blocks).contains_key(e) by {
                if dir.contains_key(e) {
                    let j = choose|j: int|
                        0 <= j < loaded_pages.len() && loaded_pages[j].0.rows().len() > 0
                            && loaded_pages[j].0.header.end == e;
                    assert(block_ends(blocks, j, e));
                }
                if blocks_layout(blocks).contains_key(e) {
                    let j = choose|j: int| block_ends(blocks, j, e);
                    assert(loaded_pages[j].0.rows().len() > 0);
                }
            }
            assert forall|e: u32| #[trigger] layout(dir).contains_key(e) implies layout(dir)[e]
                == blocks_layout(blocks)[e] by {
                let j = choose|j: int| block_ends(blocks, j, e);
                assert(loaded_pages[j].0.rows().len() > 0);
                assert(dir[e] == loaded_pages[j]);
            }
            assert(layout(dir) =~= blocks_layout(blocks));
        }
        let ghost pending = db.wal.records.seq();
        let image = db.sync();
        proof {
            assert(db@ =~= db.page_map());
            assert(sorted(pending) && to_map(pending) == replay(parse_log(log@, schema@))
                && db.layout() == folded(blocks_layout(blocks), pending));
        }
        Some((db, image))
    }
}

/// The name of a file of a database: the database's name, its epoch in
/// decimal digits and the file's ending, with a dot between them.
pub open spec fn file_name(name: Seq<char>, epoch: u64, ending: Seq<char>) -> Seq<char> {
    name + seq!['.'] + decimal(epoch as nat) + seq!['.'] + ending
}

/// The name of a file of a database.
fn name_with(name: &str, epoch: u64, ending: &str) -> (r: String)
    ensures
        r@ == file_name(name@, epoch, ending@),
{
    proof {
        reveal_strlit(".");
    }
    let mut text = String::from_str(name);
    text.append(".");
    push_decimal(&mut text, epoch);
    text.append(".");
    text.append(ending);
    assert(text@ =~= file_name(name@, epoch, ending@));
    text
}

/// The names of the three files of a database: the data file, the log and
/// the schema file.
pub fn file_names(name: &str, epoch: u64) -> (r: (String, String, String))
    ensures
        r.0@ == file_name(name@, epoch, seq!['d', 'b']),
        r.1@ == file_name(name@, epoch, seq!['w', 'a', 'l']),
        r.2@ == file_name(name@, epoch, seq!['s', 'c', 'h', 'e', 'm', 'a']),
{
    proof {
        reveal_strlit("db");
        reveal_strlit("wal");
        reveal_strlit("schema");
        assert("db"@ =~= seq!['d', 'b']);
        assert("wal"@ =~= seq!['w', 'a', 'l']);
        assert("schema"@ =~= seq!['s', 'c', 'h', 'e', 'm', 'a']);
    }
    (name_with(name, epoch, "db"), name_with(name, epoch, "wal"), name_with(name, epoch, "schema"))
}

/// The page of block `j` holds a row for `id`.
pub open spec fn block_holds(blocks: Seq<Seq<Seq<Cell>>>, j: int, id: u32) -> bool {
    0 <= j < blocks.len() && find(build(blocks[j]), id) is Some
}

/// The page of block `j` is not empty and ends at `e`.
pub open spec fn block_ends(blocks: Seq<Seq<Seq<Cell>>>, j: int, e: u32) -> bool {
    0 <= j < blocks.len() && build(blocks[j]).len() > 0 && build(blocks[j]).last().0 == e
}

/// What the pages of a data file hold as they are read: every page that is
/// not empty under its greatest identifier, clean, with its block's place
/// as its slot.
pub open spec fn blocks_layout(blocks: Seq<Seq<Seq<Cell>>>) -> Map<u32, Leaf> {
    Map::new(
        |e: u32| exists|j: int| block_ends(blocks, j, e),
        |e: u32|
            {
                let j = choose|j: int| block_ends(blocks, j, e);
                Leaf { rows: build(blocks[j]), dirty: false, slot: Some(j as usize) }
            },
    )
}

/// The rows of all blocks' pages, as one map from identifier to row.
pub open spec fn image_map(blocks: Seq<Seq<Seq<Cell>>>) -> Map<u32, Seq<Cell>> {
    Map::new(
        |id: u32| exists|j: int| block_holds(blocks, j, id),
        |id: u32| find(build(blocks[choose|j: int| block_holds(blocks, j, id)]), id).unwrap(),
    )
}

/// Of the blocks' pages that are not empty, every two lie apart: one ends
/// before the other starts.
pub open spec fn blocks_apart(blocks: Seq<Seq<Seq<Cell>>>) -> bool {
    forall|i: int, j: int|
        0 <= i < j < blocks.len() && (#[trigger] build(blocks[i])).len() > 0 && (#[trigger] build(
            blocks[j],
        )).len() > 0 ==> build(blocks[i]).last().0 < build(blocks[j])[0].0 || build(
            blocks[j],
        ).last().0 < build(blocks[i])[0].0
}

/// What reading a data file gives: for each block of `PAGE_SIZE` bytes the
/// whole rows of its page, or nothing where the length is no multiple of
/// `PAGE_SIZE` or a block holds no page.
pub open spec fn parse_image(bytes: Seq<u8>, schema: Seq<RowType>) -> Option<Seq<Seq<Seq<Cell>>>>
    decreases bytes.len(),
{
    if bytes.len() == 0 {
        Some(Seq::empty())
    } else if bytes.len() < PAGE_SIZE {
        None
    } else {
        match parse_page(bytes.take(PAGE_SIZE as int), schema) {
            None => None,
            Some(rows) => match parse_image(bytes.skip(PAGE_SIZE as int), schema) {
                None => None,
                Some(rest) => Some(seq![rows] + rest),
            },
        }
    }
}

/// The blocks read so far, followed by what the rest of the file gives.
pub open spec fn image_after(
    acc: Seq<Seq<Seq<Cell>>>,
    rest: Option<Seq<Seq<Seq<Cell>>>>,
) -> Option<Seq<Seq<Seq<Cell>>>> {
    match rest {
        None => None,
        Some(more) => Some(acc + more),
    }
}

/// The pages are those of the blocks, each built from its block's rows, in
/// order, clean, and with its place as its slot.
pub open spec fn loaded(
    pages: Seq<(Page, Option<usize>)>,
    blocks: Seq<Seq<Seq<Cell>>>,
    schema: Seq<RowType>,
) -> bool {
    &&& pages.len() == blocks.len()
    &&& forall|i: int|
        0 <= i < pages.len() ==> {
            &&& (#[trigger] pages[i]).0.rows() == build(blocks[i])
            &&& pages[i].0.schema@ == schema
            &&& !pages[i].0.dirty
            &&& pages[i].0.wf()
            &&& pages[i].1 == Some(i as usize)
        }
}

/// Reads the pages of a data file, block by block, and gives each its place
/// as its slot. `None` where the schema's first column is no identifier,
/// the length is no multiple of `PAGE_SIZE`, or a block holds no page.
pub fn try_deserialize(bytes: &[u8], schema: &[RowType]) -> (r: Option<Vec<(Page, Option<usize>)>>)
    ensures
        r is Some <==> schema_ok(schema@) && parse_image(bytes@, schema@) is Some,
        r is Some ==> loaded(r.unwrap()@, parse_image(bytes@, schema@).unwrap(), schema@),
{
    if !valid_schema(schema) {
        return None;
    }
    let mut pages: Vec<(Page, Option<usize>)> = Vec::new();
    let mut offset: usize = 0;
    let ghost mut got: Seq<Seq<Seq<Cell>>> = Seq::empty();
    proof {
        assert(bytes@.skip(0) =~= bytes@);
        match parse_image(bytes@, schema@) {
            Some(more) => {
                assert(got + more =~= more);
            },
            None => {},
        }
    }
    while offset < bytes.len()
        invariant
            offset <= bytes@.len(),
            schema_ok(schema@),
            parse_image(bytes@, schema@) == image_after(
                got,
                parse_image(bytes@.skip(offset as int), schema@),
            ),
            loaded(pages@, got, schema@),
        decreases bytes@.len() - offset,
    {
        if bytes.len() - offset < PAGE_SIZE {
            return None;
        }
        let block = slice_subrange(bytes, offset, offset + PAGE_SIZE);
        let ghost rest = bytes@.skip(offset as int);
        assert(block@ =~= rest.take(PAGE_SIZE as int));
        match Page::try_from_bytes(block, schema) {
            None => {
                return None;
            },
            Some(page) => {
                proof {
                    let rows = parse_page(block@, schema@).unwrap();
                    assert(rest.skip(PAGE_SIZE as int) =~= bytes@.skip(offset + PAGE_SIZE));
                    match parse_image(bytes@.skip(offset + PAGE_SIZE), schema@) {
                        Some(more) => {
                            assert(got.push(rows) + more =~= got + (seq![rows] + more));
                        },
                        None => {},
                    }
                    got = got.push(rows);
                }
                let slot: usize = pages.len();
                pages.push((page, Some(slot)));
                offset = offset + PAGE_SIZE;
            },
        }
    }
    proof {
        assert(got + Seq::<Seq<Seq<Cell>>>::empty() =~= got);
    }
    Some(pages)
}

/// Reads the pages of a data file, block by block, and gives each its place
/// as its slot. The schema's first column is the identifier, the length is
/// a multiple of `PAGE_SIZE`, and every block holds a page.
pub fn deserialize(bytes: Vec<u8>, schema: &[RowType]) -> (r: Vec<(Page, Option<usize>)>)
    requires
        schema_ok(schema@),
        parse_image(bytes@, schema@) is Some,
    ensures
        loaded(r@, parse_image(bytes@, schema@).unwrap(), schema@),
{
    try_deserialize(bytes.as_slice(), schema).unwrap()
}

/// In a database that is in order no page is empty, and the key ranges of
/// two pages lie apart: the page under the lesser identifier ends before
/// the other starts, so the pages are in one order by start and by end.
pub proof fn lemma_ranges_apart(db: DB, a: u32, b: u32)
    requires
        db.wf(),
        db.layout().contains_key(a),
        db.layout().contains_key(b),
        a < b,
    ensures
        db.layout()[a].rows.len() > 0,
        db.layout()[b].rows.len() > 0,
        sorted(db.layout()[a].rows),
        sorted(db.layout()[b].rows),
        db.layout()[a].rows.last().0 == a,
        db.layout()[b].rows.last().0 == b,
        db.layout()[a].rows[0].0 <= a < db.layout()[b].rows[0].0 <= b,
{
    assert(db.pages@.contains_key(a) && db.pages@.contains_key(b));
    lemma_page_span(db.pages@[a].0);
    lemma_page_span(db.pages@[b].0);
}

/// A write that is taken is read back, before a sync and after it: `insert`
/// lays the row over what a reader sees, `sync` leaves what a reader sees as
/// it is, and `get` gives what a reader sees.
pub proof fn lemma_read_your_writes(before: DB, written: DB, synced: DB, id: u32, tail: Seq<Cell>)
    requires
        written@ == before@.insert(id, tail),
        synced@ == written@,
    ensures
        written@.contains_key(id) && written@[id] == tail,
        synced@.contains_key(id) && synced@[id] == tail,
{
}

/// A row that is written and then removed is read no more, where no page
/// held a row for its identifier: `insert` makes the row pending, and
/// `remove` takes a pending row out and leaves the pages alone.
pub proof fn lemma_remove_then_get(before: DB, written: DB, after: DB, id: u32, tail: Seq<Cell>)
    requires
        !before.page_map().contains_key(id),
        written.wal@ == before.wal@.insert(id, tail),
        written.page_map() == before.page_map(),
        after.wal@ == written.wal@.remove(id),
        after.page_map() == written.page_map(),
    ensures
        !after@.contains_key(id),
{
}

} // verus!
