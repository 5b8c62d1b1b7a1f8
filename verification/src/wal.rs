//! The write-ahead log: the records of its file, and the pending writes
//! that they add up to.
//!
//! An insert record is the row, led by its identifier. A delete record is
//! four zero bytes, then the identifier. No identifier is zero, so the first
//! four bytes tell the two apart.

use crate::page::{full_row, lemma_full_row};
use crate::row::{
    Cell, cells, clone_values, conforms, lemma_parse_row_round_trip, lemma_parse_row_sound,
    parse_row, row_bytes, row_id, row_valid, RowType, RowVal, schema_ok, try_bytes_to_values,
    valid_schema, values_to_bytes,
};
use crate::table::RowMap;
use crate::utils::{
    le_u32, lemma_u32_bytes_round_trip, lemma_u32_round_trip, read_u32, u32_le, u32_to_bytes,
};
use vstd::prelude::*;
use vstd::slice::slice_subrange;

verus! {

/// One record of the log.
#[derive(Debug, PartialEq, Eq, PartialOrd, Ord, Hash)]
pub enum WALRecord {
    /// The row with this identifier is set to these cells.
    Insert(u32, Vec<RowVal>),
    /// The row with this identifier is taken out.
    Delete(u32),
}

/// What a record says, as a mathematical value.
pub enum Action {
    Insert(u32, Seq<Cell>),
    Delete(u32),
}

impl View for WALRecord {
    type V = Action;

    open spec fn view(&self) -> Action {
        match self {
            WALRecord::Insert(id, row) => Action::Insert(*id, cells(row@)),
            WALRecord::Delete(id) => Action::Delete(*id),
        }
    }
}

impl Clone for WALRecord {
    fn clone(&self) -> (r: Self)
        ensures
            r@ == self@,
    {
        match self {
            WALRecord::Insert(id, row) => WALRecord::Insert(*id, clone_values(row.as_slice())),
            WALRecord::Delete(id) => WALRecord::Delete(*id),
        }
    }
}

/// What the records say, one by one.
pub open spec fn records_view(records: Seq<WALRecord>) -> Seq<Action> {
    records.map_values(|r: WALRecord| r@)
}

/// A record that a log of this schema can hold: its identifier is not zero,
/// and the cells of an insert are what the schema asks for after the
/// identifier.
pub open spec fn action_ok(a: Action, schema: Seq<RowType>) -> bool {
    match a {
        Action::Insert(id, row) => id != 0 && conforms(row, schema.skip(1)) && row_valid(row),
        Action::Delete(id) => id != 0,
    }
}

/// The encoding of one record.
pub open spec fn action_bytes(a: Action) -> Seq<u8> {
    match a {
        Action::Insert(id, row) => le_u32(id) + row_bytes(row),
        Action::Delete(id) => le_u32(0) + le_u32(id),
    }
}

/// The encoding of records, one after the other.
pub open spec fn log_bytes(actions: Seq<Action>) -> Seq<u8>
    decreases actions.len(),
{
    if actions.len() == 0 {
        Seq::empty()
    } else {
        action_bytes(actions[0]) + log_bytes(actions.skip(1))
    }
}

/// What reading one record at the start of `bytes` gives: the record and the
/// number of bytes it took. Where the first four bytes are zero it is a
/// delete record, else an insert record whose row is read by the schema.
/// Nothing where the bytes run out or hold no such record.
pub open spec fn parse_record(bytes: Seq<u8>, schema: Seq<RowType>) -> Option<(Action, int)> {
    if bytes.len() < 4 || !schema_ok(schema) {
        None
    } else if u32_le(bytes) == 0 {
        if bytes.len() >= 8 && u32_le(bytes.skip(4)) != 0 {
            Some((Action::Delete(u32_le(bytes.skip(4))), 8))
        } else {
            None
        }
    } else {
        match parse_row(bytes, schema) {
            None => None,
            Some((row, n)) => Some((Action::Insert(row_id(row), row.skip(1)), n)),
        }
    }
}

/// What reading records from `bytes` gives: every record up to the first
/// place where none can be read, be it the end, a record cut short or bytes
/// that are no record.
pub open spec fn parse_log(bytes: Seq<u8>, schema: Seq<RowType>) -> Seq<Action>
    decreases bytes.len(),
{
    let r = parse_record(bytes, schema);
    if r is Some && 0 < r.unwrap().1 <= bytes.len() {
        seq![r.unwrap().0] + parse_log(bytes.skip(r.unwrap().1), schema)
    } else {
        Seq::empty()
    }
}

/// The pending writes that records add up to when they are taken in order:
/// an insert sets its row, a delete takes its row out.
pub open spec fn replay(actions: Seq<Action>) -> Map<u32, Seq<Cell>>
    decreases actions.len(),
{
    if actions.len() == 0 {
        Map::empty()
    } else {
        match actions.last() {
            Action::Insert(id, row) => replay(actions.drop_last()).insert(id, row),
            Action::Delete(id) => replay(actions.drop_last()).remove(id),
        }
    }
}

/// What a successful read of a record gives is a record that the log can
/// hold, and took the bytes of its own encoding, four at the least.
pub proof fn lemma_parse_record_sound(bytes: Seq<u8>, schema: Seq<RowType>)
    requires
        parse_record(bytes, schema) is Some,
    ensures
        action_ok(parse_record(bytes, schema).unwrap().0, schema),
        4 <= parse_record(bytes, schema).unwrap().1 <= bytes.len(),
        action_bytes(parse_record(bytes, schema).unwrap().0) == bytes.subrange(
            0,
            parse_record(bytes, schema).unwrap().1,
        ),
{
    if u32_le(bytes) == 0 {
        lemma_u32_bytes_round_trip(bytes);
        lemma_u32_bytes_round_trip(bytes.skip(4));
        assert(bytes.subrange(0, 4) + bytes.skip(4).subrange(0, 4) =~= bytes.subrange(0, 8));
    } else {
        lemma_parse_row_sound(bytes, schema);
        let (row, n) = parse_row(bytes, schema).unwrap();
        let e = (row_id(row), row.skip(1));
        assert(row[0] is Id);
        assert(full_row(e) =~= row);
        lemma_full_row(e);
        assert(conforms(row.skip(1), schema.skip(1))) by {
            assert forall|i: int| 0 <= i < row.skip(1).len() implies crate::row::kind_of(
                #[trigger] row.skip(1)[i],
            ) == schema.skip(1)[i] by {
                assert(row.skip(1)[i] == row[i + 1]);
            }
        }
        assert(row_valid(row.skip(1))) by {
            assert forall|i: int| 0 <= i < row.skip(1).len() implies crate::row::cell_valid(
                #[trigger] row.skip(1)[i],
            ) by {
                assert(row.skip(1)[i] == row[i + 1]);
            }
        }
        assert(crate::row::cell_valid(row[0]));
        lemma_u32_round_trip(e.0, Seq::empty());
        crate::row::lemma_row_bytes_len(row.skip(1));
        crate::row::lemma_row_bytes_len(row);
    }
}

/// A record that the log can hold is read back from its encoding, whatever
/// follows it.
pub proof fn lemma_parse_record_round_trip(a: Action, schema: Seq<RowType>, rest: Seq<u8>)
    requires
        schema_ok(schema),
        action_ok(a, schema),
    ensures
        parse_record(action_bytes(a) + rest, schema) == Some((a, action_bytes(a).len() as int)),
        action_bytes(a).len() >= 4,
{
    let bytes = action_bytes(a) + rest;
    match a {
        Action::Insert(id, row) => {
            let e = (id, row);
            lemma_full_row(e);
            lemma_u32_round_trip(id, row_bytes(row) + rest);
            assert(bytes =~= le_u32(id) + (row_bytes(row) + rest));
            let whole = full_row(e);
            assert(whole[0] == Cell::Id(id));
            assert(conforms(whole, schema)) by {
                assert forall|i: int| 0 <= i < whole.len() implies crate::row::kind_of(
                    #[trigger] whole[i],
                ) == schema[i] by {
                    if i > 0 {
                        assert(whole[i] == row[i - 1]);
                        assert(schema.skip(1)[i - 1] == schema[i]);
                    }
                }
            }
            assert(row_valid(whole)) by {
                assert forall|i: int| 0 <= i < whole.len() implies crate::row::cell_valid(
                    #[trigger] whole[i],
                ) by {
                    if i > 0 {
                        assert(whole[i] == row[i - 1]);
                    }
                }
            }
            lemma_parse_row_round_trip(whole, schema, rest);
            crate::row::lemma_row_bytes_len(whole);
        },
        Action::Delete(id) => {
            lemma_u32_round_trip(0, le_u32(id) + rest);
            lemma_u32_round_trip(id, rest);
            assert(bytes =~= le_u32(0) + (le_u32(id) + rest));
            assert(bytes.skip(4) =~= le_u32(id) + rest);
        },
    }
}

/// Records that the log can hold are read back from their encodings, all of
/// them and in their order.
pub proof fn lemma_log_round_trip(actions: Seq<Action>, schema: Seq<RowType>)
    requires
        schema_ok(schema),
        forall|i: int| 0 <= i < actions.len() ==> action_ok(#[trigger] actions[i], schema),
    ensures
        parse_log(log_bytes(actions), schema) == actions,
    decreases actions.len(),
{
    if actions.len() == 0 {
        assert(parse_log(log_bytes(actions), schema) =~= actions);
    } else {
        let tail = actions.skip(1);
        let bytes = log_bytes(actions);
        lemma_parse_record_round_trip(actions[0], schema, log_bytes(tail));
        let n = action_bytes(actions[0]).len() as int;
        assert(bytes.skip(n) =~= log_bytes(tail));
        assert forall|i: int| 0 <= i < tail.len() implies action_ok(#[trigger] tail[i], schema) by {
            assert(tail[i] == actions[i + 1]);
        }
        lemma_log_round_trip(tail, schema);
        assert(seq![actions[0]] + tail =~= actions);
    }
}

impl WALRecord {
    /// Whether a log can hold the record: its identifier is not zero, and
    /// the format can hold every cell.
    pub open spec fn valid(&self) -> bool {
        match self@ {
            Action::Insert(id, row) => id != 0 && row_valid(row),
            Action::Delete(id) => id != 0,
        }
    }

    /// The record's encoding.
    pub fn to_bytes(&self) -> (r: Vec<u8>)
        requires
            self.valid(),
        ensures
            r@ == action_bytes(self@),
    {
        match self {
            WALRecord::Insert(id, row) => {
                let mut res = u32_to_bytes(*id);
                let mut cells = values_to_bytes(row.as_slice());
                res.append(&mut cells);
                res
            },
            WALRecord::Delete(id) => {
                let mut res = u32_to_bytes(0);
                let mut tail = u32_to_bytes(*id);
                res.append(&mut tail);
                res
            },
        }
    }

    /// Reads one record from the start of `bytes`, and says how many bytes
    /// it took. `None` where the bytes hold no record.
    pub fn try_from_bytes(bytes: &[u8], schema: &[RowType]) -> (r: Option<(Self, usize)>)
        ensures
            match parse_record(bytes@, schema@) {
                Some((a, n)) => r is Some && r.unwrap().0@ == a && r.unwrap().1 == n,
                None => r is None,
            },
    {
        if bytes.len() < 4 || !valid_schema(schema) {
            return None;
        }
        let head = read_u32(bytes, 0);
        assert(bytes@.skip(0) =~= bytes@);
        if head == 0 {
            if bytes.len() < 8 {
                return None;
            }
            let id = read_u32(bytes, 4);
            if id == 0 {
                None
            } else {
                Some((WALRecord::Delete(id), 8))
            }
        } else {
            match try_bytes_to_values(bytes, schema) {
                None => None,
                Some((mut row, n)) => {
                    proof {
                        lemma_parse_row_sound(bytes@, schema@);
                    }
                    let ghost whole = cells(row@);
                    assert(whole[0] is Id);
                    let first = row.remove(0);
                    assert(cells(row@) =~= whole.skip(1));
                    match first {
                        RowVal::Id(id) => Some((WALRecord::Insert(id, row), n)),
                        _ => None,
                    }
                },
            }
        }
    }

    /// Reads one record from the start of `bytes`, which hold one, and says
    /// how many bytes it took.
    pub fn from_bytes(bytes: &[u8], schema: &[RowType]) -> (r: (Self, usize))
        requires
            parse_record(bytes@, schema@) is Some,
        ensures
            r.0@ == parse_record(bytes@, schema@).unwrap().0,
            r.1 == parse_record(bytes@, schema@).unwrap().1,
    {
        WALRecord::try_from_bytes(bytes, schema).unwrap()
    }
}

/// Reads the records of a log file: every record up to the first place where
/// none can be read.
pub fn deserialize_wal(bytes: &[u8], schema: &[RowType]) -> (r: Vec<WALRecord>)
    ensures
        records_view(r@) == parse_log(bytes@, schema@),
{
    let mut records: Vec<WALRecord> = Vec::new();
    let mut i: usize = 0;
    proof {
        assert(bytes@.skip(0) =~= bytes@);
        assert(records_view(records@) + parse_log(bytes@, schema@) =~= parse_log(
            bytes@,
            schema@,
        ));
    }
    loop
        invariant
            i <= bytes@.len(),
            parse_log(bytes@, schema@) == records_view(records@) + parse_log(
                bytes@.skip(i as int),
                schema@,
            ),
        ensures
            parse_log(bytes@, schema@) == records_view(records@),
        decreases bytes@.len() - i,
    {
        let rest = slice_subrange(bytes, i, bytes.len());
        assert(rest@ =~= bytes@.skip(i as int));
        match WALRecord::try_from_bytes(rest, schema) {
            None => {
                proof {
                    assert(parse_log(rest@, schema@) =~= Seq::<Action>::empty());
                    assert(records_view(records@) + Seq::<Action>::empty() =~= records_view(
                        records@,
                    ));
                }
                break ;
            },
            Some((record, n)) => {
                let ghost acc = records_view(records@);
                proof {
                    lemma_parse_record_sound(rest@, schema@);
                    assert(rest@.skip(n as int) =~= bytes@.skip(i + n));
                    assert(acc.push(record@) + parse_log(bytes@.skip(i + n), schema@) =~= acc + (
                    seq![record@] + parse_log(bytes@.skip(i + n), schema@)));
                }
                records.push(record);
                assert(records_view(records@) =~= acc.push(record@));
                i = i + n;
            },
        }
    }
    records
}

/// The log in memory: the pending writes, a row for each identifier that
/// has one, and the records that have been taken since the log file was
/// last written to.
#[derive(Debug)]
pub struct WAL {
    pub records: RowMap,
    /// The bytes that have yet to be appended to the log file.
    pub unwritten: Vec<u8>,
}

impl View for WAL {
    type V = Map<u32, Seq<Cell>>;

    open spec fn view(&self) -> Map<u32, Seq<Cell>> {
        self.records@
    }
}

impl WAL {
    /// The pending writes are in order.
    pub open spec fn wf(&self) -> bool {
        self.records.wf()
    }

    /// A log with nothing pending and nothing to append.
    pub fn new() -> (r: Self)
        ensures
            r@ == Map::<u32, Seq<Cell>>::empty(),
            r.records.seq().len() == 0,
            r.unwritten@ == Seq::<u8>::empty(),
            r.wf(),
    {
        let r = WAL { records: RowMap::new(), unwritten: Vec::new() };
        assert(r@ =~= Map::<u32, Seq<Cell>>::empty());
        r
    }

    /// The pending writes that the records of a log file add up to, with
    /// nothing to append. Every pending row is the row of an insert record.
    pub fn from_records(records: &[WALRecord]) -> (r: Self)
        ensures
            r@ == replay(records_view(records@)),
            r.unwritten@ == Seq::<u8>::empty(),
            r.wf(),
            forall|i: int|
                0 <= i < r.records.seq().len() ==> exists|j: int|
                    0 <= j < records@.len() && records@[j]@ == Action::Insert(
                        (#[trigger] r.records.seq()[i]).0,
                        r.records.seq()[i].1,
                    ),
    {
        let mut wal = WAL::new();
        let mut i: usize = 0;
        assert(records_view(records@).take(0) =~= Seq::<Action>::empty());
        while i < records.len()
            invariant
                i <= records.len(),
                wal.wf(),
                wal.unwritten@ == Seq::<u8>::empty(),
                wal@ == replay(records_view(records@).take(i as int)),
                forall|x: int|
                    0 <= x < wal.records.seq().len() ==> exists|j: int|
                        0 <= j < i && records@[j]@ == Action::Insert(
                            (#[trigger] wal.records.seq()[x]).0,
                            wal.records.seq()[x].1,
                        ),
            decreases records.len() - i,
        {
            let ghost before = wal.records.seq();
            proof {
                let taken = records_view(records@).take(i + 1);
                assert(taken.drop_last() =~= records_view(records@).take(i as int));
                assert(taken.last() == records@[i as int]@);
                match records@[i as int]@ {
                    Action::Insert(id, row) => {
                        crate::table::lemma_put(before, id, row);
                        let after = crate::table::put(before, id, row);
                        assert forall|x: int| 0 <= x < after.len() implies exists|j: int|
                            0 <= j < i + 1 && records@[j]@ == Action::Insert(
                                (#[trigger] after[x]).0,
                                after[x].1,
                            ) by {
                            if after[x] == (id, row) {
                                assert(records@[i as int]@ == Action::Insert(
                                    after[x].0,
                                    after[x].1,
                                ));
                            } else {
                                let y = choose|y: int| 0 <= y < before.len() && before[y] == after[x];
                                assert(before[y] == after[x]);
                            }
                        }
                    },
                    Action::Delete(id) => {
                        crate::table::lemma_del(before, id);
                        let after = crate::table::del(before, id);
                        assert forall|x: int| 0 <= x < after.len() implies exists|j: int|
                            0 <= j < i + 1 && records@[j]@ == Action::Insert(
                                (#[trigger] after[x]).0,
                                after[x].1,
                            ) by {
                            let y = choose|y: int| 0 <= y < before.len() && before[y] == after[x];
                            assert(before[y] == after[x]);
                        }
                    },
                }
            }
            match &records[i] {
                WALRecord::Insert(id, row) => {
                    wal.records.insert(*id, clone_values(row.as_slice()));
                },
                WALRecord::Delete(id) => {
                    wal.records.remove(*id);
                },
            }
            i = i + 1;
        }
        assert(records_view(records@).take(i as int) =~= records_view(records@));
        wal
    }

    /// Sets the pending row of `id`, and takes an insert record for the
    /// log file. The answer is always `true`: the log takes every write,
    /// and nothing else has to be done with it. The identifier is not zero,
    /// and the format can hold every cell.
    pub fn insert(&mut self, id: u32, values: &[RowVal]) -> (r: bool)
        requires
            old(self).wf(),
            id != 0,
            row_valid(cells(values@)),
        ensures
            r,
            final(self)@ == old(self)@.insert(id, cells(values@)),
            final(self).records.seq() == crate::table::put(
                old(self).records.seq(),
                id,
                cells(values@),
            ),
            final(self).unwritten@ == old(self).unwritten@ + action_bytes(
                Action::Insert(id, cells(values@)),
            ),
            final(self).wf(),
    {
        let record = WALRecord::Insert(id, clone_values(values));
        let mut bytes = record.to_bytes();
        self.unwritten.append(&mut bytes);
        match record {
            WALRecord::Insert(_, row) => {
                self.records.insert(id, row);
            },
            WALRecord::Delete(_) => {},
        }
        true
    }

    /// Takes the pending row of `id` out and hands it back, and takes a
    /// delete record for the log file, whether there was a pending row or
    /// not. The identifier is not zero.
    pub fn remove(&mut self, id: u32) -> (r: Option<Vec<RowVal>>)
        requires
            old(self).wf(),
            id != 0,
        ensures
            final(self)@ == old(self)@.remove(id),
            final(self).records.seq() == crate::table::del(old(self).records.seq(), id),
            final(self).unwritten@ == old(self).unwritten@ + action_bytes(Action::Delete(id)),
            final(self).wf(),
            old(self)@.contains_key(id) ==> r is Some && cells(r.unwrap()@) == old(self)@[id],
            !old(self)@.contains_key(id) ==> r is None,
    {
        let mut bytes = WALRecord::Delete(id).to_bytes();
        self.unwritten.append(&mut bytes);
        self.records.remove(id)
    }

    /// Hands over the bytes that have yet to be appended to the log file,
    /// and keeps none.
    pub fn take_unwritten(&mut self) -> (r: Vec<u8>)
        ensures
            r@ == old(self).unwritten@,
            final(self).unwritten@ == Seq::<u8>::empty(),
            final(self).records == old(self).records,
    {
        let mut out: Vec<u8> = Vec::new();
        out.append(&mut self.unwritten);
        assert(out@ =~= old(self).unwritten@);
        out
    }

    /// A copy of the pending row of `id`, if there is one.
    pub fn get(&self, id: u32) -> (r: Option<Vec<RowVal>>)
        requires
            self.wf(),
        ensures
            self@.contains_key(id) ==> r is Some && cells(r.unwrap()@) == self@[id],
            !self@.contains_key(id) ==> r is None,
    {
        self.records.get(id)
    }
}

/// The encoding of records in a line is their encodings in a line.
pub proof fn lemma_log_bytes_concat(a: Seq<Action>, b: Seq<Action>)
    ensures
        log_bytes(a + b) == log_bytes(a) + log_bytes(b),
    decreases a.len(),
{
    if a.len() == 0 {
        assert(a + b =~= b);
        assert(log_bytes(a) + log_bytes(b) =~= log_bytes(b));
    } else {
        lemma_log_bytes_concat(a.skip(1), b);
        assert((a + b).skip(1) =~= a.skip(1) + b);
        assert((a + b)[0] == a[0]);
        assert(log_bytes(a + b) =~= log_bytes(a) + log_bytes(b));
    }
}

/// Where a log file holds the records of some actions and the record of one
/// more is appended to it, the file is read as those actions and the one
/// more, and they add up to what the actions added up to with the one more
/// carried out: the log file keeps up with the pending writes.
pub proof fn lemma_log_append(actions: Seq<Action>, a: Action, schema: Seq<RowType>)
    requires
        schema_ok(schema),
        forall|i: int| 0 <= i < actions.len() ==> action_ok(#[trigger] actions[i], schema),
        action_ok(a, schema),
    ensures
        parse_log(log_bytes(actions) + action_bytes(a), schema) == actions.push(a),
        replay(actions.push(a)) == (match a {
            Action::Insert(id, row) => replay(actions).insert(id, row),
            Action::Delete(id) => replay(actions).remove(id),
        }),
{
    let one = seq![a];
    assert(actions.push(a) =~= actions + one);
    lemma_log_bytes_concat(actions, one);
    assert(one.skip(1) =~= Seq::<Action>::empty());
    assert(log_bytes(one.skip(1)) =~= Seq::<u8>::empty());
    assert(log_bytes(one) =~= action_bytes(a));
    assert forall|i: int| 0 <= i < actions.push(a).len() implies action_ok(
        #[trigger] actions.push(a)[i],
        schema,
    ) by {
        if i < actions.len() {
            assert(actions.push(a)[i] == actions[i]);
        }
    }
    lemma_log_round_trip(actions.push(a), schema);
    assert(actions.push(a).drop_last() =~= actions);
}

/// Every record that is read from a log is one that the log can hold.
pub proof fn lemma_parse_log_ok(bytes: Seq<u8>, schema: Seq<RowType>)
    ensures
        forall|i: int|
            0 <= i < parse_log(bytes, schema).len() ==> action_ok(
                #[trigger] parse_log(bytes, schema)[i],
                schema,
            ),
    decreases bytes.len(),
{
    let r = parse_record(bytes, schema);
    if r is Some && 0 < r.unwrap().1 <= bytes.len() {
        lemma_parse_record_sound(bytes, schema);
        lemma_parse_log_ok(bytes.skip(r.unwrap().1), schema);
        let rest = parse_log(bytes.skip(r.unwrap().1), schema);
        assert forall|i: int| 0 <= i < parse_log(bytes, schema).len() implies action_ok(
            #[trigger] parse_log(bytes, schema)[i],
            schema,
        ) by {
            if i > 0 {
                assert(parse_log(bytes, schema)[i] == rest[i - 1]);
            }
        }
    }
}

} // verus!
