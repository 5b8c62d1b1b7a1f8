//! Rows in the order of their identifiers.
//!
//! A `RowMap` maps identifiers to rows and keeps them in ascending order of
//! identifier, so that the first and the last key, the rows in order and any
//! part of them are at hand. Pages and the log's pending writes are both held
//! in one.

use crate::row::{cells, clone_values, Cell, RowVal};
use vstd::prelude::*;

verus! {

/// Strictly ascending by identifier.
pub open spec fn sorted(e: Seq<(u32, Seq<Cell>)>) -> bool {
    forall|i: int, j: int| 0 <= i < j < e.len() ==> (#[trigger] e[i]).0 < (#[trigger] e[j]).0
}

/// The number of entries whose identifier is below `k`: the place of `k`
/// among ascending entries.
pub open spec fn rank(e: Seq<(u32, Seq<Cell>)>, k: u32) -> int
    decreases e.len(),
{
    if e.len() == 0 {
        0
    } else if e.last().0 < k {
        e.len() as int
    } else {
        rank(e.drop_last(), k)
    }
}

/// The row under `k`, if there is one.
pub open spec fn find(e: Seq<(u32, Seq<Cell>)>, k: u32) -> Option<Seq<Cell>> {
    let p = rank(e, k);
    if p < e.len() && e[p].0 == k {
        Some(e[p].1)
    } else {
        None
    }
}

/// The entries with `v` under `k`: in place of the row that was there, or
/// else at the place that keeps the order.
pub open spec fn put(e: Seq<(u32, Seq<Cell>)>, k: u32, v: Seq<Cell>) -> Seq<(u32, Seq<Cell>)> {
    let p = rank(e, k);
    if p < e.len() && e[p].0 == k {
        e.update(p, (k, v))
    } else {
        e.insert(p, (k, v))
    }
}

/// The entries without the one under `k`.
pub open spec fn del(e: Seq<(u32, Seq<Cell>)>, k: u32) -> Seq<(u32, Seq<Cell>)> {
    let p = rank(e, k);
    if p < e.len() && e[p].0 == k {
        e.remove(p)
    } else {
        e
    }
}

/// The entries as a map from identifier to row.
pub open spec fn to_map(e: Seq<(u32, Seq<Cell>)>) -> Map<u32, Seq<Cell>> {
    Map::new(|k: u32| find(e, k) is Some, |k: u32| find(e, k).unwrap())
}

/// The entries of `a` with every entry of `b` put in, in the order of `b`:
/// where both hold a key, the row of `b` stays.
pub open spec fn put_all(a: Seq<(u32, Seq<Cell>)>, b: Seq<(u32, Seq<Cell>)>) -> Seq<
    (u32, Seq<Cell>),
>
    decreases b.len(),
{
    if b.len() == 0 {
        a
    } else {
        put(put_all(a, b.drop_last()), b.last().0, b.last().1)
    }
}

/// Among ascending entries, `rank` is the one place with every lower key
/// before it and no lower key from it on.
pub proof fn lemma_rank(e: Seq<(u32, Seq<Cell>)>, k: u32)
    requires
        sorted(e),
    ensures
        0 <= rank(e, k) <= e.len(),
        forall|i: int| 0 <= i < rank(e, k) ==> (#[trigger] e[i]).0 < k,
        forall|i: int| rank(e, k) <= i < e.len() ==> (#[trigger] e[i]).0 >= k,
    decreases e.len(),
{
    if e.len() == 0 {
    } else if e.last().0 < k {
    } else {
        let d = e.drop_last();
        lemma_rank(d, k);
        assert forall|i: int| 0 <= i < rank(e, k) implies (#[trigger] e[i]).0 < k by {
            assert(d[i] == e[i]);
        }
        assert forall|i: int| rank(e, k) <= i < e.len() implies (#[trigger] e[i]).0 >= k by {
            if i < d.len() {
                assert(d[i] == e[i]);
            }
        }
    }
}

/// A place with every lower key before it and no lower key from it on is
/// `rank`.
pub proof fn lemma_rank_is(e: Seq<(u32, Seq<Cell>)>, k: u32, p: int)
    requires
        sorted(e),
        0 <= p <= e.len(),
        forall|i: int| 0 <= i < p ==> (#[trigger] e[i]).0 < k,
        forall|i: int| p <= i < e.len() ==> (#[trigger] e[i]).0 >= k,
    ensures
        rank(e, k) == p,
{
    lemma_rank(e, k);
    let r = rank(e, k);
    if r < p {
        assert(e[r].0 < k);
        assert(e[r].0 >= k);
    } else if p < r {
        assert(e[p].0 < k);
        assert(e[p].0 >= k);
    }
}

/// Among ascending entries, `find` gives the row of the entry that holds the
/// key, and nothing where no entry holds it.
pub proof fn lemma_find(e: Seq<(u32, Seq<Cell>)>, k: u32)
    requires
        sorted(e),
    ensures
        forall|i: int| 0 <= i < e.len() && (#[trigger] e[i]).0 == k ==> find(e, k) == Some(e[i].1),
        find(e, k) is Some ==> 0 <= rank(e, k) < e.len() && e[rank(e, k)] == (
            k,
            find(e, k).unwrap(),
        ),
{
    lemma_rank(e, k);
    let p = rank(e, k);
    assert forall|i: int| 0 <= i < e.len() && (#[trigger] e[i]).0 == k implies find(e, k) == Some(
        e[i].1,
    ) by {
        if i < p {
            assert(e[i].0 < k);
        } else if i > p {
            assert(e[p].0 >= k);
            assert(e[p].0 < e[i].0);
        }
    }
}

/// Putting a row under a key keeps the order; every entry is then the new
/// one or one that was there.
#[verifier::rlimit(50)]
pub proof fn lemma_put_sorted(e: Seq<(u32, Seq<Cell>)>, k: u32, v: Seq<Cell>)
    requires
        sorted(e),
    ensures
        sorted(put(e, k, v)),
        0 <= rank(e, k) < put(e, k, v).len(),
        put(e, k, v)[rank(e, k)] == (k, v),
        find(e, k) is Some ==> put(e, k, v).len() == e.len(),
        find(e, k) is None ==> put(e, k, v).len() == e.len() + 1,
        forall|i: int|
            0 <= i < put(e, k, v).len() ==> (#[trigger] put(e, k, v)[i]) == (k, v) || exists|j: int|
                0 <= j < e.len() && e[j] == put(e, k, v)[i],
{
    lemma_rank(e, k);
    let p = rank(e, k);
    let n = put(e, k, v);
    if p < e.len() && e[p].0 == k {
        assert forall|i: int| 0 <= i < n.len() implies (#[trigger] n[i]) == (k, v) || exists|
            j: int,
        |
            0 <= j < e.len() && e[j] == n[i] by {
            if i != p {
                assert(e[i] == n[i]);
            }
        }
        assert forall|i: int, j: int| 0 <= i < j < n.len() implies (#[trigger] n[i]).0 < (
        #[trigger] n[j]).0 by {
            assert(n[i].0 == e[i].0);
            assert(n[j].0 == e[j].0);
        }
    } else {
        assert forall|i: int| 0 <= i < n.len() implies (#[trigger] n[i]) == (k, v) || exists|
            j: int,
        |
            0 <= j < e.len() && e[j] == n[i] by {
            if i < p {
                assert(e[i] == n[i]);
            } else if i > p {
                assert(e[i - 1] == n[i]);
            }
        }
        assert forall|i: int, j: int| 0 <= i < j < n.len() implies (#[trigger] n[i]).0 < (
        #[trigger] n[j]).0 by {
            if i < p {
                assert(n[i] == e[i]);
            } else if i > p {
                assert(n[i] == e[i - 1]);
            }
            if j < p {
                assert(n[j] == e[j]);
            } else if j > p {
                assert(n[j] == e[j - 1]);
            }
        }
    }
}

/// After putting a row under `k`, any other key finds what it found before.
#[verifier::rlimit(50)]
pub proof fn lemma_put_find(e: Seq<(u32, Seq<Cell>)>, k: u32, v: Seq<Cell>, q: u32)
    requires
        sorted(e),
    ensures
        find(put(e, k, v), q) == (if q == k {
            Some(v)
        } else {
            find(e, q)
        }),
{
    let n = put(e, k, v);
    let p = rank(e, k);
    lemma_put_sorted(e, k, v);
    lemma_rank(e, k);
    lemma_find(n, q);
    lemma_find(e, q);
    if q == k {
        assert(n[p].0 == q);
    } else if find(e, q) is Some {
        let j = rank(e, q);
        if p < e.len() && e[p].0 == k {
            assert(n[j] == e[j]);
        } else if j < p {
            assert(n[j] == e[j]);
        } else {
            assert(n[j + 1] == e[j]);
        }
    } else if find(n, q) is Some {
        let i = rank(n, q);
        if p < e.len() && e[p].0 == k {
            assert(n[i] == e[i]);
        } else if i < p {
            assert(n[i] == e[i]);
        } else {
            assert(n[i] == e[i - 1]);
        }
    }
}

/// Putting a row under a key keeps the order, and changes the map at that
/// key alone.
pub proof fn lemma_put(e: Seq<(u32, Seq<Cell>)>, k: u32, v: Seq<Cell>)
    requires
        sorted(e),
    ensures
        sorted(put(e, k, v)),
        to_map(put(e, k, v)) == to_map(e).insert(k, v),
        find(e, k) is Some ==> put(e, k, v).len() == e.len(),
        find(e, k) is None ==> put(e, k, v).len() == e.len() + 1,
        forall|i: int|
            0 <= i < put(e, k, v).len() ==> (#[trigger] put(e, k, v)[i]) == (k, v) || exists|j: int|
                0 <= j < e.len() && e[j] == put(e, k, v)[i],
{
    lemma_put_sorted(e, k, v);
    assert forall|q: u32| #[trigger] find(put(e, k, v), q) == (if q == k {
        Some(v)
    } else {
        find(e, q)
    }) by {
        lemma_put_find(e, k, v, q);
    }
    assert(to_map(put(e, k, v)) =~= to_map(e).insert(k, v));
}

/// Taking a key out keeps the order; every entry that stays was there.
#[verifier::rlimit(50)]
pub proof fn lemma_del_sorted(e: Seq<(u32, Seq<Cell>)>, k: u32)
    requires
        sorted(e),
    ensures
        sorted(del(e, k)),
        find(e, k) is Some ==> del(e, k).len() == e.len() - 1,
        find(e, k) is None ==> del(e, k) == e,
        forall|i: int|
            0 <= i < del(e, k).len() ==> exists|j: int|
                0 <= j < e.len() && e[j] == #[trigger] del(e, k)[i],
{
    lemma_rank(e, k);
    let p = rank(e, k);
    let n = del(e, k);
    if p < e.len() && e[p].0 == k {
        assert forall|i: int| 0 <= i < n.len() implies exists|j: int|
            0 <= j < e.len() && e[j] == #[trigger] n[i] by {
            if i < p {
                assert(e[i] == n[i]);
            } else {
                assert(e[i + 1] == n[i]);
            }
        }
        assert forall|i: int, j: int| 0 <= i < j < n.len() implies (#[trigger] n[i]).0 < (
        #[trigger] n[j]).0 by {
            if i < p {
                assert(n[i] == e[i]);
            } else {
                assert(n[i] == e[i + 1]);
            }
            if j < p {
                assert(n[j] == e[j]);
            } else {
                assert(n[j] == e[j + 1]);
            }
        }
    } else {
        assert forall|i: int| 0 <= i < n.len() implies exists|j: int|
            0 <= j < e.len() && e[j] == #[trigger] n[i] by {
            assert(e[i] == n[i]);
        }
    }
}

/// After taking `k` out, any other key finds what it found before.
#[verifier::rlimit(50)]
pub proof fn lemma_del_find(e: Seq<(u32, Seq<Cell>)>, k: u32, q: u32)
    requires
        sorted(e),
    ensures
        find(del(e, k), q) == (if q == k {
            None
        } else {
            find(e, q)
        }),
{
    let n = del(e, k);
    let p = rank(e, k);
    lemma_del_sorted(e, k);
    lemma_rank(e, k);
    lemma_find(n, q);
    lemma_find(e, q);
    if p < e.len() && e[p].0 == k {
        if find(n, q) is Some {
            let i = rank(n, q);
            if i < p {
                assert(n[i] == e[i]);
            } else {
                assert(n[i] == e[i + 1]);
                assert(e[p].0 < e[i + 1].0);
            }
        } else if q != k && find(e, q) is Some {
            let j = rank(e, q);
            if j < p {
                assert(n[j] == e[j]);
            } else {
                assert(n[j - 1] == e[j]);
            }
        }
    }
}

/// Taking a key out keeps the order, and changes the map at that key alone.
pub proof fn lemma_del(e: Seq<(u32, Seq<Cell>)>, k: u32)
    requires
        sorted(e),
    ensures
        sorted(del(e, k)),
        to_map(del(e, k)) == to_map(e).remove(k),
        find(e, k) is Some ==> del(e, k).len() == e.len() - 1,
        find(e, k) is None ==> del(e, k) == e,
        forall|i: int|
            0 <= i < del(e, k).len() ==> exists|j: int|
                0 <= j < e.len() && e[j] == #[trigger] del(e, k)[i],
{
    lemma_del_sorted(e, k);
    assert forall|q: u32| #[trigger] find(del(e, k), q) == (if q == k {
        None
    } else {
        find(e, q)
    }) by {
        lemma_del_find(e, k, q);
    }
    assert(to_map(del(e, k)) =~= to_map(e).remove(k));
}

/// A key above every key of ascending entries goes to their end.
pub proof fn lemma_put_last(e: Seq<(u32, Seq<Cell>)>, k: u32, v: Seq<Cell>)
    requires
        sorted(e),
        e.len() > 0 ==> e.last().0 < k,
    ensures
        put(e, k, v) == e.push((k, v)),
{
    assert(e.insert(e.len() as int, (k, v)) =~= e.push((k, v)));
}

/// Putting ascending entries, all above those that are there, one by one
/// puts them at the end.
pub proof fn lemma_put_all_append(a: Seq<(u32, Seq<Cell>)>, b: Seq<(u32, Seq<Cell>)>)
    requires
        sorted(a + b),
    ensures
        put_all(a, b) == a + b,
    decreases b.len(),
{
    if b.len() == 0 {
        assert(a + b =~= a);
    } else {
        let d = b.drop_last();
        let ab = a + b;
        assert(a + d =~= ab.drop_last());
        assert(sorted(a + d)) by {
            assert forall|i: int, j: int| 0 <= i < j < (a + d).len() implies (#[trigger] (a
                + d)[i]).0 < (#[trigger] (a + d)[j]).0 by {
                assert((a + d)[i] == ab[i]);
                assert((a + d)[j] == ab[j]);
            }
        }
        lemma_put_all_append(a, d);
        if (a + d).len() > 0 {
            assert((a + d).last() == ab[ab.len() - 2]);
            assert(ab.last() == b.last());
            assert(ab[ab.len() - 2].0 < ab[ab.len() - 1].0);
        }
        lemma_put_last(a + d, b.last().0, b.last().1);
        assert((a + d).push(b.last()) =~= a + b);
    }
}

/// Putting entries in one by one keeps the order; the map is the first with
/// the second laid over it.
pub proof fn lemma_put_all(a: Seq<(u32, Seq<Cell>)>, b: Seq<(u32, Seq<Cell>)>)
    requires
        sorted(a),
        sorted(b),
    ensures
        sorted(put_all(a, b)),
        to_map(put_all(a, b)) == to_map(a).union_prefer_right(to_map(b)),
    decreases b.len(),
{
    if b.len() == 0 {
        assert forall|q: u32| find(b, q) is None by {}
        assert(to_map(a).union_prefer_right(to_map(b)) =~= to_map(a));
    } else {
        let d = b.drop_last();
        assert(sorted(d)) by {
            assert forall|i: int, j: int| 0 <= i < j < d.len() implies (#[trigger] d[i]).0 < (
            #[trigger] d[j]).0 by {
                assert(d[i] == b[i]);
                assert(d[j] == b[j]);
            }
        }
        lemma_put_all(a, d);
        let k = b.last().0;
        let v = b.last().1;
        lemma_put(put_all(a, d), k, v);
        if d.len() > 0 {
            assert(d.last() == b[b.len() - 2]);
            assert(b[b.len() - 2].0 < b[b.len() - 1].0);
        }
        lemma_put_last(d, k, v);
        assert(d.push((k, v)) =~= b);
        lemma_put(d, k, v);
        assert(to_map(put_all(a, b)) =~= to_map(a).union_prefer_right(to_map(b)));
    }
}

/// An ordered map from identifier to row.
#[derive(Debug, PartialEq, Eq, PartialOrd, Ord, Hash)]
pub struct RowMap {
    /// The entries, ascending by identifier.
    pub entries: Vec<(u32, Vec<RowVal>)>,
}

impl View for RowMap {
    type V = Map<u32, Seq<Cell>>;

    open spec fn view(&self) -> Map<u32, Seq<Cell>> {
        to_map(self.seq())
    }
}

impl RowMap {
    /// The entries in order, each with its row's cells.
    pub open spec fn seq(&self) -> Seq<(u32, Seq<Cell>)> {
        self.entries@.map_values(|e: (u32, Vec<RowVal>)| (e.0, cells(e.1@)))
    }

    /// The entries are strictly ascending by identifier.
    pub open spec fn wf(&self) -> bool {
        sorted(self.seq())
    }

    /// An empty map.
    pub fn new() -> (r: Self)
        ensures
            r.seq() == Seq::<(u32, Seq<Cell>)>::empty(),
            r.wf(),
    {
        let r = RowMap { entries: Vec::new() };
        assert(r.seq() =~= Seq::<(u32, Seq<Cell>)>::empty());
        r
    }

    /// The number of entries.
    pub fn len(&self) -> (r: usize)
        ensures
            r == self.seq().len(),
    {
        self.entries.len()
    }

    /// Whether the map holds no entry.
    pub fn is_empty(&self) -> (r: bool)
        ensures
            r == (self.seq().len() == 0),
    {
        self.entries.len() == 0
    }

    /// The identifier of the entry at place `i`.
    pub fn key_at(&self, i: usize) -> (r: u32)
        requires
            i < self.seq().len(),
        ensures
            r == self.seq()[i as int].0,
    {
        self.entries[i].0
    }

    /// The row of the entry at place `i`.
    pub fn row_at(&self, i: usize) -> (r: &Vec<RowVal>)
        requires
            i < self.seq().len(),
        ensures
            cells(r@) == self.seq()[i as int].1,
    {
        &self.entries[i].1
    }

    /// The place of `id`: the number of entries with a lower identifier.
    pub fn lower_bound(&self, id: u32) -> (r: usize)
        requires
            self.wf(),
        ensures
            r == rank(self.seq(), id),
            r <= self.seq().len(),
    {
        let mut lo: usize = 0;
        let mut hi: usize = self.entries.len();
        while lo < hi
            invariant
                lo <= hi <= self.entries@.len(),
                self.wf(),
                forall|i: int| 0 <= i < lo ==> (#[trigger] self.seq()[i]).0 < id,
                forall|i: int| hi <= i < self.seq().len() ==> (#[trigger] self.seq()[i]).0 >= id,
            decreases hi - lo,
        {
            let mid: usize = lo + (hi - lo) / 2;
            let key: u32 = self.entries[mid].0;
            assert(self.seq()[mid as int].0 == key);
            if key < id {
                assert forall|i: int| 0 <= i < mid + 1 implies (#[trigger] self.seq()[i]).0 < id by {
                    if i < mid {
                        assert(self.seq()[i].0 < self.seq()[mid as int].0);
                    }
                }
                lo = mid + 1;
            } else {
                assert forall|i: int| mid <= i < self.seq().len() implies (
                #[trigger] self.seq()[i]).0 >= id by {
                    if i > mid {
                        assert(self.seq()[mid as int].0 < self.seq()[i].0);
                    }
                }
                hi = mid;
            }
        }
        proof {
            lemma_rank_is(self.seq(), id, lo as int);
        }
        lo
    }

    /// A copy of the row under `id`, if there is one.
    pub fn get(&self, id: u32) -> (r: Option<Vec<RowVal>>)
        requires
            self.wf(),
        ensures
            match find(self.seq(), id) {
                Some(v) => r is Some && cells(r.unwrap()@) == v,
                None => r is None,
            },
    {
        let p = self.lower_bound(id);
        if p < self.entries.len() && self.entries[p].0 == id {
            Some(clone_values(self.entries[p].1.as_slice()))
        } else {
            None
        }
    }

    /// Whether there is a row under `id`.
    pub fn contains_key(&self, id: u32) -> (r: bool)
        requires
            self.wf(),
        ensures
            r == self@.contains_key(id),
    {
        let p = self.lower_bound(id);
        p < self.entries.len() && self.entries[p].0 == id
    }

    /// Puts `values` under `id`, and hands back the row that was there.
    pub fn insert(&mut self, id: u32, values: Vec<RowVal>) -> (r: Option<Vec<RowVal>>)
        requires
            old(self).wf(),
        ensures
            final(self).wf(),
            final(self).seq() == put(old(self).seq(), id, cells(values@)),
            final(self)@ == old(self)@.insert(id, cells(values@)),
            match find(old(self).seq(), id) {
                Some(v) => r is Some && cells(r.unwrap()@) == v,
                None => r is None,
            },
    {
        let p = self.lower_bound(id);
        let ghost before = self.seq();
        let ghost v = cells(values@);
        proof {
            lemma_put(before, id, v);
        }
        if p < self.entries.len() && self.entries[p].0 == id {
            let gone = self.entries.remove(p);
            self.entries.insert(p, (id, values));
            assert(self.seq() =~= before.update(p as int, (id, v)));
            Some(gone.1)
        } else {
            self.entries.insert(p, (id, values));
            assert(self.seq() =~= before.insert(p as int, (id, v)));
            None
        }
    }

    /// Takes out the row under `id`, and hands it back.
    pub fn remove(&mut self, id: u32) -> (r: Option<Vec<RowVal>>)
        requires
            old(self).wf(),
        ensures
            final(self).wf(),
            final(self).seq() == del(old(self).seq(), id),
            final(self)@ == old(self)@.remove(id),
            match find(old(self).seq(), id) {
                Some(v) => r is Some && cells(r.unwrap()@) == v,
                None => r is None,
            },
    {
        let p = self.lower_bound(id);
        let ghost before = self.seq();
        proof {
            lemma_del(before, id);
        }
        if p < self.entries.len() && self.entries[p].0 == id {
            let gone = self.entries.remove(p);
            assert(self.seq() =~= before.remove(p as int));
            Some(gone.1)
        } else {
            None
        }
    }

    /// The least identifier, if there is an entry.
    pub fn first_key(&self) -> (r: Option<u32>)
        ensures
            self.seq().len() == 0 ==> r is None,
            self.seq().len() > 0 ==> r == Some(self.seq()[0].0),
    {
        if self.entries.len() == 0 {
            None
        } else {
            Some(self.entries[0].0)
        }
    }

    /// The greatest identifier, if there is an entry.
    pub fn last_key(&self) -> (r: Option<u32>)
        ensures
            self.seq().len() == 0 ==> r is None,
            self.seq().len() > 0 ==> r == Some(self.seq().last().0),
    {
        let n: usize = self.entries.len();
        if n == 0 {
            None
        } else {
            Some(self.entries[n - 1].0)
        }
    }

    /// A copy of the entries from place `from` up to place `to`.
    pub fn range(&self, from: usize, to: usize) -> (r: Self)
        requires
            from <= to <= self.seq().len(),
        ensures
            r.seq() == self.seq().subrange(from as int, to as int),
            self.wf() ==> r.wf(),
    {
        let mut out: Vec<(u32, Vec<RowVal>)> = Vec::new();
        let mut i: usize = from;
        while i < to
            invariant
                from <= i <= to <= self.entries@.len(),
                out@.len() == i - from,
                forall|j: int|
                    0 <= j < i - from ==> (#[trigger] out@[j]).0 == self.entries@[from + j].0
                        && cells(out@[j].1@) == cells(self.entries@[from + j].1@),
            decreases to - i,
        {
            let row = clone_values(self.entries[i].1.as_slice());
            out.push((self.entries[i].0, row));
            i = i + 1;
        }
        let r = RowMap { entries: out };
        assert(r.seq() =~= self.seq().subrange(from as int, to as int));
        r
    }
}

impl Clone for RowMap {
    fn clone(&self) -> (r: Self)
        ensures
            r.seq() == self.seq(),
    {
        let r = self.range(0, self.entries.len());
        assert(self.seq().subrange(0, self.seq().len() as int) =~= self.seq());
        r
    }
}

} // verus!
