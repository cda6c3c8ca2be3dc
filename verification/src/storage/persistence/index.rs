//! The entry-pointer table: where in the data region each document lies.

use std::collections::HashMap;
use vstd::prelude::*;
use crate::error::{Corruption, PiramidError};
use crate::storage::wire::{
    enc_u128, enc_u32, enc_u64, lemma_parse_u128, lemma_parse_u32, lemma_parse_u64, parse_u128,
    parse_u32, parse_u64, put_u128, put_u32, put_u64, take_u128, take_u32, take_u64,
};
use crate::DocId;

verus! {

broadcast use vstd::std_specs::hash::group_hash_axioms;

/// Position of a document's binary form in the data region.
#[derive(Debug, Clone, Copy, PartialEq, Eq, Structural)]
pub struct EntryPointer {
    /// Byte offset in the region.
    pub offset: u64,
    /// Number of bytes.
    pub length: u32,
}

impl EntryPointer {
    pub fn new(offset: u64, length: u32) -> (r: Self)
        ensures
            r == (EntryPointer { offset, length }),
    {
        Self { offset, length }
    }

    /// The offset behind the last byte.
    pub open spec fn end(self) -> int {
        self.offset + self.length
    }
}

/// One row of the table.
#[derive(Debug, Clone, Copy, PartialEq, Eq, Structural)]
pub struct TableEntry {
    pub id: DocId,
    pub pointer: EntryPointer,
}

/// Whether no id occurs twice among the rows.
pub open spec fn ids_distinct(rows: Seq<TableEntry>) -> bool {
    forall|i: int, j: int|
        0 <= i < j < rows.len() ==> (#[trigger] rows[i]).id != (#[trigger] rows[j]).id
}

/// Whether some row holds `id`.
pub open spec fn has_id(rows: Seq<TableEntry>, id: DocId) -> bool {
    exists|i: int| 0 <= i < rows.len() && (#[trigger] rows[i]).id == id
}

/// The index of a row that holds `id`.
pub open spec fn row_of(rows: Seq<TableEntry>, id: DocId) -> int {
    choose|i: int| 0 <= i < rows.len() && (#[trigger] rows[i]).id == id
}

/// The mapping that rows stand for.
pub open spec fn rows_map(rows: Seq<TableEntry>) -> Map<DocId, EntryPointer> {
    Map::new(|id: DocId| has_id(rows, id), |id: DocId| rows[row_of(rows, id)].pointer)
}

/// `w` is the high-water mark of the pointers in `m`: the largest end of any
/// of them, 0 where there is none.
pub open spec fn is_high_water(m: Map<DocId, EntryPointer>, w: int) -> bool {
    &&& forall|id: DocId| m.contains_key(id) ==> (#[trigger] m[id]).end() <= w
    &&& w == 0 || exists|id: DocId| m.contains_key(id) && (#[trigger] m[id]).end() == w
}

/// Whether the windows of two pointers share no byte.
pub open spec fn apart(a: EntryPointer, b: EntryPointer) -> bool {
    a.end() <= b.offset || b.end() <= a.offset
}

/// Whether no two documents share a byte of the region.
pub open spec fn non_overlapping(m: Map<DocId, EntryPointer>) -> bool {
    forall|a: DocId, b: DocId|
        m.contains_key(a) && m.contains_key(b) && a != b ==> apart(#[trigger] m[a], #[trigger] m[b])
}

/// The mapping {document id -> pointer}, held as rows in the order in which
/// the ids came; no id occurs in two rows. The order of the rows is the
/// order in which the table is written to its snapshot, in which a
/// compaction packs the documents, and in which the ids are handed to a
/// search: it is the same in every process, which the order in which a
/// hash map is walked is not. A hash map beside the rows finds the row of
/// an id.
#[derive(Debug)]
pub struct PointerTable {
    /// The rows, in the order in which the ids came.
    rows: Vec<TableEntry>,
    /// The place of the row of each id.
    at: HashMap<DocId, usize>,
}

/// Whether `at` holds for each id of the rows the place of its row, and
/// nothing else.
pub open spec fn places(rows: Seq<TableEntry>, at: Map<DocId, usize>) -> bool {
    &&& forall|i: int|
        0 <= i < rows.len() ==> at.contains_key((#[trigger] rows[i]).id) && at[rows[i].id] == i
    &&& forall|id: DocId| #[trigger]
        at.contains_key(id) ==> at[id] < rows.len() && rows[at[id] as int].id == id
}

impl View for PointerTable {
    type V = Map<DocId, EntryPointer>;

    closed spec fn view(&self) -> Map<DocId, EntryPointer> {
        rows_map(self.rows@)
    }
}

/// In rows without a repeated id, the row at `i` is the one that its id maps to.
proof fn lemma_row(rows: Seq<TableEntry>, i: int)
    requires
        ids_distinct(rows),
        0 <= i < rows.len(),
    ensures
        has_id(rows, rows[i].id),
        row_of(rows, rows[i].id) == i,
        rows_map(rows).contains_key(rows[i].id),
        rows_map(rows)[rows[i].id] == rows[i].pointer,
{
    let id = rows[i].id;
    let j = row_of(rows, id);
    assert(0 <= j < rows.len() && rows[j].id == id);
    if j < i {
        assert(rows[j].id != rows[i].id);
    } else if i < j {
        assert(rows[i].id != rows[j].id);
    }
}

/// A key of the mapping sits in some row.
proof fn lemma_key_row(rows: Seq<TableEntry>, id: DocId) -> (i: int)
    requires
        ids_distinct(rows),
        rows_map(rows).contains_key(id),
    ensures
        0 <= i < rows.len(),
        rows[i].id == id,
        rows_map(rows)[id] == rows[i].pointer,
{
    let i = row_of(rows, id);
    lemma_row(rows, i);
    i
}

proof fn lemma_push_row(rows: Seq<TableEntry>, e: TableEntry)
    requires
        ids_distinct(rows),
        !has_id(rows, e.id),
    ensures
        ids_distinct(rows.push(e)),
        rows_map(rows.push(e)) == rows_map(rows).insert(e.id, e.pointer),
{
    let after = rows.push(e);
    assert forall|i: int, j: int| 0 <= i < j < after.len() implies (#[trigger] after[i]).id != (
    #[trigger] after[j]).id by {
        if j == rows.len() {
            assert(after[i] == rows[i]);
        } else {
            assert(after[i] == rows[i] && after[j] == rows[j]);
        }
    }
    let want = rows_map(rows).insert(e.id, e.pointer);
    assert forall|id: DocId| rows_map(after).contains_key(id) == want.contains_key(id) by {
        if has_id(after, id) {
            let i = row_of(after, id);
            if i < rows.len() {
                assert(rows[i].id == id);
            }
        }
        if want.contains_key(id) {
            if id == e.id {
                assert(after[rows.len() as int].id == id);
            } else {
                let i = row_of(rows, id);
                assert(after[i].id == id);
            }
        }
    }
    assert forall|id: DocId| want.contains_key(id) implies rows_map(after)[id] == want[id] by {
        if id == e.id {
            lemma_row(after, rows.len() as int);
        } else {
            let i = lemma_key_row(rows, id);
            assert(after[i] == rows[i]);
            lemma_row(after, i);
        }
    }
    assert(rows_map(after) =~= want);
}

proof fn lemma_update_row(rows: Seq<TableEntry>, at: int, e: TableEntry)
    requires
        ids_distinct(rows),
        0 <= at < rows.len(),
        rows[at].id == e.id,
    ensures
        ids_distinct(rows.update(at, e)),
        rows_map(rows.update(at, e)) == rows_map(rows).insert(e.id, e.pointer),
{
    let after = rows.update(at, e);
    assert forall|i: int, j: int| 0 <= i < j < after.len() implies (#[trigger] after[i]).id != (
    #[trigger] after[j]).id by {
        assert(after[i].id == rows[i].id && after[j].id == rows[j].id);
    }
    let want = rows_map(rows).insert(e.id, e.pointer);
    assert forall|id: DocId| rows_map(after).contains_key(id) == want.contains_key(id) by {
        if has_id(after, id) {
            let i = row_of(after, id);
            assert(rows[i].id == id);
        }
        if want.contains_key(id) {
            if id == e.id {
                assert(after[at].id == id);
            } else {
                let i = row_of(rows, id);
                assert(after[i].id == id);
            }
        }
    }
    assert forall|id: DocId| want.contains_key(id) implies rows_map(after)[id] == want[id] by {
        if id == e.id {
            lemma_row(after, at);
        } else {
            let i = lemma_key_row(rows, id);
            assert(after[i] == rows[i]);
            lemma_row(after, i);
        }
    }
    assert(rows_map(after) =~= want);
}

proof fn lemma_remove_row(rows: Seq<TableEntry>, at: int)
    requires
        ids_distinct(rows),
        0 <= at < rows.len(),
    ensures
        ids_distinct(rows.remove(at)),
        rows_map(rows.remove(at)) == rows_map(rows).remove(rows[at].id),
{
    let after = rows.remove(at);
    let gone = rows[at].id;
    assert forall|i: int, j: int| 0 <= i < j < after.len() implies (#[trigger] after[i]).id != (
    #[trigger] after[j]).id by {
        let oi = if i < at { i } else { i + 1 };
        let oj = if j < at { j } else { j + 1 };
        assert(after[i] == rows[oi] && after[j] == rows[oj]);
    }
    let want = rows_map(rows).remove(gone);
    assert forall|id: DocId| rows_map(after).contains_key(id) == want.contains_key(id) by {
        if has_id(after, id) {
            let i = row_of(after, id);
            let oi = if i < at { i } else { i + 1 };
            assert(rows[oi].id == id);
            if id == gone {
                if oi < at {
                    assert(rows[oi].id != rows[at].id);
                } else {
                    assert(rows[at].id != rows[oi].id);
                }
            }
        }
        if want.contains_key(id) {
            let i = row_of(rows, id);
            let ni = if i < at { i } else { i - 1 };
            assert(after[ni].id == id);
        }
    }
    assert forall|id: DocId| want.contains_key(id) implies rows_map(after)[id] == want[id] by {
        let i = lemma_key_row(rows, id);
        let ni = if i < at { i } else { i - 1 };
        assert(after[ni] == rows[i]);
        lemma_row(after, ni);
    }
    assert(rows_map(after) =~= want);
}

/// Rows without a repeated id have a high-water mark.
proof fn lemma_rows_high_water(rows: Seq<TableEntry>)
    requires
        ids_distinct(rows),
    ensures
        exists|w: int| 0 <= w && is_high_water(rows_map(rows), w),
    decreases rows.len(),
{
    if rows.len() == 0 {
        assert(is_high_water(rows_map(rows), 0));
    } else {
        let init = rows.drop_last();
        let last = rows.last();
        assert forall|i: int, j: int| 0 <= i < j < init.len() implies (#[trigger] init[i]).id != (
        #[trigger] init[j]).id by {
            assert(init[i] == rows[i] && init[j] == rows[j]);
        }
        lemma_rows_high_water(init);
        if has_id(init, last.id) {
            let i = row_of(init, last.id);
            assert(rows[i].id == last.id);
            assert(rows[i].id != rows[rows.len() - 1].id);
        }
        lemma_push_row(init, last);
        assert(init.push(last) =~= rows);
        let m = rows_map(init);
        let w0 = choose|w: int| 0 <= w && is_high_water(m, w);
        let w = if last.pointer.end() > w0 { last.pointer.end() } else { w0 };
        let after = m.insert(last.id, last.pointer);
        assert forall|id: DocId| after.contains_key(id) implies (#[trigger] after[id]).end()
            <= w by {
            if id != last.id {
                assert(m[id].end() <= w0);
            }
        }
        if w != 0 {
            if w == last.pointer.end() {
                assert(after.contains_key(last.id) && after[last.id].end() == w);
            } else {
                let id0 = choose|id: DocId| m.contains_key(id) && (#[trigger] m[id]).end() == w0;
                assert(after.contains_key(id0) && after[id0].end() == w);
            }
        }
        assert(is_high_water(after, w));
    }
}

impl PointerTable {
    /// A table has a high-water mark.
    pub proof fn lemma_has_high_water(&self)
        requires
            self.wf(),
        ensures
            is_high_water(self@, high_water(self@)),
            0 <= high_water(self@),
    {
        lemma_rows_high_water(self.rows@);
        let w = choose|w: int| 0 <= w && is_high_water(self@, w);
        lemma_high_water(self@, w);
    }

    /// No id occurs in two rows.
    pub closed spec fn wf(&self) -> bool {
        ids_distinct(self.rows@) && places(self.rows@, self.at@)
    }

    /// The ids of the table in the order of its rows.
    pub closed spec fn order(&self) -> Seq<DocId> {
        Seq::new(self.rows@.len(), |i: int| self.rows@[i].id)
    }

    /// The rows list every key once, and nothing else.
    pub proof fn lemma_order(&self)
        requires
            self.wf(),
        ensures
            self.order().no_duplicates(),
            self.order().len() == self@.dom().len(),
            self@.dom().finite(),
            forall|id: DocId| self.order().contains(id) <==> self@.contains_key(id),
    {
        let rows = self.rows@;
        let order = self.order();
        assert forall|id: DocId| order.contains(id) <==> self@.contains_key(id) by {
            if order.contains(id) {
                let i = choose|i: int| 0 <= i < order.len() && order[i] == id;
                assert(rows[i].id == id);
            }
            if self@.contains_key(id) {
                let i = row_of(rows, id);
                assert(order[i] == id);
            }
        }
        assert forall|i: int, j: int| 0 <= i < order.len() && 0 <= j < order.len() && i != j implies order[i] != order[j] by {
            if i < j {
                assert(rows[i].id != rows[j].id);
            } else {
                assert(rows[j].id != rows[i].id);
            }
        }
        assert(order.to_set() =~= self@.dom());
        order.unique_seq_to_set();
    }

    /// The empty table.
    pub fn new() -> (r: Self)
        ensures
            r.wf(),
            r@ == Map::<DocId, EntryPointer>::empty(),
    {
        let r = PointerTable { rows: Vec::new(), at: HashMap::new() };
        assert(r@ =~= Map::<DocId, EntryPointer>::empty());
        r
    }

    /// Number of documents.
    pub fn len(&self) -> (r: usize)
        requires
            self.wf(),
        ensures
            r == self@.dom().len(),
            self@.dom().finite(),
    {
        proof {
            self.lemma_order();
        }
        self.rows.len()
    }

    pub fn is_empty(&self) -> (r: bool)
        requires
            self.wf(),
        ensures
            r == (self@ == Map::<DocId, EntryPointer>::empty()),
    {
        proof {
            if self.rows@.len() > 0 {
                lemma_row(self.rows@, 0);
            } else {
                assert(self@ =~= Map::<DocId, EntryPointer>::empty());
            }
        }
        self.rows.len() == 0
    }

    /// Index of the row that holds `id`.
    fn position(&self, id: DocId) -> (r: Option<usize>)
        requires
            self.wf(),
        ensures
            match r {
                Some(at) => at < self.rows@.len() && self.rows@[at as int].id == id
                    && self@.contains_key(id) && self@[id] == self.rows@[at as int].pointer,
                None => !self@.contains_key(id) && !has_id(self.rows@, id),
            },
    {
        match self.at.get(&id) {
            Some(at) => {
                proof {
                    lemma_row(self.rows@, *at as int);
                }
                Some(*at)
            },
            None => {
                proof {
                    if has_id(self.rows@, id) {
                        let i = row_of(self.rows@, id);
                        assert(self.at@.contains_key(self.rows@[i].id));
                    }
                }
                None
            },
        }
    }

    /// The pointer of `id`.
    pub fn get(&self, id: DocId) -> (r: Option<EntryPointer>)
        requires
            self.wf(),
        ensures
            r == if self@.contains_key(id) {
                Some(self@[id])
            } else {
                None
            },
    {
        match self.position(id) {
            Some(at) => Some(self.rows[at].pointer),
            None => None,
        }
    }

    pub fn contains_key(&self, id: DocId) -> (r: bool)
        requires
            self.wf(),
        ensures
            r == self@.contains_key(id),
    {
        self.position(id).is_some()
    }

    /// Point `id` at `pointer`, whether or not the table knew the id.
    pub fn insert(&mut self, id: DocId, pointer: EntryPointer)
        requires
            old(self).wf(),
        ensures
            final(self).wf(),
            final(self)@ == old(self)@.insert(id, pointer),
    {
        let e = TableEntry { id, pointer };
        match self.position(id) {
            Some(at) => {
                proof {
                    lemma_update_row(self.rows@, at as int, e);
                }
                let ghost rows = self.rows@;
                self.rows.set(at, e);
                proof {
                    assert forall|i: int| 0 <= i < self.rows@.len() implies (
                    #[trigger] self.rows@[i]).id == rows[i].id by {}
                    assert forall|x: DocId| #[trigger] self.at@.contains_key(x) implies self.at@[x]
                        < self.rows@.len() && self.rows@[self.at@[x] as int].id == x by {
                        assert(self.rows@[self.at@[x] as int].id == rows[self.at@[x] as int].id);
                    }
                }
            },
            None => {
                proof {
                    lemma_push_row(self.rows@, e);
                }
                let ghost rows = self.rows@;
                let ghost at = self.at@;
                let place: usize = self.rows.len();
                self.rows.push(e);
                self.at.insert(id, place);
                proof {
                    assert forall|i: int| 0 <= i < self.rows@.len() implies self.at@.contains_key(
                        (#[trigger] self.rows@[i]).id,
                    ) && self.at@[self.rows@[i].id] == i by {
                        if i < rows.len() {
                            assert(self.rows@[i] == rows[i]);
                            assert(at.contains_key(rows[i].id));
                        }
                    }
                    assert forall|x: DocId| #[trigger] self.at@.contains_key(x) implies self.at@[x]
                        < self.rows@.len() && self.rows@[self.at@[x] as int].id == x by {
                        if x != id {
                            assert(at.contains_key(x));
                            assert(self.rows@[at[x] as int] == rows[at[x] as int]);
                        }
                    }
                }
            },
        }
    }

    /// Forget `id`. Returns whether the table knew it.
    pub fn remove(&mut self, id: DocId) -> (r: bool)
        requires
            old(self).wf(),
        ensures
            final(self).wf(),
            final(self)@ == old(self)@.remove(id),
            r == old(self)@.contains_key(id),
    {
        match self.position(id) {
            Some(at) => {
                proof {
                    lemma_remove_row(self.rows@, at as int);
                }
                let ghost rows = self.rows@;
                let ghost places_then = self.at@;
                self.rows.remove(at);
                self.at.remove(&id);
                proof {
                    assert forall|i: int| 0 <= i < self.rows@.len() implies self.at@.contains_key(
                        (#[trigger] self.rows@[i]).id,
                    ) && self.at@[self.rows@[i].id] == if i < at {
                        i
                    } else {
                        i + 1
                    } by {
                        let was = if i < at { i } else { i + 1 };
                        assert(self.rows@[i] == rows[was]);
                        assert(places_then.contains_key(rows[was].id));
                        if was < at {
                            assert(rows[was].id != rows[at as int].id);
                        } else {
                            assert(rows[at as int].id != rows[was].id);
                        }
                    }
                    assert forall|x: DocId| #[trigger] self.at@.contains_key(x) implies has_id(
                        self.rows@,
                        x,
                    ) by {
                        assert(places_then.contains_key(x));
                        let was = places_then[x] as int;
                        assert(rows[was].id == x);
                        let now = if was < at { was } else { was - 1 };
                        assert(self.rows@[now] == rows[was]);
                    }
                }
                // The rows behind the one that left have moved up.
                let mut j: usize = at;
                while j < self.rows.len()
                    invariant
                        at <= j <= self.rows@.len(),
                        at < rows.len(),
                        rows[at as int].id == id,
                        ids_distinct(rows),
                        self.rows@ == rows.remove(at as int),
                        ids_distinct(self.rows@),
                        forall|i: int|
                            0 <= i < self.rows@.len() ==> self.at@.contains_key(
                                (#[trigger] self.rows@[i]).id,
                            ) && self.at@[self.rows@[i].id] == if i < j {
                                i
                            } else {
                                i + 1
                            },
                        forall|x: DocId| #[trigger]
                            self.at@.contains_key(x) ==> has_id(self.rows@, x),
                    decreases self.rows@.len() - j,
                {
                    let ghost before = self.at@;
                    let moved: DocId = self.rows[j].id;
                    self.at.insert(moved, j);
                    proof {
                        assert forall|i: int| 0 <= i < self.rows@.len() implies self.at@.contains_key(
                            (#[trigger] self.rows@[i]).id,
                        ) && self.at@[self.rows@[i].id] == if i < j + 1 {
                            i
                        } else {
                            i + 1
                        } by {
                            assert(before.contains_key(self.rows@[i].id));
                            if i != j {
                                if i < j {
                                    assert(self.rows@[i].id != self.rows@[j as int].id);
                                } else {
                                    assert(self.rows@[j as int].id != self.rows@[i].id);
                                }
                            }
                        }
                        assert forall|x: DocId| #[trigger] self.at@.contains_key(x) implies has_id(
                            self.rows@,
                            x,
                        ) by {
                            if x == moved {
                                assert(self.rows@[j as int].id == x);
                            } else {
                                assert(before.contains_key(x));
                            }
                        }
                    }
                    j += 1;
                }
                proof {
                    assert forall|x: DocId| #[trigger] self.at@.contains_key(x) implies self.at@[x]
                        < self.rows@.len() && self.rows@[self.at@[x] as int].id == x by {
                        let i = row_of(self.rows@, x);
                        assert(self.rows@[i].id == x);
                    }
                }
                true
            },
            None => {
                assert(self@.remove(id) =~= self@);
                false
            },
        }
    }

    /// Forget every id.
    pub fn clear(&mut self)
        ensures
            final(self).wf(),
            final(self)@ == Map::<DocId, EntryPointer>::empty(),
    {
        self.rows.clear();
        self.at.clear();
        assert(self@ =~= Map::<DocId, EntryPointer>::empty());
    }

    /// The ids of the table, in the order of its rows.
    pub fn ids(&self) -> (r: Vec<DocId>)
        requires
            self.wf(),
        ensures
            r@ == self.order(),
            r@.no_duplicates(),
            forall|id: DocId| r@.contains(id) <==> self@.contains_key(id),
    {
        let mut out: Vec<DocId> = Vec::new();
        let mut i: usize = 0;
        while i < self.rows.len()
            invariant
                i <= self.rows.len(),
                out@ == self.order().take(i as int),
            decreases self.rows.len() - i,
        {
            out.push(self.rows[i].id);
            assert(out@ =~= self.order().take(i + 1));
            i += 1;
        }
        assert(out@ =~= self.order());
        proof {
            self.lemma_order();
        }
        out
    }

    /// The high-water mark of the table without `skip`: where the next
    /// document would be appended once `skip` is forgotten.
    pub fn next_offset_without(&self, skip: DocId) -> (r: u64)
        requires
            self.wf(),
            forall|id: DocId| self@.contains_key(id) ==> (#[trigger] self@[id]).end() <= u64::MAX,
        ensures
            is_high_water(self@.remove(skip), r as int),
    {
        let mut best: u64 = 0;
        let mut i: usize = 0;
        while i < self.rows.len()
            invariant
                i <= self.rows.len(),
                self.wf(),
                forall|id: DocId|
                    self@.contains_key(id) ==> (#[trigger] self@[id]).end() <= u64::MAX,
                forall|j: int|
                    0 <= j < i && self.rows@[j].id != skip ==> self.rows@[j].pointer.end() <= best,
                best == 0 || exists|j: int|
                    0 <= j < i && self.rows@[j].id != skip && self.rows@[j].pointer.end() == best,
            decreases self.rows.len() - i,
        {
            let row = self.rows[i];
            proof {
                lemma_row(self.rows@, i as int);
                assert(self@[self.rows@[i as int].id].end() <= u64::MAX);
            }
            if row.id != skip {
                let end: u64 = row.pointer.offset + row.pointer.length as u64;
                if end > best {
                    best = end;
                }
            }
            i += 1;
        }
        proof {
            let rest = self@.remove(skip);
            assert forall|id: DocId| rest.contains_key(id) implies (#[trigger] rest[id]).end()
                <= best by {
                let j = lemma_key_row(self.rows@, id);
            }
            if best != 0 {
                let j = choose|j: int|
                    0 <= j < i && self.rows@[j].id != skip && self.rows@[j].pointer.end() == best;
                lemma_row(self.rows@, j);
                assert(rest.contains_key(self.rows@[j].id) && rest[self.rows@[j].id].end() == best);
            }
        }
        best
    }

    /// The offset at which the next document is appended: the largest end of
    /// any pointer, 0 for the empty table.
    pub fn next_offset(&self) -> (r: u64)
        requires
            self.wf(),
            forall|id: DocId| self@.contains_key(id) ==> (#[trigger] self@[id]).end() <= u64::MAX,
        ensures
            is_high_water(self@, r as int),
    {
        let mut best: u64 = 0;
        let mut i: usize = 0;
        while i < self.rows.len()
            invariant
                i <= self.rows.len(),
                self.wf(),
                forall|id: DocId|
                    self@.contains_key(id) ==> (#[trigger] self@[id]).end() <= u64::MAX,
                forall|j: int| 0 <= j < i ==> self.rows@[j].pointer.end() <= best,
                best == 0 || exists|j: int| 0 <= j < i && self.rows@[j].pointer.end() == best,
            decreases self.rows.len() - i,
        {
            let p = self.rows[i].pointer;
            proof {
                lemma_row(self.rows@, i as int);
                assert(self@[self.rows@[i as int].id].end() <= u64::MAX);
            }
            let end: u64 = p.offset + p.length as u64;
            if end > best {
                best = end;
            }
            i += 1;
        }
        proof {
            assert forall|id: DocId| self@.contains_key(id) implies (#[trigger] self@[id]).end()
                <= best by {
                let j = lemma_key_row(self.rows@, id);
            }
            if best != 0 {
                let j = choose|j: int| 0 <= j < i && self.rows@[j].pointer.end() == best;
                lemma_row(self.rows@, j);
            }
        }
        best
    }
}

/// The high-water mark of the pointers in `m`.
pub open spec fn high_water(m: Map<DocId, EntryPointer>) -> int {
    choose|w: int| is_high_water(m, w)
}

/// A table of finitely many pointers has a high-water mark.
pub proof fn lemma_finite_high_water(m: Map<DocId, EntryPointer>)
    requires
        m.dom().finite(),
    ensures
        is_high_water(m, high_water(m)),
        0 <= high_water(m),
    decreases m.dom().len(),
{
    if m.dom() =~= Set::<DocId>::empty() {
        assert(is_high_water(m, 0));
        lemma_high_water(m, 0);
    } else {
        let id = m.dom().choose();
        let rest = m.remove(id);
        assert(rest.dom() =~= m.dom().remove(id));
        lemma_finite_high_water(rest);
        let below = high_water(rest);
        let w = if m[id].end() > below { m[id].end() } else { below };
        assert(is_high_water(m, w)) by {
            assert forall|other: DocId| m.contains_key(other) implies (#[trigger] m[other]).end()
                <= w by {
                if other != id {
                    assert(rest.contains_key(other));
                    assert(rest[other].end() <= below);
                }
            }
            if w != 0 && w != m[id].end() {
                let top = choose|top: DocId|
                    rest.contains_key(top) && (#[trigger] rest[top]).end() == below;
                assert(m.contains_key(top) && m[top].end() == w);
            }
        }
        lemma_high_water(m, w);
    }
}

/// Taking a pointer out of a table does not raise its high-water mark.
pub proof fn lemma_high_water_remove(m: Map<DocId, EntryPointer>, id: DocId)
    requires
        m.dom().finite(),
    ensures
        m.remove(id).dom().finite(),
        0 <= high_water(m.remove(id)) <= high_water(m),
{
    let rest = m.remove(id);
    assert(rest.dom() =~= m.dom().remove(id));
    lemma_finite_high_water(m);
    lemma_finite_high_water(rest);
    if high_water(rest) != 0 {
        let top = choose|top: DocId|
            rest.contains_key(top) && (#[trigger] rest[top]).end() == high_water(rest);
        assert(m.contains_key(top));
        assert(m[top].end() <= high_water(m));
    }
}

/// A high-water mark is the high-water mark.
pub proof fn lemma_high_water(m: Map<DocId, EntryPointer>, w: int)
    requires
        is_high_water(m, w),
    ensures
        high_water(m) == w,
{
    lemma_high_water_unique(m, w, high_water(m));
}

/// Pointing an id at a window that starts at the high-water mark moves the
/// mark to the end of that window.
pub proof fn lemma_high_water_insert(m: Map<DocId, EntryPointer>, id: DocId, p: EntryPointer)
    requires
        p.offset == high_water(m),
        exists|w: int| is_high_water(m, w),
    ensures
        is_high_water(m.insert(id, p), p.end()),
        high_water(m.insert(id, p)) == p.end(),
{
    let w = choose|w: int| is_high_water(m, w);
    lemma_high_water(m, w);
    let after = m.insert(id, p);
    assert forall|other: DocId| after.contains_key(other) implies (#[trigger] after[other]).end()
        <= p.end() by {
        if other != id {
            assert(m[other].end() <= w);
        }
    }
    assert(after.contains_key(id) && after[id].end() == p.end());
    lemma_high_water(after, p.end());
}

/// The high-water mark of a table is unique.
pub proof fn lemma_high_water_unique(m: Map<DocId, EntryPointer>, a: int, b: int)
    requires
        is_high_water(m, a),
        is_high_water(m, b),
    ensures
        a == b,
{
    if a != 0 {
        let id = choose|id: DocId| m.contains_key(id) && (#[trigger] m[id]).end() == a;
        assert(m[id].end() <= b);
    }
    if b != 0 {
        let id = choose|id: DocId| m.contains_key(id) && (#[trigger] m[id]).end() == b;
        assert(m[id].end() <= a);
    }
    if a == 0 && b != 0 {
        let id = choose|id: DocId| m.contains_key(id) && (#[trigger] m[id]).end() == b;
        assert(m[id].end() <= 0);
    }
}


/// Binary form of one row: the id, the offset, the length.
pub open spec fn enc_row(e: TableEntry) -> Seq<u8> {
    enc_u128(e.id) + enc_u64(e.pointer.offset) + enc_u32(e.pointer.length)
}

pub open spec fn enc_rows(rows: Seq<TableEntry>) -> Seq<u8>
    decreases rows.len(),
{
    if rows.len() == 0 {
        Seq::<u8>::empty()
    } else {
        enc_rows(rows.drop_last()) + enc_row(rows.last())
    }
}

/// Binary form of a table: the number of rows, then the rows.
pub open spec fn enc_table(rows: Seq<TableEntry>) -> Seq<u8> {
    enc_u64(rows.len() as u64) + enc_rows(rows)
}

pub open spec fn parse_row(b: Seq<u8>, pos: int) -> Option<(TableEntry, int)> {
    match parse_u128(b, pos) {
        Some((id, p)) => match parse_u64(b, p) {
            Some((offset, q)) => match parse_u32(b, q) {
                Some((length, r)) => Some(
                    (TableEntry { id, pointer: EntryPointer { offset, length } }, r),
                ),
                None => None,
            },
            None => None,
        },
        None => None,
    }
}

pub open spec fn parse_rows(b: Seq<u8>, pos: int, n: nat) -> Option<(Seq<TableEntry>, int)>
    decreases n,
{
    if n == 0 {
        Some((Seq::<TableEntry>::empty(), pos))
    } else {
        match parse_rows(b, pos, (n - 1) as nat) {
            Some((rows, p)) => match parse_row(b, p) {
                Some((e, q)) => Some((rows.push(e), q)),
                None => None,
            },
            None => None,
        }
    }
}

/// The rows that `b` is the binary form of.
pub open spec fn parse_table(b: Seq<u8>) -> Option<Seq<TableEntry>> {
    match parse_u64(b, 0) {
        Some((n, p)) => match parse_rows(b, p, n as nat) {
            Some((rows, end)) => if end == b.len() {
                Some(rows)
            } else {
                None
            },
            None => None,
        },
        None => None,
    }
}

/// The table that a snapshot holds: its rows as a mapping, where the bytes
/// are the binary form of rows without a repeated id.
pub open spec fn table_decoded(b: Seq<u8>) -> Option<Map<DocId, EntryPointer>> {
    match parse_table(b) {
        Some(rows) => if ids_distinct(rows) {
            Some(rows_map(rows))
        } else {
            None
        },
        None => None,
    }
}

proof fn lemma_parse_row(p: Seq<u8>, e: TableEntry, s: Seq<u8>)
    ensures
        enc_row(e).len() == 28,
        parse_row(p + enc_row(e) + s, p.len() as int) == Some((e, p.len() as int + 28)),
{
    let b = p + enc_row(e) + s;
    let e1 = enc_u128(e.id);
    let e2 = enc_u64(e.pointer.offset);
    let e3 = enc_u32(e.pointer.length);
    lemma_parse_u128(p, e.id, e2 + e3 + s);
    assert(b =~= p + e1 + (e2 + e3 + s));
    lemma_parse_u64(p + e1, e.pointer.offset, e3 + s);
    assert(b =~= (p + e1) + e2 + (e3 + s));
    lemma_parse_u32(p + e1 + e2, e.pointer.length, s);
    assert(b =~= (p + e1 + e2) + e3 + s);
}

proof fn lemma_parse_rows(p: Seq<u8>, rows: Seq<TableEntry>, s: Seq<u8>)
    ensures
        parse_rows(p + enc_rows(rows) + s, p.len() as int, rows.len()) == Some(
            (rows, p.len() as int + enc_rows(rows).len()),
        ),
    decreases rows.len(),
{
    let b = p + enc_rows(rows) + s;
    if rows.len() == 0 {
        assert(rows =~= Seq::<TableEntry>::empty());
    } else {
        let init = rows.drop_last();
        let last = rows.last();
        lemma_parse_rows(p, init, enc_row(last) + s);
        assert(b =~= p + enc_rows(init) + (enc_row(last) + s));
        lemma_parse_row(p + enc_rows(init), last, s);
        assert(b =~= (p + enc_rows(init)) + enc_row(last) + s);
        assert(init.push(last) =~= rows);
    }
}

/// A table's binary form parses back to its rows.
proof fn lemma_table_round_trip(rows: Seq<TableEntry>)
    requires
        rows.len() <= u64::MAX,
    ensures
        parse_table(enc_table(rows)) == Some(rows),
{
    let b = enc_table(rows);
    let n = rows.len() as u64;
    let none = Seq::<u8>::empty();
    lemma_parse_u64(none, n, enc_rows(rows));
    assert(b =~= none + enc_u64(n) + enc_rows(rows));
    lemma_parse_rows(enc_u64(n), rows, none);
    assert(b =~= enc_u64(n) + enc_rows(rows) + none);
}

proof fn lemma_parse_rows_stuck(b: Seq<u8>, pos: int, k: nat, n: nat)
    requires
        k <= n,
        parse_rows(b, pos, k) is None,
    ensures
        parse_rows(b, pos, n) is None,
    decreases n,
{
    if k < n {
        lemma_parse_rows_stuck(b, pos, k, (n - 1) as nat);
    }
}

/// The place of the row of each id, or nothing where an id occurs twice
/// among the rows.
fn row_places(rows: &Vec<TableEntry>) -> (r: Option<HashMap<DocId, usize>>)
    ensures
        match r {
            Some(at) => ids_distinct(rows@) && places(rows@, at@),
            None => !ids_distinct(rows@),
        },
{
    let mut at: HashMap<DocId, usize> = HashMap::new();
    let mut j: usize = 0;
    while j < rows.len()
        invariant
            j <= rows.len(),
            forall|a: int, b: int|
                0 <= a < b < j ==> (#[trigger] rows@[a]).id != (#[trigger] rows@[b]).id,
            forall|i: int|
                0 <= i < j ==> at@.contains_key((#[trigger] rows@[i]).id) && at@[rows@[i].id] == i,
            forall|id: DocId| #[trigger]
                at@.contains_key(id) ==> at@[id] < j && rows@[at@[id] as int].id == id,
        decreases rows.len() - j,
    {
        let id: DocId = rows[j].id;
        if at.contains_key(&id) {
            proof {
                let first = at@[id] as int;
                assert(rows@[first].id == rows@[j as int].id);
            }
            return None;
        }
        let ghost before = at@;
        at.insert(id, j);
        proof {
            assert forall|a: int, b: int| 0 <= a < b < j + 1 implies (#[trigger] rows@[a]).id != (
            #[trigger] rows@[b]).id by {
                if b == j {
                    assert(before.contains_key(rows@[a].id));
                }
            }
            assert forall|i: int| 0 <= i < j + 1 implies at@.contains_key(
                (#[trigger] rows@[i]).id,
            ) && at@[rows@[i].id] == i by {
                if i < j {
                    assert(before.contains_key(rows@[i].id));
                }
            }
            assert forall|x: DocId| #[trigger] at@.contains_key(x) implies at@[x] < j + 1
                && rows@[at@[x] as int].id == x by {
                if x != id {
                    assert(before.contains_key(x));
                }
            }
        }
        j += 1;
    }
    Some(at)
}

impl PointerTable {
    /// The snapshot of this table: its binary form.
    pub fn encode(&self) -> (r: Vec<u8>)
        requires
            self.wf(),
        ensures
            table_decoded(r@) == Some(self@),
    {
        let mut buf: Vec<u8> = Vec::new();
        put_u64(&mut buf, self.rows.len() as u64);
        let ghost head = buf@;
        let ghost rows = self.rows@;
        let mut i: usize = 0;
        assert(rows.take(0) =~= Seq::<TableEntry>::empty());
        assert(buf@ =~= head + enc_rows(rows.take(0)));
        while i < self.rows.len()
            invariant
                i <= self.rows.len(),
                rows == self.rows@,
                buf@ == head + enc_rows(rows.take(i as int)),
            decreases self.rows.len() - i,
        {
            let e = self.rows[i];
            let ghost before = buf@;
            put_u128(&mut buf, e.id);
            put_u64(&mut buf, e.pointer.offset);
            put_u32(&mut buf, e.pointer.length);
            proof {
                let next = rows.take(i + 1);
                assert(next.drop_last() =~= rows.take(i as int));
                assert(next.last() == e);
                assert(buf@ =~= before + enc_row(e));
                assert(buf@ =~= head + enc_rows(next));
            }
            i += 1;
        }
        proof {
            assert(rows.take(self.rows.len() as int) =~= rows);
            assert(buf@ =~= enc_table(rows));
            lemma_table_round_trip(rows);
        }
        buf
    }

    /// The table that a snapshot holds, or nothing where the bytes are not
    /// the snapshot of a table.
    pub fn decode(b: &[u8]) -> (r: Option<PointerTable>)
        ensures
            match r {
                Some(t) => t.wf() && table_decoded(b@) == Some(t@),
                None => table_decoded(b@) is None,
            },
    {
        let (n, start) = match take_u64(b, 0) {
            Some(t) => t,
            None => { return None; },
        };
        let mut rows: Vec<TableEntry> = Vec::new();
        let mut p: usize = start;
        let mut i: u64 = 0;
        while i < n
            invariant
                i <= n,
                parse_u64(b@, 0) == Some((n, start as int)),
                parse_rows(b@, start as int, i as nat) == Some((rows@, p as int)),
            decreases n - i,
        {
            let row = match take_u128(b, p) {
                Some((id, q)) => match take_u64(b, q) {
                    Some((offset, r)) => match take_u32(b, r) {
                        Some((length, t)) => Some(
                            (TableEntry { id, pointer: EntryPointer { offset, length } }, t),
                        ),
                        None => None,
                    },
                    None => None,
                },
                None => None,
            };
            match row {
                Some((e, next)) => {
                    rows.push(e);
                    p = next;
                },
                None => {
                    proof {
                        assert(parse_row(b@, p as int) is None);
                        assert(parse_rows(b@, start as int, (i + 1) as nat) is None);
                        lemma_parse_rows_stuck(b@, start as int, (i + 1) as nat, n as nat);
                    }
                    return None;
                },
            }
            i += 1;
        }
        if p != b.len() {
            return None;
        }
        match row_places(&rows) {
            Some(at) => Some(PointerTable { rows, at }),
            None => None,
        }
    }
}

/// The table to open a collection with, given what the snapshot file held
/// (`None`: no such file) and the sizes of the data region. A snapshot that
/// decodes is the table. Without one, the table is empty as long as the
/// region has not outgrown its initial size; beyond that the region holds
/// documents that nothing points to any more, and the collection is corrupt.
pub open spec fn loaded_table(
    snapshot: Option<Seq<u8>>,
    region_len: int,
    initial_size: int,
) -> Result<Map<DocId, EntryPointer>, PiramidError> {
    match snapshot {
        Some(b) if table_decoded(b) is Some => Ok(table_decoded(b)->0),
        _ => if region_len > initial_size {
            Err(PiramidError::CorruptedData(Corruption::PointerTable))
        } else {
            Ok(Map::<DocId, EntryPointer>::empty())
        },
    }
}

/// The table to open a collection with.
pub fn load_index(snapshot: Option<&[u8]>, region_len: usize, initial_size: u64) -> (r: Result<
    PointerTable,
    PiramidError,
>)
    ensures
        match r {
            Ok(t) => t.wf() && loaded_table(
                match snapshot {
                    Some(b) => Some(b@),
                    None => None,
                },
                region_len as int,
                initial_size as int,
            ) == Ok::<Map<DocId, EntryPointer>, PiramidError>(t@),
            Err(e) => loaded_table(
                match snapshot {
                    Some(b) => Some(b@),
                    None => None,
                },
                region_len as int,
                initial_size as int,
            ) == Err::<Map<DocId, EntryPointer>, PiramidError>(e),
        },
{
    let decoded = match snapshot {
        Some(b) => PointerTable::decode(b),
        None => None,
    };
    match decoded {
        Some(t) => Ok(t),
        None => if region_len as u64 > initial_size {
            Err(PiramidError::CorruptedData(Corruption::PointerTable))
        } else {
            Ok(PointerTable::new())
        },
    }
}

/// The snapshot of a table, as it is written beside the data file.
pub fn save_index(index: &PointerTable) -> (r: Vec<u8>)
    requires
        index.wf(),
    ensures
        table_decoded(r@) == Some(index@),
{
    index.encode()
}

} // verus!
