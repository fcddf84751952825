//! A stack of tables read as one: records of equal key in several tables
//! shadow each other, and the merged iteration yields them in key order.
use super::block::strictly_sorted;
use super::keys::{
    compare_records, lemma_lex_equal, lemma_lex_flip, lemma_lex_trans, lemma_record_order_flip, lemma_record_order_trans,
    lex_order, not_after, record_order, KeyOrder,
};
use super::record::{spec_for_search, Record, RecordView};
use super::table::{
    lemma_table_next_keeps_kind, lemma_table_next_rank, lemma_table_seek_finds, lemma_table_seek_inv,
    lemma_table_scan_step, lemma_table_seek_then_next, rank, ref_keys, ref_probe, spec_table_next, spec_table_seek,
    table_scan, HashKind, Table, TableIter, TableIterView,
};
use super::{BlockType, Error};
use vstd::prelude::*;

verus! {

/// Whether `m` is the least minimum update index of `ts` (0 for no tables).
pub open spec fn is_least_min(ts: Seq<Table>, m: u64) -> bool {
    &&& ts.len() == 0 ==> m == 0
    &&& ts.len() > 0 ==> (exists|i: int| 0 <= i < ts.len() && ts[i].min_update_index == m)
    &&& forall|i: int| 0 <= i < ts.len() ==> m <= ts[i].min_update_index
}

/// Whether `m` is the greatest maximum update index of `ts` (0 for no
/// tables).
pub open spec fn is_greatest_max(ts: Seq<Table>, m: u64) -> bool {
    &&& ts.len() == 0 ==> m == 0
    &&& ts.len() > 0 ==> (exists|i: int| 0 <= i < ts.len() && ts[i].max_update_index == m)
    &&& forall|i: int| 0 <= i < ts.len() ==> ts[i].max_update_index <= m
}

/// A stack of tables to be read as one.
pub struct MergedTable {
    tables: Vec<Table>,
    hash_id: HashKind,
    /// If unset, produce deletions. This is useful for compaction. For the
    /// full stack, deletions should be produced; `new` leaves it unset and
    /// nothing sets it.
    suppress_deletions: bool,
    min: u64,
    max: u64,
}

impl MergedTable {
    /// The tables, oldest first.
    pub closed spec fn tables_seq(&self) -> Seq<Table> {
        self.tables@
    }

    /// The hash kind of all tables.
    pub closed spec fn hash_kind(&self) -> HashKind {
        self.hash_id
    }

    /// The least update index of the stack.
    pub closed spec fn min_index(&self) -> u64 {
        self.min
    }

    /// The greatest update index of the stack.
    pub closed spec fn max_index(&self) -> u64 {
        self.max
    }

    /// The tables, oldest first.
    pub fn tables(&self) -> (r: &Vec<Table>)
        ensures
            r@ == self.tables_seq(),
    {
        &self.tables
    }

    /// The hash kind of all tables.
    pub fn hash_id(&self) -> (r: HashKind)
        ensures
            r == self.hash_kind(),
    {
        self.hash_id
    }

    /// The least update index of the stack.
    pub fn min(&self) -> (r: u64)
        ensures
            r == self.min_index(),
    {
        self.min
    }

    /// The greatest update index of the stack.
    pub fn max(&self) -> (r: u64)
        ensures
            r == self.max_index(),
    {
        self.max
    }

    /// Whether the stack hides deletions.
    pub closed spec fn suppresses_deletions(&self) -> bool {
        self.suppress_deletions
    }

    /// Whether the stack hides deletions: never, for a stack from `new`.
    pub fn suppress_deletions(&self) -> (r: bool)
        ensures
            r == self.suppresses_deletions(),
    {
        self.suppress_deletions
    }

    /// All tables are well formed.
    pub open spec fn wf(&self) -> bool {
        forall|i: int| 0 <= i < self.tables_seq().len() ==> #[trigger] self.tables_seq()[i].wf()
    }

    /// Stack `tables`, which must all use `hash_id`; the stack spans their
    /// update indices.
    pub fn new(tables: Vec<Table>, hash_id: HashKind) -> (r: Result<Self, Error>)
        requires
            forall|i: int| 0 <= i < tables@.len() ==> #[trigger] tables@[i].wf(),
        ensures
            match r {
                Ok(mt) => (forall|i: int| 0 <= i < tables@.len() ==> #[trigger] tables@[i].hash_id == hash_id)
                    && mt.tables_seq() == tables@ && mt.hash_kind() == hash_id && !mt.suppresses_deletions()
                    && is_least_min(tables@, mt.min_index()) && is_greatest_max(tables@, mt.max_index()) && mt.wf(),
                Err(e) => e == Error::FormatError && exists|i: int|
                    0 <= i < tables@.len() && #[trigger] tables@[i].hash_id != hash_id,
            },
    {
        let mut last_max: u64 = 0;
        let mut first_min: u64 = 0;
        let mut i: usize = 0;
        while i < tables.len()
            invariant
                i <= tables@.len(),
                forall|j: int| 0 <= j < i ==> #[trigger] tables@[j].hash_id == hash_id,
                is_least_min(tables@.subrange(0, i as int), first_min),
                is_greatest_max(tables@.subrange(0, i as int), last_max),
            decreases tables@.len() - i,
        {
            let min = tables[i].min_update_index;
            let max = tables[i].max_update_index;
            if tables[i].hash_id != hash_id {
                return Err(Error::FormatError);
            }
            let ghost old_min = first_min;
            let ghost old_max = last_max;
            if i == 0 || min < first_min {
                first_min = min;
            }
            if i == 0 || max > last_max {
                last_max = max;
            }
            proof {
                let s = tables@.subrange(0, i + 1);
                let p = tables@.subrange(0, i as int);
                assert(s.drop_last() =~= p);
                if i > 0 {
                    let wi = choose|j: int| 0 <= j < p.len() && p[j].min_update_index == old_min;
                    let wa = choose|j: int| 0 <= j < p.len() && p[j].max_update_index == old_max;
                    assert(s[wi] == p[wi]);
                    assert(s[wa] == p[wa]);
                    assert(s[i as int] == tables@[i as int]);
                    assert(forall|j: int| 0 <= j < i ==> s[j] == p[j]);
                }
                assert(s[i as int] == tables@[i as int]);
            }
            i = i + 1;
        }
        proof {
            assert(tables@.subrange(0, tables@.len() as int) =~= tables@);
        }
        Ok(Self { tables, hash_id, suppress_deletions: false, min: first_min, max: last_max })
    }
}


/// The mathematical value of a [`MergedIter`]: the tables and the state of
/// the iterator on each, the pending record of each, the queue of iterators
/// with a pending record, and the iterator to advance before the next step.
pub struct MergedIterView {
    pub tables: Seq<Table>,
    pub its: Seq<TableIterView>,
    pub recs: Seq<RecordView>,
    pub pq: Seq<usize>,
    pub suppress_deletions: bool,
    pub advance_index: int,
}

impl MergedIterView {
    /// Every sub-iterator is well formed on its table, the queue names each
    /// sub-iterator at most once, and the one to advance is not queued.
    pub open spec fn inv(self) -> bool {
        &&& self.inv_core()
        &&& self.advance_index >= 0 ==> !self.pq.contains(self.advance_index as usize)
    }

    /// All of `inv` but for the iterator to advance not being queued.
    pub open spec fn inv_core(self) -> bool {
        &&& self.its.len() == self.tables.len()
        &&& self.recs.len() == self.tables.len()
        &&& forall|i: int| 0 <= i < self.tables.len() ==> #[trigger] self.tables[i].wf()
        &&& forall|i: int| 0 <= i < self.tables.len() ==> #[trigger] self.its[i].inv(&self.tables[i])
        &&& forall|k: int| 0 <= k < self.pq.len() ==> #[trigger] self.pq[k] < self.tables.len()
        &&& self.pq.no_duplicates()
        &&& -1 <= self.advance_index < self.tables.len()
        &&& !self.suppress_deletions
    }

    /// The pending record of the sub-iterator that queue position `k` names.
    pub open spec fn queued(self, k: int) -> RecordView {
        self.recs[self.pq[k] as int]
    }
}

/// Sum of what the first `n` sub-iterators have left to yield.
pub open spec fn rank_sum_upto(tables: Seq<Table>, its: Seq<TableIterView>, n: int) -> int
    decreases n,
{
    if n <= 0 {
        0
    } else {
        rank_sum_upto(tables, its, n - 1) + rank(&tables[n - 1], its[n - 1])
    }
}

/// What all sub-iterators have left to yield.
pub open spec fn rank_sum(m: MergedIterView) -> int {
    rank_sum_upto(m.tables, m.its, m.tables.len() as int)
}

proof fn lemma_rank_sum_update(tables: Seq<Table>, its: Seq<TableIterView>, n: int, i: int, x: TableIterView)
    requires
        0 <= i < its.len(),
        n <= its.len(),
    ensures
        i < n ==> rank_sum_upto(tables, its.update(i, x), n) == rank_sum_upto(tables, its, n) - rank(
            &tables[i],
            its[i],
        ) + rank(&tables[i], x),
        i >= n ==> rank_sum_upto(tables, its.update(i, x), n) == rank_sum_upto(tables, its, n),
    decreases n,
{
    if n > 0 {
        lemma_rank_sum_update(tables, its, n - 1, i, x);
    }
}

proof fn lemma_rank_sum_nonneg(tables: Seq<Table>, its: Seq<TableIterView>, n: int)
    requires
        n <= its.len(),
        n <= tables.len(),
        forall|i: int| 0 <= i < n ==> #[trigger] its[i].inv(&tables[i]),
    ensures
        rank_sum_upto(tables, its, n) >= 0,
    decreases n,
{
    if n > 0 {
        lemma_rank_sum_nonneg(tables, its, n - 1);
        assert(its[n - 1].inv(&tables[n - 1]));
    }
}

/// What `MergedIter::advance_subiter` does: the next record of sub-iterator
/// `i` becomes its pending record, and the sub-iterator is queued where
/// there was one; `None` where the sub-iterator panics.
pub open spec fn spec_advance_subiter(m: MergedIterView, i: int) -> Option<(MergedIterView, Result<bool, Error>)> {
    match spec_table_next(&m.tables[i], m.its[i], m.recs[i]) {
        None => None,
        Some((it2, rec2, res)) => {
            let m1 = MergedIterView { its: m.its.update(i, it2), recs: m.recs.update(i, rec2), ..m };
            match res {
                Ok(true) => Some((MergedIterView { pq: m1.pq.push(i as usize), ..m1 }, Ok(true))),
                _ => Some((m1, res)),
            }
        },
    }
}

/// Whether the record of sub-iterator `a` goes before that of `b`: a
/// smaller key, or an equal key in a later (newer) table.
pub open spec fn goes_first(recs: Seq<RecordView>, a: usize, b: usize) -> bool {
    record_order(recs[a as int], recs[b as int]) == Some(KeyOrder::Less) || (record_order(
        recs[a as int],
        recs[b as int],
    ) == Some(KeyOrder::Equal) && a > b)
}

/// The queue position of the record that goes first among the first `j`.
pub open spec fn scan_best(recs: Seq<RecordView>, pq: Seq<usize>, j: int) -> int
    decreases j,
{
    if j <= 1 {
        0
    } else {
        let b = scan_best(recs, pq, j - 1);
        if goes_first(recs, pq[j - 1], pq[b]) {
            j - 1
        } else {
            b
        }
    }
}

/// The queue position of the record that goes first.
pub open spec fn best_of(m: MergedIterView) -> int {
    scan_best(m.recs, m.pq, m.pq.len() as int)
}

/// Law: the record that goes first is not after any queued record.
pub proof fn lemma_scan_best_min(recs: Seq<RecordView>, pq: Seq<usize>, j: int)
    requires
        1 <= j <= pq.len(),
        forall|k: int| 0 <= k < pq.len() ==> #[trigger] pq[k] < recs.len(),
    ensures
        0 <= scan_best(recs, pq, j) < j,
        forall|k: int|
            0 <= k < j ==> not_after(recs[pq[scan_best(recs, pq, j)] as int], #[trigger] recs[pq[k] as int]),
    decreases j,
{
    if j <= 1 {
        lemma_record_order_self(recs[pq[0] as int]);
    } else {
        lemma_scan_best_min(recs, pq, j - 1);
        let b = scan_best(recs, pq, j - 1);
        let c = pq[j - 1];
        lemma_record_order_self(recs[c as int]);
        lemma_record_order_flip(recs[c as int], recs[pq[b] as int]);
        if goes_first(recs, c, pq[b]) {
            assert forall|k: int| 0 <= k < j implies not_after(recs[c as int], #[trigger] recs[pq[k] as int]) by {
                if k < j - 1 {
                    lemma_record_order_trans(recs[c as int], recs[pq[b] as int], recs[pq[k] as int]);
                }
            }
        }
    }
}

/// A record that compares equal to another compares to a third as that
/// other does.
proof fn lemma_record_order_equal(a: RecordView, b: RecordView, c: RecordView)
    requires
        record_order(a, b) == Some(KeyOrder::Equal),
    ensures
        record_order(a, c) == record_order(b, c),
{
    match (a, b) {
        (RecordView::Ref(x), RecordView::Ref(y)) => lemma_lex_equal(x.refname, y.refname),
        (RecordView::Log(x), RecordView::Log(y)) => lemma_lex_equal(x.refname, y.refname),
        (RecordView::Obj(x), RecordView::Obj(y)) => lemma_lex_equal(x.hash_prefix, y.hash_prefix),
        (RecordView::Index(x), RecordView::Index(y)) => lemma_lex_equal(x.last_key, y.last_key),
        _ => {},
    }
}

/// Law: of the queued records that compare equal to the one that goes
/// first, none comes from a newer table than it.
pub proof fn lemma_scan_best_newest(recs: Seq<RecordView>, pq: Seq<usize>, j: int)
    requires
        1 <= j <= pq.len(),
        forall|k: int| 0 <= k < pq.len() ==> #[trigger] pq[k] < recs.len(),
    ensures
        forall|k: int|
            0 <= k < j && record_order(#[trigger] recs[pq[k] as int], recs[pq[scan_best(recs, pq, j)] as int])
                == Some(KeyOrder::Equal) ==> pq[k] <= pq[scan_best(recs, pq, j)],
    decreases j,
{
    if j > 1 {
        lemma_scan_best_newest(recs, pq, j - 1);
        lemma_scan_best_min(recs, pq, j - 1);
        let b = scan_best(recs, pq, j - 1);
        let c = pq[j - 1];
        if goes_first(recs, c, pq[b]) {
            assert forall|k: int|
                0 <= k < j && record_order(#[trigger] recs[pq[k] as int], recs[c as int]) == Some(
                    KeyOrder::Equal,
                ) implies pq[k] <= c by {
                if k < j - 1 {
                    lemma_record_order_equal(recs[pq[k] as int], recs[c as int], recs[pq[b] as int]);
                    if record_order(recs[c as int], recs[pq[b] as int]) == Some(KeyOrder::Less) {
                        lemma_record_order_flip(recs[pq[k] as int], recs[pq[b] as int]);
                        assert(not_after(recs[pq[b] as int], recs[pq[k] as int]));
                    }
                }
            }
        } else {
            assert forall|k: int|
                0 <= k < j && record_order(#[trigger] recs[pq[k] as int], recs[pq[b] as int]) == Some(
                    KeyOrder::Equal,
                ) implies pq[k] <= pq[b] by {}
        }
    }
}

/// Law: the record that `next` takes off the queue comes from the newest
/// table among the queued records that compare equal to it; the others are
/// consumed with it (see `lemma_pop_entry_order`).
pub proof fn lemma_pop_entry_newest(m: MergedIterView, rec: RecordView)
    requires
        m.inv_core(),
        spec_pop_entry(m, rec) matches Some((_, _, Ok(true))),
    ensures
        spec_pop_entry(m, rec) matches Some((m3, out, Ok(true))) ==> forall|k: int|
            0 <= k < m.pq.len() && record_order(#[trigger] m.queued(k), out) == Some(KeyOrder::Equal) ==> m.pq[k]
                <= m3.advance_index,
{
    assert(m.pq.len() > 0);
    let p = best_of(m);
    let entry = m.pq[p];
    lemma_scan_best_min(m.recs, m.pq, m.pq.len() as int);
    lemma_scan_best_newest(m.recs, m.pq, m.pq.len() as int);
    lemma_remove_queued(m.pq, p);
    let m1 = MergedIterView { pq: m.pq.remove(p), ..m };
    lemma_drain_shadows(m1, entry);
}

proof fn lemma_record_order_self(a: RecordView)
    ensures
        not_after(a, a),
{
    super::keys::lemma_lex_equal(a.key(), a.key());
}

/// The queue after removing position `p`.
proof fn lemma_remove_queued(pq: Seq<usize>, p: int)
    requires
        0 <= p < pq.len(),
        pq.no_duplicates(),
    ensures
        pq.remove(p).no_duplicates(),
        !pq.remove(p).contains(pq[p]),
        forall|x: usize| pq.remove(p).contains(x) ==> pq.contains(x),
        forall|x: usize| pq.contains(x) && x != pq[p] ==> pq.remove(p).contains(x),
        pq.remove(p).len() == pq.len() - 1,
{
    let r = pq.remove(p);
    assert forall|x: usize| r.contains(x) implies pq.contains(x) by {
        let k = choose|k: int| 0 <= k < r.len() && r[k] == x;
        if k < p {
            assert(pq[k] == x);
        } else {
            assert(pq[k + 1] == x);
        }
    }
    assert forall|x: usize| pq.contains(x) && x != pq[p] implies r.contains(x) by {
        let k = choose|k: int| 0 <= k < pq.len() && pq[k] == x;
        if k < p {
            assert(r[k] == x);
        } else {
            assert(r[k - 1] == x);
        }
    }
}

/// The loop of `MergedIter::next_entry` that consumes the records whose
/// key does not come after the record `entry` is about to return: each is
/// dequeued and its sub-iterator advanced (an iterator error where records
/// of different kinds meet); `None` where a sub-iterator panics.
pub open spec fn spec_drain(m: MergedIterView, entry: usize) -> Option<(MergedIterView, Result<(), Error>)>
    decreases rank_sum(m), m.pq.len(),
{
    if !m.inv_core() || m.pq.len() == 0 || entry >= m.tables.len() {
        Some((m, Ok(())))
    } else {
        let p = best_of(m);
        let top = m.pq[p];
        match record_order(m.recs[top as int], m.recs[entry as int]) {
            None => Some((m, Err(Error::Iterator))),
            Some(KeyOrder::Greater) => Some((m, Ok(()))),
            _ => {
                let m1 = MergedIterView { pq: m.pq.remove(p), ..m };
                match spec_advance_subiter(m1, top as int) {
                    None => None,
                    Some((m2, Err(e))) => Some((m2, Err(e))),
                    Some((m2, Ok(_))) => if m2.inv_core() && 0 <= rank_sum(m2) && (rank_sum(m2) < rank_sum(m) || (
                    rank_sum(m2) == rank_sum(m) && m2.pq.len() < m.pq.len())) {
                        spec_drain(m2, entry)
                    } else {
                        Some((m2, Err(Error::Iterator)))
                    },
                }
            },
        }
    }
}

/// Take the record that goes first off the queue, consume the records that
/// it shadows, and return it; its sub-iterator is to be advanced next time.
pub open spec fn spec_pop_entry(m: MergedIterView, rec: RecordView) -> Option<
    (MergedIterView, RecordView, Result<bool, Error>),
> {
    if m.pq.len() == 0 {
        Some((m, rec, Ok(false)))
    } else {
        let p = best_of(m);
        let entry = m.pq[p];
        let m1 = MergedIterView { pq: m.pq.remove(p), ..m };
        match spec_drain(m1, entry) {
            None => None,
            Some((m2, Err(e))) => Some((m2, rec, Err(e))),
            Some((m2, Ok(()))) => Some(
                (
                    MergedIterView {
                        advance_index: entry as int,
                        recs: m2.recs.update(entry as int, rec),
                        ..m2
                    },
                    m2.recs[entry as int],
                    Ok(true),
                ),
            ),
        }
    }
}

/// `MergedIter::next_entry`: advance the sub-iterator whose record was
/// returned last (reading it directly where no other has a record left),
/// then pop the record that goes first; `None` where a sub-iterator panics.
pub open spec fn spec_next_entry(m: MergedIterView, rec: RecordView) -> Option<
    (MergedIterView, RecordView, Result<bool, Error>),
> {
    if m.advance_index >= 0 {
        let i = m.advance_index;
        if m.pq.len() == 0 {
            match spec_table_next(&m.tables[i], m.its[i], rec) {
                None => None,
                Some((it2, rec2, r)) => Some((MergedIterView { its: m.its.update(i, it2), ..m }, rec2, r)),
            }
        } else {
            match spec_advance_subiter(m, i) {
                None => None,
                Some((m1, Err(e))) => Some((m1, rec, Err(e))),
                Some((m1, Ok(_))) => spec_pop_entry(MergedIterView { advance_index: -1, ..m1 }, rec),
            }
        }
    } else {
        spec_pop_entry(m, rec)
    }
}

/// Whether no record of `m`'s queue comes at or before `r`.
pub open spec fn all_queued_after(m: MergedIterView, r: RecordView) -> bool {
    forall|k: int|
        0 <= k < m.pq.len() ==> (#[trigger] record_order(m.queued(k), r) == Some(KeyOrder::Greater)
            || record_order(m.queued(k), r) is None)
}

proof fn lemma_drain_shadows(m: MergedIterView, entry: usize)
    requires
        m.inv_core(),
        entry < m.tables.len(),
        !m.pq.contains(entry),
        spec_drain(m, entry) matches Some((_, Ok(()))),
    ensures
        spec_drain(m, entry) matches Some((m2, Ok(()))) ==> all_queued_after(m2, m.recs[entry as int])
            && m2.recs[entry as int] == m.recs[entry as int] && !m2.pq.contains(entry) && m2.inv_core() && m2.tables == m.tables,
    decreases rank_sum(m), m.pq.len(),
{
    if m.pq.len() > 0 {
        let p = best_of(m);
        let top = m.pq[p];
        lemma_scan_best_min(m.recs, m.pq, m.pq.len() as int);
        let e = m.recs[entry as int];
        match record_order(m.recs[top as int], e) {
            Some(KeyOrder::Greater) => {
                assert forall|k: int| 0 <= k < m.pq.len() implies (#[trigger] record_order(m.queued(k), e)
                    == Some(KeyOrder::Greater) || record_order(m.queued(k), e) is None) by {
                    let x = m.queued(k);
                    assert(not_after(m.recs[top as int], x));
                    lemma_record_order_flip(m.recs[top as int], x);
                    if record_order(x, e) matches Some(o) && o != KeyOrder::Greater {
                        lemma_record_order_flip(x, m.recs[top as int]);
                        if record_order(m.recs[top as int], x) is None {
                            lemma_record_order_kinds(m.recs[top as int], x, e);
                        } else {
                            lemma_record_order_trans(m.recs[top as int], x, e);
                        }
                    }
                }
            },
            None => {},
            _ => {
                let m1 = MergedIterView { pq: m.pq.remove(p), ..m };
                lemma_remove_queued(m.pq, p);
                if let Some((m2, Ok(_))) = spec_advance_subiter(m1, top as int) {
                    if m2.inv_core() && 0 <= rank_sum(m2) && (rank_sum(m2) < rank_sum(m) || (rank_sum(m2)
                        == rank_sum(m) && m2.pq.len() < m.pq.len())) {
                        assert(!m2.pq.contains(entry)) by {
                            if m2.pq.contains(entry) {
                                assert(m1.pq.contains(entry) || entry == top);
                            }
                        }
                        lemma_drain_shadows(m2, entry);
                    }
                }
            },
        }
    }
}

/// Records compare only with records of their own kind.
proof fn lemma_record_order_kinds(a: RecordView, b: RecordView, c: RecordView)
    requires
        record_order(a, b) is None,
        record_order(b, c) is Some,
    ensures
        record_order(a, c) is None,
{
}

/// Law: the record `next` returns is not after any record that was queued
/// when it was chosen, and afterwards every queued record comes after it:
/// records with its key in other tables were consumed with it.
pub proof fn lemma_pop_entry_order(m: MergedIterView, rec: RecordView)
    requires
        m.inv_core(),
        m.advance_index == -1,
        spec_pop_entry(m, rec) matches Some((_, _, Ok(true))),
    ensures
        spec_pop_entry(m, rec) matches Some((m3, out, Ok(true))) ==> {
            &&& forall|k: int| 0 <= k < m.pq.len() ==> not_after(out, #[trigger] m.queued(k))
            &&& all_queued_after(m3, out)
        },
{
    let p = best_of(m);
    let entry = m.pq[p];
    lemma_scan_best_min(m.recs, m.pq, m.pq.len() as int);
    lemma_remove_queued(m.pq, p);
    let m1 = MergedIterView { pq: m.pq.remove(p), ..m };
    lemma_drain_shadows(m1, entry);
    let (m2, _) = spec_drain(m1, entry).unwrap();
    let m3 = MergedIterView { advance_index: entry as int, recs: m2.recs.update(entry as int, rec), ..m2 };
    assert(!m2.pq.contains(entry));
    assert(m2.inv_core());
    assert forall|k: int| 0 <= k < m3.pq.len() implies m3.queued(k) == m2.queued(k) by {
        assert(m2.pq.contains(m2.pq[k]));
        assert(m2.pq[k] != entry);
        assert(m2.pq[k] < m2.recs.len());
        assert(m3.recs == m2.recs.update(entry as int, rec));
        assert(m3.recs[m2.pq[k] as int] == m2.recs[m2.pq[k] as int]);
    }
    assert forall|k: int| 0 <= k < m.pq.len() implies not_after(m2.recs[entry as int], #[trigger] m.queued(k)) by {
        assert(m.queued(k) == m.recs[m.pq[k] as int]);
    }
}

proof fn lemma_advance_inv(m: MergedIterView, i: int)
    requires
        m.inv_core(),
        0 <= i < m.tables.len(),
        !m.pq.contains(i as usize),
        spec_advance_subiter(m, i) is Some,
    ensures
        spec_advance_subiter(m, i) matches Some((m2, _)) ==> m2.inv_core() && m2.tables == m.tables
            && m2.advance_index == m.advance_index,
{
    lemma_table_next_rank(&m.tables[i], m.its[i], m.recs[i]);
    let (m2, r) = spec_advance_subiter(m, i).unwrap();
    assert forall|j: int| 0 <= j < m2.tables.len() implies #[trigger] m2.its[j].inv(&m2.tables[j]) by {
        if j != i {
            assert(m2.its[j] == m.its[j]);
        }
    }
    if r == Ok::<bool, Error>(true) {
        assert forall|k1: int, k2: int|
            0 <= k1 < m2.pq.len() && 0 <= k2 < m2.pq.len() && k1 != k2 implies m2.pq[k1] != m2.pq[k2] by {
            if k1 < m.pq.len() && k2 < m.pq.len() {
            } else if k1 < m.pq.len() {
                assert(m.pq.contains(m.pq[k1]));
            } else {
                assert(m.pq.contains(m.pq[k2]));
            }
        }
    }
}

/// Law: after `next` returns a record, every record still queued comes
/// after it, so no record with its key is returned again from the records
/// pending now.
pub proof fn lemma_next_entry_order(m: MergedIterView, rec: RecordView)
    requires
        m.inv(),
        spec_next_entry(m, rec) matches Some((_, _, Ok(true))),
    ensures
        spec_next_entry(m, rec) matches Some((m2, out, Ok(true))) ==> all_queued_after(m2, out),
{
    if m.advance_index >= 0 {
        if m.pq.len() > 0 {
            lemma_advance_inv(m, m.advance_index);
            let (m1, _) = spec_advance_subiter(m, m.advance_index).unwrap();
            lemma_pop_entry_order(MergedIterView { advance_index: -1, ..m1 }, rec);
        }
    } else {
        lemma_pop_entry_order(m, rec);
    }
}

/// What a merged iterator has left to yield: twice what its sub-iterators
/// have left, plus the records queued.
pub open spec fn merged_rank(m: MergedIterView) -> int {
    2 * rank_sum(m) + m.pq.len()
}

/// What is left is never negative.
pub proof fn lemma_merged_rank_nonneg(m: MergedIterView)
    requires
        m.inv_core(),
    ensures
        merged_rank(m) >= 0,
{
    lemma_rank_sum_nonneg(m.tables, m.its, m.tables.len() as int);
}

/// Advancing a sub-iterator that is not queued never adds to what is left.
proof fn lemma_advance_rank(m: MergedIterView, i: int)
    requires
        m.inv_core(),
        0 <= i < m.tables.len(),
        !m.pq.contains(i as usize),
        spec_advance_subiter(m, i) is Some,
    ensures
        spec_advance_subiter(m, i) matches Some((m2, r)) ==> merged_rank(m2) <= merged_rank(m) + (if r
            == Ok::<bool, Error>(true) {
            -1int
        } else {
            0int
        }),
{
    lemma_table_next_rank(&m.tables[i], m.its[i], m.recs[i]);
    let (m2, r) = spec_advance_subiter(m, i).unwrap();
    lemma_rank_sum_update(m.tables, m.its, m.tables.len() as int, i, m2.its[i]);
    assert(m2.its == m.its.update(i, m2.its[i]));
}

/// Consuming the shadowed records never adds to what is left.
proof fn lemma_drain_rank(m: MergedIterView, entry: usize)
    requires
        spec_drain(m, entry) matches Some((_, Ok(()))),
    ensures
        spec_drain(m, entry) matches Some((m2, Ok(()))) ==> merged_rank(m2) <= merged_rank(m),
    decreases rank_sum(m), m.pq.len(),
{
    if m.inv_core() && m.pq.len() > 0 && entry < m.tables.len() {
        let p = best_of(m);
        let top = m.pq[p];
        lemma_scan_best_min(m.recs, m.pq, m.pq.len() as int);
        match record_order(m.recs[top as int], m.recs[entry as int]) {
            None => {},
            Some(KeyOrder::Greater) => {},
            _ => {
                let m1 = MergedIterView { pq: m.pq.remove(p), ..m };
                lemma_remove_queued(m.pq, p);
                lemma_advance_rank(m1, top as int);
                if let Some((m2, Ok(_))) = spec_advance_subiter(m1, top as int) {
                    if m2.inv_core() && 0 <= rank_sum(m2) && (rank_sum(m2) < rank_sum(m) || (rank_sum(m2)
                        == rank_sum(m) && m2.pq.len() < m.pq.len())) {
                        lemma_drain_rank(m2, entry);
                    }
                }
            },
        }
    }
}

/// Popping a record takes from what is left.
proof fn lemma_pop_entry_rank(m: MergedIterView, rec: RecordView)
    requires
        m.inv_core(),
        spec_pop_entry(m, rec) matches Some((_, _, Ok(true))),
    ensures
        spec_pop_entry(m, rec) matches Some((m3, _, Ok(true))) ==> merged_rank(m3) < merged_rank(m),
{
    let p = best_of(m);
    let entry = m.pq[p];
    lemma_scan_best_min(m.recs, m.pq, m.pq.len() as int);
    lemma_remove_queued(m.pq, p);
    let m1 = MergedIterView { pq: m.pq.remove(p), ..m };
    lemma_drain_rank(m1, entry);
}

/// Law: each record that `next` yields takes from what the iterator has
/// left, so iterating a merged table ends.
pub proof fn lemma_next_entry_rank(m: MergedIterView, rec: RecordView)
    requires
        m.inv(),
        spec_next_entry(m, rec) matches Some((_, _, Ok(true))),
    ensures
        spec_next_entry(m, rec) matches Some((m2, _, Ok(true))) ==> merged_rank(m2) < merged_rank(m),
{
    if m.advance_index >= 0 {
        let i = m.advance_index;
        if m.pq.len() == 0 {
            lemma_table_next_rank(&m.tables[i], m.its[i], rec);
            let (it2, _, _) = spec_table_next(&m.tables[i], m.its[i], rec).unwrap();
            lemma_rank_sum_update(m.tables, m.its, m.tables.len() as int, i, it2);
        } else {
            lemma_advance_rank(m, i);
            lemma_advance_inv(m, i);
            let (m1, _) = spec_advance_subiter(m, i).unwrap();
            lemma_pop_entry_rank(MergedIterView { advance_index: -1, ..m1 }, rec);
        }
    } else {
        lemma_pop_entry_rank(m, rec);
    }
}

/// The loop of `MergedIter::seek` from sub-iterator `i` on: seek each and
/// queue its first record; a sub-iterator that reports an iterator error is
/// skipped, any other error ends the seek; `None` where one panics.
pub open spec fn spec_seek_from(m: MergedIterView, want: RecordView, i: int) -> Option<
    (MergedIterView, Result<(), Error>),
>
    decreases m.tables.len() - i,
{
    if i < 0 || i >= m.tables.len() || i >= m.its.len() {
        Some((m, Ok(())))
    } else {
        match spec_table_seek(&m.tables[i], m.its[i], want) {
            None => None,
            Some((it2, r)) => {
                let m1 = MergedIterView { its: m.its.update(i, it2), ..m };
                match r {
                    Err(Error::Iterator) => spec_seek_from(m1, want, i + 1),
                    Err(e) => Some((m1, Err(e))),
                    Ok(()) => match spec_advance_subiter(m1, i) {
                        None => None,
                        Some((m2, Err(e))) => Some((m2, Err(e))),
                        Some((m2, Ok(_))) => if m2.tables.len() == m.tables.len() {
                            spec_seek_from(m2, want, i + 1)
                        } else {
                            None
                        },
                    },
                }
            },
        }
    }
}

/// Whether every queued record has a key not less than `want`'s.
pub open spec fn all_queued_from(m: MergedIterView, want: RecordView) -> bool {
    forall|k: int| 0 <= k < m.pq.len() ==> lex_order(#[trigger] m.queued(k).key(), want.key()) != KeyOrder::Less
}

/// Seeking the sub-iterators from `i` on keeps the iterator well formed and
/// queues only records not less than `want`.
proof fn lemma_seek_from_queued(m: MergedIterView, want: RecordView, i: int)
    requires
        m.inv_core(),
        m.tables.len() <= usize::MAX,
        m.advance_index == -1,
        0 <= i,
        forall|k: int| 0 <= k < m.pq.len() ==> #[trigger] m.pq[k] < i,
        all_queued_from(m, want),
        spec_seek_from(m, want, i) matches Some((_, Ok(()))),
    ensures
        spec_seek_from(m, want, i) matches Some((m2, Ok(()))) ==> m2.inv_core() && m2.advance_index == -1
            && m2.tables == m.tables && all_queued_from(m2, want),
    decreases m.tables.len() - i,
{
    if i < m.tables.len() {
        lemma_table_seek_inv(&m.tables[i], m.its[i], want);
        let (it2, r) = spec_table_seek(&m.tables[i], m.its[i], want).unwrap();
        let m1 = MergedIterView { its: m.its.update(i, it2), ..m };
        assert(m1.inv_core()) by {
            assert forall|j: int| 0 <= j < m1.tables.len() implies #[trigger] m1.its[j].inv(&m1.tables[j]) by {
                if j != i {
                    assert(m1.its[j] == m.its[j]);
                }
            }
        }
        assert(forall|k: int| 0 <= k < m1.pq.len() ==> #[trigger] m1.queued(k) == m.queued(k));
        match r {
            Err(Error::Iterator) => {
                lemma_seek_from_queued(m1, want, i + 1);
            },
            Err(_) => {},
            Ok(()) => {
                assert(!m1.pq.contains(i as usize)) by {
                    if m1.pq.contains(i as usize) {
                        let k = choose|k: int| 0 <= k < m1.pq.len() && m1.pq[k] == i as usize;
                        assert(m1.pq[k] < i);
                    }
                }
                lemma_advance_inv(m1, i);
                let (m2, r2) = spec_advance_subiter(m1, i).unwrap();
                if let Ok(b) = r2 {
                    if let Some((it3, out, Ok(true))) = spec_table_next(&m1.tables[i], m1.its[i], m1.recs[i]) {
                        lemma_table_seek_then_next(&m.tables[i], m.its[i], want, it2, m.recs[i], it3, out);
                    }
                    assert forall|k: int| 0 <= k < m2.pq.len() implies lex_order(
                        #[trigger] m2.queued(k).key(),
                        want.key(),
                    ) != KeyOrder::Less by {
                        if k < m1.pq.len() {
                            assert(m2.pq[k] == m1.pq[k]);
                            assert(m1.pq[k] < i);
                            assert(m2.recs[m2.pq[k] as int] == m1.recs[m1.pq[k] as int]);
                            assert(m1.queued(k) == m.queued(k));
                        }
                    }
                    assert forall|k: int| 0 <= k < m2.pq.len() implies #[trigger] m2.pq[k] < i + 1 by {
                        if k < m1.pq.len() {
                            assert(m2.pq[k] == m1.pq[k]);
                        }
                    }
                    if m2.tables.len() == m.tables.len() {
                        lemma_seek_from_queued(m2, want, i + 1);
                    }
                }
            },
        }
    }
}

/// Law: after a seek to `want`, the record that `next` returns first has a
/// key not less than `want`'s.
pub proof fn lemma_seek_then_next(m: MergedIterView, want: RecordView, rec: RecordView)
    requires
        m.inv(),
        m.tables.len() <= usize::MAX,
        spec_merged_seek(m, want) matches Some((m1, Ok(()))),
        spec_merged_seek(m, want) matches Some((m1, _)) ==> spec_next_entry(m1, rec) matches Some(
            (_, _, Ok(true)),
        ),
    ensures
        spec_merged_seek(m, want) matches Some((m1, _)) ==> (spec_next_entry(m1, rec) matches Some(
            (_, out, Ok(true)),
        ) ==> lex_order(out.key(), want.key()) != KeyOrder::Less),
{
    let m0 = MergedIterView { advance_index: -1, pq: Seq::empty(), ..m };
    lemma_seek_from_queued(m0, want, 0);
    let (m1, _) = spec_merged_seek(m, want).unwrap();
    let p = best_of(m1);
    let entry = m1.pq[p];
    lemma_scan_best_min(m1.recs, m1.pq, m1.pq.len() as int);
    lemma_remove_queued(m1.pq, p);
    let m1r = MergedIterView { pq: m1.pq.remove(p), ..m1 };
    lemma_drain_shadows(m1r, entry);
    assert(m1.queued(p) == m1.recs[entry as int]);
}

/// Whether every pending record of `m` is a ref record.
pub open spec fn all_refs(m: MergedIterView) -> bool {
    forall|j: int| 0 <= j < m.recs.len() ==> (#[trigger] m.recs[j]).record_type() == BlockType::Ref
}

/// Seeking the sub-iterators from `i` on queues table `ti`'s record keyed
/// `want` where that table holds one, its keys strictly increase, and its
/// seek succeeds.
proof fn lemma_seek_from_finds(m: MergedIterView, want: RecordView, i: int, ti: int)
    requires
        m.inv_core(),
        m.advance_index == -1,
        m.tables.len() <= usize::MAX,
        0 <= i,
        forall|k: int| 0 <= k < m.pq.len() ==> #[trigger] m.pq[k] < i,
        all_refs(m),
        0 <= ti < m.tables.len(),
        ref_keys(&m.tables[ti]) matches Some(ks) && strictly_sorted(ks) && ks.contains(want.key()),
        ti < i ==> m.pq.contains(ti as usize) && m.recs[ti].key() == want.key(),
        ti >= i ==> spec_table_seek(&m.tables[ti], m.its[ti], want) matches Some((_, Ok(_))),
        spec_seek_from(m, want, i) matches Some((_, Ok(()))),
    ensures
        spec_seek_from(m, want, i) matches Some((m2, Ok(()))) ==> m2.pq.contains(ti as usize) && m2.recs[ti].key()
            == want.key() && all_refs(m2),
    decreases m.tables.len() - i,
{
    if i < m.tables.len() {
        lemma_table_seek_inv(&m.tables[i], m.its[i], want);
        let (it2, r) = spec_table_seek(&m.tables[i], m.its[i], want).unwrap();
        let m1 = MergedIterView { its: m.its.update(i, it2), ..m };
        assert(m1.inv_core()) by {
            assert forall|j: int| 0 <= j < m1.tables.len() implies #[trigger] m1.its[j].inv(&m1.tables[j]) by {
                if j != i {
                    assert(m1.its[j] == m.its[j]);
                }
            }
        }
        match r {
            Err(Error::Iterator) => {
                lemma_seek_from_finds(m1, want, i + 1, ti);
            },
            Err(_) => {},
            Ok(()) => {
                assert(!m1.pq.contains(i as usize)) by {
                    if m1.pq.contains(i as usize) {
                        let k = choose|k: int| 0 <= k < m1.pq.len() && m1.pq[k] == i as usize;
                        assert(m1.pq[k] < i);
                    }
                }
                lemma_advance_inv(m1, i);
                lemma_table_next_keeps_kind(&m1.tables[i], m1.its[i], m1.recs[i]);
                let (m2, r2) = spec_advance_subiter(m1, i).unwrap();
                if r2 is Ok {
                    if i == ti {
                        lemma_table_seek_finds(&m.tables[i], m.its[i], want, it2, m.recs[i]);
                    }
                    assert(all_refs(m2)) by {
                        assert forall|j: int| 0 <= j < m2.recs.len() implies (#[trigger] m2.recs[j]).record_type()
                            == BlockType::Ref by {
                            if j != i {
                                assert(m2.recs[j] == m1.recs[j]);
                            }
                        }
                    }
                    if ti < i {
                        let k = choose|k: int| 0 <= k < m1.pq.len() && m1.pq[k] == ti as usize;
                        assert(m2.pq[k] == ti as usize);
                        assert(m2.recs[ti] == m1.recs[ti]);
                    }
                    if ti == i {
                        assert(m2.pq[m2.pq.len() - 1] == ti as usize);
                    }
                    if ti > i {
                        assert(m2.its[ti] == m.its[ti]);
                    }
                    assert forall|k: int| 0 <= k < m2.pq.len() implies #[trigger] m2.pq[k] < i + 1 by {
                        if k < m1.pq.len() {
                            assert(m2.pq[k] == m1.pq[k]);
                        }
                    }
                    if m2.tables.len() == m.tables.len() {
                        lemma_seek_from_finds(m2, want, i + 1, ti);
                    }
                }
            },
        }
    }
}

/// Law: where a table of the stack holds a ref record keyed `want`, its
/// ref records read without error with strictly increasing keys, its seek
/// to `want` succeeds and so does the seek of the stack, `next` then does
/// not report the end, and the record it returns is keyed `want`.
pub proof fn lemma_seek_then_next_finds(m: MergedIterView, want: RecordView, rec: RecordView, ti: int)
    requires
        m.inv(),
        m.tables.len() <= usize::MAX,
        all_refs(m),
        0 <= ti < m.tables.len(),
        ref_keys(&m.tables[ti]) matches Some(ks) && strictly_sorted(ks) && ks.contains(want.key()),
        spec_table_seek(&m.tables[ti], m.its[ti], want) matches Some((_, Ok(_))),
        spec_merged_seek(m, want) matches Some((_, Ok(()))),
    ensures
        spec_merged_seek(m, want) matches Some((m1, _)) ==> (spec_next_entry(m1, rec) matches Some((_, out, r))
            ==> r != Ok::<bool, Error>(false) && (r == Ok::<bool, Error>(true) ==> out.key() == want.key())),
{
    let m0 = MergedIterView { advance_index: -1, pq: Seq::empty(), ..m };
    lemma_seek_from_finds(m0, want, 0, ti);
    lemma_seek_from_queued(m0, want, 0);
    let (m1, _) = spec_merged_seek(m, want).unwrap();
    assert(m1.pq.len() > 0);
    if let Some((_, _, Ok(true))) = spec_next_entry(m1, rec) {
        lemma_seek_then_next(m, want, rec);
        let p = best_of(m1);
        let entry = m1.pq[p];
        lemma_scan_best_min(m1.recs, m1.pq, m1.pq.len() as int);
        lemma_remove_queued(m1.pq, p);
        let m1r = MergedIterView { pq: m1.pq.remove(p), ..m1 };
        lemma_drain_shadows(m1r, entry);
        let kt = choose|k: int| 0 <= k < m1.pq.len() && m1.pq[k] == ti as usize;
        assert(not_after(m1.recs[entry as int], m1.recs[m1.pq[kt] as int]));
        assert(m1.recs[entry as int].record_type() == BlockType::Ref);
        assert(m1.recs[ti].record_type() == BlockType::Ref);
        lemma_lex_flip(m1.recs[entry as int].key(), want.key());
        lemma_lex_equal(m1.recs[entry as int].key(), want.key());
    }
}

/// Whether the key `k` comes after `last`, where there is a last key.
pub open spec fn key_after(last: Option<Seq<u8>>, k: Seq<u8>) -> bool {
    last matches Some(x) ==> lex_order(x, k) == KeyOrder::Less
}

/// Whether the ref keys that sub-iterator `i` of `m` has left read without
/// error, strictly increase and all come after `last`.
pub open spec fn sub_ahead(m: MergedIterView, i: int, last: Option<Seq<u8>>) -> bool {
    table_scan(&m.tables[i], m.its[i], ref_probe()) matches Some(ks) && strictly_sorted(ks) && forall|j: int|
        0 <= j < ks.len() ==> key_after(last, #[trigger] ks[j])
}

/// Whether the keys each queued sub-iterator has left come after its queued
/// record, strictly increasing.
pub open spec fn queue_ahead(m: MergedIterView) -> bool {
    forall|k: int| 0 <= k < m.pq.len() ==> sub_ahead(m, #[trigger] m.pq[k] as int, Some(m.recs[m.pq[k] as int].key()))
}

/// Whether `m` reads ref records only, every queued record comes after
/// `last`, and the keys each sub-iterator has left strictly increase after
/// its queued record, or after `last` for the one to advance.
pub open spec fn ordered_after(m: MergedIterView, last: Option<Seq<u8>>) -> bool {
    &&& m.inv()
    &&& m.tables.len() <= usize::MAX
    &&& all_refs(m)
    &&& queue_ahead(m)
    &&& forall|k: int| 0 <= k < m.pq.len() ==> key_after(last, #[trigger] m.queued(k).key())
    &&& m.advance_index >= 0 ==> sub_ahead(m, m.advance_index, last)
}

/// A sorted run of keys after `k`, without its first key, comes after that.
proof fn lemma_sorted_tail(ks: Seq<Seq<u8>>, last: Option<Seq<u8>>)
    requires
        ks.len() > 0,
        strictly_sorted(ks),
        forall|j: int| 0 <= j < ks.len() ==> key_after(last, #[trigger] ks[j]),
    ensures
        strictly_sorted(ks.drop_first()),
        key_after(last, ks[0]),
        forall|j: int| 0 <= j < ks.drop_first().len() ==> key_after(Some(ks[0]), #[trigger] ks.drop_first()[j]),
{
    let r = ks.drop_first();
    assert forall|a: int, b: int| 0 <= a < b < r.len() implies lex_order(#[trigger] r[a], #[trigger] r[b])
        == KeyOrder::Less by {
        assert(r[a] == ks[a + 1] && r[b] == ks[b + 1]);
    }
    assert forall|j: int| 0 <= j < r.len() implies key_after(Some(ks[0]), #[trigger] r[j]) by {
        assert(r[j] == ks[j + 1]);
        assert(lex_order(ks[0], ks[j + 1]) == KeyOrder::Less);
    }
}

/// Advancing a sub-iterator whose keys left come after `last` queues a
/// record after `last`, or nothing, and keeps the rest of the queue ahead.
proof fn lemma_advance_ahead(m: MergedIterView, i: int, last: Option<Seq<u8>>)
    requires
        m.inv_core(),
        m.tables.len() <= usize::MAX,
        all_refs(m),
        queue_ahead(m),
        0 <= i < m.tables.len(),
        !m.pq.contains(i as usize),
        sub_ahead(m, i, last),
    ensures
        spec_advance_subiter(m, i) matches Some((m2, r)) && r is Ok && m2.inv_core() && all_refs(m2)
            && queue_ahead(m2) && m2.tables == m.tables && m2.advance_index == m.advance_index
            && (r == Ok::<bool, Error>(true) ==> m2.pq == m.pq.push(i as usize) && key_after(last, m2.recs[i].key()))
            && (r == Ok::<bool, Error>(false) ==> m2.pq == m.pq)
            && (forall|j: int| 0 <= j < m.tables.len() && j != i ==> m2.recs[j] == m.recs[j] && m2.its[j] == m.its[j]),
{
    lemma_table_scan_step(&m.tables[i], m.its[i], m.recs[i]);
    let ks = table_scan(&m.tables[i], m.its[i], ref_probe()).unwrap();
    lemma_advance_inv(m, i);
    let (m2, r) = spec_advance_subiter(m, i).unwrap();
    assert(all_refs(m2)) by {
        assert forall|j: int| 0 <= j < m2.recs.len() implies (#[trigger] m2.recs[j]).record_type() == BlockType::Ref by {
            if j != i {
                assert(m2.recs[j] == m.recs[j]);
            }
        }
    }
    let (it2, rec2, _) = spec_table_next(&m.tables[i], m.its[i], m.recs[i]).unwrap();
    assert(m2.its[i] == it2 && m2.recs[i] == rec2);
    if r == Ok::<bool, Error>(true) {
        lemma_sorted_tail(ks, last);
        assert(sub_ahead(m2, i, Some(rec2.key())));
    }
    assert forall|k: int| 0 <= k < m2.pq.len() implies sub_ahead(
        m2,
        #[trigger] m2.pq[k] as int,
        Some(m2.recs[m2.pq[k] as int].key()),
    ) by {
        if k < m.pq.len() {
            let j = m.pq[k] as int;
            assert(m2.pq[k] == m.pq[k]);
            assert(m.pq.contains(m.pq[k]));
            assert(j != i);
            assert(m2.its[j] == m.its[j] && m2.recs[j] == m.recs[j]);
            assert(sub_ahead(m, j, Some(m.recs[j].key())));
        } else {
            assert(m2.pq[k] == i as usize);
        }
    }
}

/// Consuming the records the popped one shadows keeps the queue ahead and
/// leaves the popped sub-iterator where it is.
proof fn lemma_drain_ahead(m: MergedIterView, entry: usize)
    requires
        m.inv_core(),
        m.tables.len() <= usize::MAX,
        all_refs(m),
        queue_ahead(m),
        entry < m.tables.len(),
        !m.pq.contains(entry),
        spec_drain(m, entry) matches Some((_, Ok(()))),
    ensures
        spec_drain(m, entry) matches Some((m2, Ok(()))) ==> all_refs(m2) && queue_ahead(m2) && m2.its[entry as int]
            == m.its[entry as int] && m2.tables == m.tables,
    decreases rank_sum(m), m.pq.len(),
{
    if m.pq.len() > 0 {
        let p = best_of(m);
        let top = m.pq[p];
        lemma_scan_best_min(m.recs, m.pq, m.pq.len() as int);
        match record_order(m.recs[top as int], m.recs[entry as int]) {
            Some(KeyOrder::Greater) => {},
            None => {},
            _ => {
                let m1 = MergedIterView { pq: m.pq.remove(p), ..m };
                lemma_remove_queued(m.pq, p);
                assert(m.pq.contains(top));
                assert(queue_ahead(m1)) by {
                    assert forall|k: int| 0 <= k < m1.pq.len() implies sub_ahead(
                        m1,
                        #[trigger] m1.pq[k] as int,
                        Some(m1.recs[m1.pq[k] as int].key()),
                    ) by {
                        let j = if k < p { k } else { k + 1 };
                        assert(m1.pq[k] == m.pq[j]);
                        assert(sub_ahead(m, m.pq[j] as int, Some(m.recs[m.pq[j] as int].key())));
                    }
                }
                assert(sub_ahead(m, top as int, Some(m.recs[top as int].key())));
                lemma_advance_ahead(m1, top as int, Some(m.recs[top as int].key()));
                let (m2, _) = spec_advance_subiter(m1, top as int).unwrap();
                assert(entry != top);
                if m2.inv_core() && 0 <= rank_sum(m2) && (rank_sum(m2) < rank_sum(m) || (rank_sum(m2) == rank_sum(m)
                    && m2.pq.len() < m.pq.len())) {
                    assert(!m2.pq.contains(entry)) by {
                        if m2.pq.contains(entry) {
                            assert(m1.pq.contains(entry) || entry == top);
                        }
                    }
                    lemma_drain_ahead(m2, entry);
                }
            },
        }
    }
}

/// Popping from a queue ahead of `last` returns a ref record after `last`,
/// and leaves the iterator ahead of that record.
proof fn lemma_pop_ahead(m: MergedIterView, rec: RecordView, last: Option<Seq<u8>>)
    requires
        ordered_after(m, last),
        m.advance_index == -1,
        rec.record_type() == BlockType::Ref,
        spec_pop_entry(m, rec) matches Some((_, _, Ok(true))),
    ensures
        spec_pop_entry(m, rec) matches Some((m3, out, Ok(true))) ==> key_after(last, out.key()) && out.record_type()
            == BlockType::Ref && ordered_after(m3, Some(out.key())),
{
    let p = best_of(m);
    let entry = m.pq[p];
    lemma_scan_best_min(m.recs, m.pq, m.pq.len() as int);
    lemma_remove_queued(m.pq, p);
    let m1 = MergedIterView { pq: m.pq.remove(p), ..m };
    assert(queue_ahead(m1)) by {
        assert forall|k: int| 0 <= k < m1.pq.len() implies sub_ahead(
            m1,
            #[trigger] m1.pq[k] as int,
            Some(m1.recs[m1.pq[k] as int].key()),
        ) by {
            let j = if k < p { k } else { k + 1 };
            assert(m1.pq[k] == m.pq[j]);
            assert(sub_ahead(m, m.pq[j] as int, Some(m.recs[m.pq[j] as int].key())));
        }
    }
    lemma_drain_shadows(m1, entry);
    lemma_drain_ahead(m1, entry);
    lemma_pop_entry_order(m, rec);
    let (m2, _) = spec_drain(m1, entry).unwrap();
    let (m3, out, _) = spec_pop_entry(m, rec).unwrap();
    let okey = out.key();
    assert(out == m.recs[entry as int]);
    assert(key_after(last, out.key())) by {
        assert(m.queued(p) == out);
    }
    assert(sub_ahead(m, entry as int, Some(okey)));
    assert(m3.its[entry as int] == m.its[entry as int]);
    assert(m3.inv());
    assert(all_refs(m3)) by {
        assert forall|j: int| 0 <= j < m3.recs.len() implies (#[trigger] m3.recs[j]).record_type() == BlockType::Ref by {
            if j != entry {
                assert(m3.recs[j] == m2.recs[j]);
            }
        }
    }
    assert forall|k: int| 0 <= k < m3.pq.len() implies #[trigger] m3.pq[k] != entry && m3.recs[m3.pq[k] as int]
        == m2.recs[m2.pq[k] as int] by {
        assert(m2.pq.contains(m2.pq[k]));
    }
    assert(queue_ahead(m3)) by {
        assert forall|k: int| 0 <= k < m3.pq.len() implies sub_ahead(
            m3,
            #[trigger] m3.pq[k] as int,
            Some(m3.recs[m3.pq[k] as int].key()),
        ) by {
            assert(m3.pq[k] != entry);
            assert(sub_ahead(m2, m2.pq[k] as int, Some(m2.recs[m2.pq[k] as int].key())));
        }
    }
    assert forall|k: int| 0 <= k < m3.pq.len() implies key_after(Some(okey), #[trigger] m3.queued(k).key()) by {
        assert(m3.pq[k] != entry);
        let x = m3.queued(k);
        assert(record_order(x, out) == Some(KeyOrder::Greater) || record_order(x, out) is None);
        assert(x.record_type() == BlockType::Ref);
        lemma_lex_flip(x.key(), okey);
    }
}

/// Law: a step of a merged iterator ahead of `last`, reading into a ref
/// record, yields a ref record after `last` and leaves the iterator ahead of
/// that record.
pub proof fn lemma_next_ahead(m: MergedIterView, rec: RecordView, last: Option<Seq<u8>>)
    requires
        ordered_after(m, last),
        rec.record_type() == BlockType::Ref,
        spec_next_entry(m, rec) matches Some((_, _, Ok(true))),
    ensures
        spec_next_entry(m, rec) matches Some((m2, out, Ok(true))) ==> key_after(last, out.key()) && out.record_type()
            == BlockType::Ref && ordered_after(m2, Some(out.key())),
{
    if m.advance_index >= 0 {
        let e = m.advance_index;
        if m.pq.len() == 0 {
            lemma_table_scan_step(&m.tables[e], m.its[e], rec);
            let ks = table_scan(&m.tables[e], m.its[e], ref_probe()).unwrap();
            lemma_sorted_tail(ks, last);
            let (m2, out, _) = spec_next_entry(m, rec).unwrap();
            assert(m2.inv()) by {
                assert forall|j: int| 0 <= j < m2.tables.len() implies #[trigger] m2.its[j].inv(&m2.tables[j]) by {
                    if j != e {
                        assert(m2.its[j] == m.its[j]);
                    }
                }
            }
        } else {
            lemma_advance_ahead(m, e, last);
            let (m1, _) = spec_advance_subiter(m, e).unwrap();
            let m1a = MergedIterView { advance_index: -1, ..m1 };
            assert forall|k: int| 0 <= k < m1a.pq.len() implies key_after(last, #[trigger] m1a.queued(k).key()) by {
                if k < m.pq.len() {
                    assert(m1.pq[k] == m.pq[k]);
                    assert(m.pq.contains(m.pq[k]));
                    assert(m.queued(k) == m1a.queued(k));
                }
            }
            assert(queue_ahead(m1a));
            lemma_pop_ahead(m1a, rec, last);
        }
    } else {
        lemma_pop_ahead(m, rec, last);
    }
}

/// The keys of the records that up to `n` calls of `MergedIter::next`
/// yield from `m` on, each reading into the record the call before
/// returned, until a call yields none.
pub open spec fn merged_run(m: MergedIterView, rec: RecordView, n: nat) -> Seq<Seq<u8>>
    decreases n,
{
    if n == 0 {
        Seq::empty()
    } else {
        match spec_next_entry(m, rec) {
            Some((m2, out, Ok(true))) => seq![out.key()] + merged_run(m2, out, (n - 1) as nat),
            _ => Seq::empty(),
        }
    }
}

/// Law: from a state whose queued records and whose sub-iterators' keys left
/// strictly increase after `last` (as where each table's ref keys strictly
/// increase), a whole run of the merged iterator yields keys in strictly
/// increasing order, all after `last`: no key is yielded twice.
pub proof fn lemma_merged_run_sorted(m: MergedIterView, rec: RecordView, last: Option<Seq<u8>>, n: nat)
    requires
        ordered_after(m, last),
        rec.record_type() == BlockType::Ref,
    ensures
        strictly_sorted(merged_run(m, rec, n)),
        forall|j: int| 0 <= j < merged_run(m, rec, n).len() ==> key_after(last, #[trigger] merged_run(m, rec, n)[j]),
    decreases n,
{
    if n > 0 {
        if let Some((m2, out, Ok(true))) = spec_next_entry(m, rec) {
            lemma_next_ahead(m, rec, last);
            lemma_merged_run_sorted(m2, out, Some(out.key()), (n - 1) as nat);
            let rest = merged_run(m2, out, (n - 1) as nat);
            let run = merged_run(m, rec, n);
            assert(run == seq![out.key()] + rest);
            assert forall|a: int, b: int| 0 <= a < b < run.len() implies lex_order(#[trigger] run[a], #[trigger] run[b])
                == KeyOrder::Less by {
                assert(run[b] == rest[b - 1]);
                if a > 0 {
                    assert(run[a] == rest[a - 1]);
                }
            }
            assert forall|j: int| 0 <= j < run.len() implies key_after(last, #[trigger] run[j]) by {
                if j > 0 && last is Some {
                    assert(run[j] == rest[j - 1]);
                    lemma_lex_trans(last.unwrap(), out.key(), rest[j - 1]);
                }
            }
        }
    }
}

/// `MergedIter::seek`: forget the queue and seek every sub-iterator to
/// `want`.
pub open spec fn spec_merged_seek(m: MergedIterView, want: RecordView) -> Option<
    (MergedIterView, Result<(), Error>),
> {
    spec_seek_from(MergedIterView { advance_index: -1, pq: Seq::empty(), ..m }, want, 0)
}

/// A fresh iterator over the records of type `typ` of `tables`: no
/// sub-iterator is positioned yet (those on tables without blocks of that
/// type are finished), each holds an empty record of that type, and nothing
/// is queued.
pub open spec fn fresh_iter(tables: Seq<Table>, typ: BlockType) -> MergedIterView {
    MergedIterView {
        tables,
        its: Seq::new(
            tables.len(),
            |i: int|
                TableIterView {
                    typ: None,
                    block_off: 0,
                    bi: super::block::BlockIterView {
                        block: super::block::empty_block(),
                        next_off: 0,
                        last_key: Seq::empty(),
                    },
                    is_finished: tables[i].spec_offsets_for(typ) is None,
                },
        ),
        recs: Seq::new(tables.len(), |i: int| spec_for_search(typ, Seq::empty())),
        pq: Seq::empty(),
        suppress_deletions: false,
        advance_index: -1,
    }
}

/// Iterator over the records of a stack of tables in key order.
pub struct MergedIter<'a> {
    iters: Vec<TableIter<'a>>,
    /// The last record the nth iterator produced
    recs: Vec<Record>,
    /// The sub-iterators whose record is pending.
    pq: Vec<usize>,
    suppress_deletions: bool,
    /// The sub-iterator whose record was returned last.
    advance_index: Option<usize>,
}

impl<'a> View for MergedIter<'a> {
    type V = MergedIterView;

    closed spec fn view(&self) -> MergedIterView {
        MergedIterView {
            tables: self.iters@.map_values(|it: TableIter<'a>| *it.table),
            its: self.iters@.map_values(|it: TableIter<'a>| it@),
            recs: self.recs@.map_values(|r: Record| r@),
            pq: self.pq@,
            suppress_deletions: self.suppress_deletions,
            advance_index: match self.advance_index {
                Some(i) => i as int,
                None => -1,
            },
        }
    }
}

impl<'a> MergedIter<'a> {
    /// The iterator is well formed.
    pub closed spec fn inv(&self) -> bool {
        &&& self@.inv()
        &&& self.iters@.len() == self.recs@.len()
    }

    /// The state of a well formed iterator is well formed.
    pub proof fn lemma_inv(&self)
        requires
            self.inv(),
        ensures
            self@.inv(),
    {
    }

    /// All of `inv` but for the iterator to advance not being queued.
    pub closed spec fn inv_core(&self) -> bool {
        &&& self@.inv_core()
        &&& self.iters@.len() == self.recs@.len()
    }

    /// An iterator over the records of type `typ` of all tables of `mt`,
    /// each sub-iterator holding an empty record of that type.
    pub fn from_merged(mt: &'a MergedTable, typ: BlockType) -> (r: Self)
        requires
            mt.wf(),
            !mt.suppresses_deletions(),
            typ != BlockType::Index,
        ensures
            r.inv(),
            r@ == fresh_iter(mt.tables_seq(), typ),
            r@.tables == mt.tables_seq(),
            r@.pq == Seq::<usize>::empty(),
            r@.advance_index == -1,
            forall|i: int| 0 <= i < mt.tables_seq().len() ==> #[trigger] r@.recs[i] == spec_for_search(typ, Seq::empty()),
            forall|i: int|
                0 <= i < mt.tables_seq().len() ==> #[trigger] r@.its[i] == (TableIterView {
                    typ: None,
                    block_off: 0,
                    bi: super::block::BlockIterView {
                        block: super::block::empty_block(),
                        next_off: 0,
                        last_key: Seq::empty(),
                    },
                    is_finished: mt.tables_seq()[i].spec_offsets_for(typ) is None,
                }),
    {
        let mut iters: Vec<TableIter<'a>> = Vec::new();
        let mut recs: Vec<Record> = Vec::new();
        let mut i: usize = 0;
        while i < mt.tables.len()
            invariant
                mt.wf(),
                typ != BlockType::Index,
                i <= mt.tables_seq().len(),
                iters@.len() == i,
                recs@.len() == i,
                forall|j: int| 0 <= j < i ==> #[trigger] iters@[j].table == &mt.tables_seq()[j],
                forall|j: int| 0 <= j < i ==> (#[trigger] iters@[j]).inv(),
                forall|j: int| 0 <= j < i ==> #[trigger] recs@[j]@ == spec_for_search(typ, Seq::empty()),
                forall|j: int|
                    0 <= j < i ==> #[trigger] iters@[j]@ == (TableIterView {
                        typ: None,
                        block_off: 0,
                        bi: super::block::BlockIterView {
                            block: super::block::empty_block(),
                            next_off: 0,
                            last_key: Seq::empty(),
                        },
                        is_finished: mt.tables_seq()[j].spec_offsets_for(typ) is None,
                    }),
            decreases mt.tables_seq().len() - i,
        {
            let t: &'a Table = &mt.tables[i];
            assert(mt.tables_seq()[i as int].wf());
            iters.push(TableIter::new(t, typ));
            recs.push(Record::for_search(typ, None));
            i = i + 1;
        }
        let r = Self { iters, recs, pq: Vec::new(), suppress_deletions: mt.suppress_deletions, advance_index: None };
        proof {
            assert(r@.tables =~= mt.tables_seq());
            assert(r@.its =~= fresh_iter(mt.tables_seq(), typ).its);
            assert(r@.recs =~= fresh_iter(mt.tables_seq(), typ).recs);
            assert forall|j: int| 0 <= j < r@.tables.len() implies #[trigger] r@.its[j].inv(&r@.tables[j]) by {
                assert(r.iters@[j].inv());
            }
        }
        r
    }

    proof fn lemma_view_update(
        old_iters: Seq<TableIter<'a>>,
        old_recs: Seq<Record>,
        new_iters: Seq<TableIter<'a>>,
        new_recs: Seq<Record>,
        i: int,
    )
        requires
            0 <= i < old_iters.len(),
            0 <= i < old_recs.len(),
            new_iters == old_iters.update(i, new_iters[i]),
            new_recs == old_recs.update(i, new_recs[i]),
            new_iters[i].table == old_iters[i].table,
        ensures
            new_iters.map_values(|it: TableIter<'a>| *it.table) =~= old_iters.map_values(
                |it: TableIter<'a>| *it.table,
            ),
            new_iters.map_values(|it: TableIter<'a>| it@) =~= old_iters.map_values(|it: TableIter<'a>| it@).update(
                i,
                new_iters[i]@,
            ),
            new_recs.map_values(|r: Record| r@) =~= old_recs.map_values(|r: Record| r@).update(i, new_recs[i]@),
    {
    }

    /// Advance sub-iterator `i` and queue it where it yields a record.
    pub fn advance_subiter(&mut self, i: usize) -> (r: Result<bool, Error>)
        requires
            old(self).inv_core(),
            i < old(self)@.tables.len(),
            !old(self)@.pq.contains(i),
            spec_advance_subiter(old(self)@, i as int) is Some,
        ensures
            final(self).inv_core(),
            spec_advance_subiter(old(self)@, i as int) == Some((final(self)@, r)),
    {
        let ghost old_iters = self.iters@;
        let ghost old_recs = self.recs@;
        proof {
            assert(self.iters@[i as int].inv()) by {
                assert(self@.its[i as int] == self.iters@[i as int]@);
                assert(self@.tables[i as int] == *self.iters@[i as int].table);
            }
            assert(self@.its[i as int] == self.iters@[i as int]@);
            assert(self@.recs[i as int] == self.recs@[i as int]@);
        }
        let res = self.iters[i].next(&mut self.recs[i]);
        proof {
            Self::lemma_view_update(old_iters, old_recs, self.iters@, self.recs@, i as int);
            lemma_table_next_rank(old_iters[i as int].table, old_iters[i as int]@, old_recs[i as int]@);
        }
        let found = match res {
            Ok(f) => f,
            Err(e) => return Err(e),
        };
        if !found {
            return Ok(false);
        }
        self.pq.push(i);
        Ok(true)
    }

    /// The queue position of the record that goes first.
    fn best_pos(&self) -> (p: usize)
        requires
            self.inv_core(),
            self@.pq.len() > 0,
        ensures
            p == best_of(self@),
            p < self@.pq.len(),
    {
        proof {
            lemma_scan_best_min(self@.recs, self@.pq, self@.pq.len() as int);
        }
        let mut best: usize = 0;
        let mut j: usize = 1;
        while j < self.pq.len()
            invariant
                self.inv_core(),
                1 <= j <= self@.pq.len(),
                best == scan_best(self@.recs, self@.pq, j as int),
            decreases self@.pq.len() - j,
        {
            proof {
                lemma_scan_best_min(self@.recs, self@.pq, j as int);
                assert(self@.recs[self@.pq[j as int] as int] == self.recs@[self.pq@[j as int] as int]@);
                assert(self@.recs[self@.pq[best as int] as int] == self.recs@[self.pq@[best as int] as int]@);
            }
            let a = self.pq[j];
            let b = self.pq[best];
            let o = compare_records(&self.recs[a], &self.recs[b]);
            let first = match o {
                Some(KeyOrder::Less) => true,
                Some(KeyOrder::Equal) => a > b,
                _ => false,
            };
            if first {
                best = j;
            }
            j = j + 1;
        }
        proof {
            lemma_scan_best_min(self@.recs, self@.pq, self@.pq.len() as int);
        }
        best
    }

    /// Consume the queued records whose key does not come after that of
    /// `entry` (see `spec_drain`).
    fn drain_ties(&mut self, entry: usize) -> (r: Result<(), Error>)
        requires
            old(self).inv_core(),
            old(self)@.advance_index == -1,
            entry < old(self)@.tables.len(),
            !old(self)@.pq.contains(entry),
            spec_drain(old(self)@, entry) is Some,
        ensures
            final(self).inv_core(),
            final(self)@.advance_index == -1,
            !final(self)@.pq.contains(entry),
            final(self)@.tables == old(self)@.tables,
            spec_drain(old(self)@, entry) == Some((final(self)@, r)),
    {
        loop
            invariant
                self@.tables == old(self)@.tables,
                self.inv_core(),
                self@.advance_index == -1,
                entry < self@.tables.len(),
                !self@.pq.contains(entry),
                spec_drain(self@, entry) == spec_drain(old(self)@, entry),
                spec_drain(self@, entry) is Some,
            decreases rank_sum(self@), self@.pq.len(),
        {
            if self.pq.len() == 0 {
                return Ok(());
            }
            let ghost m = self@;
            let p = self.best_pos();
            let top = self.pq[p];
            proof {
                assert(m.recs[top as int] == self.recs@[top as int]@);
                assert(m.recs[entry as int] == self.recs@[entry as int]@);
                assert(m.pq.contains(top));
            }
            match compare_records(&self.recs[top], &self.recs[entry]) {
                None => return Err(Error::Iterator),
                Some(KeyOrder::Greater) => return Ok(()),
                _ => {},
            }
            self.pq.remove(p);
            proof {
                lemma_remove_queued(m.pq, p as int);
                assert(self@ == MergedIterView { pq: m.pq.remove(p as int), ..m });
            }
            let ghost m1 = self@;
            let res = self.advance_subiter(top);
            proof {
                lemma_table_next_rank(&m1.tables[top as int], m1.its[top as int], m1.recs[top as int]);
                lemma_rank_sum_update(m1.tables, m1.its, m1.tables.len() as int, top as int, self@.its[top as int]);
                lemma_rank_sum_nonneg(self@.tables, self@.its, self@.tables.len() as int);
                assert(self@.its == m1.its.update(top as int, self@.its[top as int]));
                if self@.pq.contains(entry) {
                    assert(self@.pq == m1.pq.push(top));
                    assert(m1.pq.contains(entry) || entry == top);
                }
            }
            match res {
                Err(e) => return Err(e),
                Ok(_) => {},
            }
        }
    }

    fn pop_entry(&mut self, rec: &mut Record) -> (r: Result<bool, Error>)
        requires
            old(self).inv_core(),
            old(self)@.advance_index == -1,
            spec_pop_entry(old(self)@, old(rec)@) is Some,
        ensures
            final(self).inv(),
            spec_pop_entry(old(self)@, old(rec)@) == Some((final(self)@, final(rec)@, r)),
    {
        if self.pq.len() == 0 {
            return Ok(false);
        }
        let ghost m = self@;
        let p = self.best_pos();
        let entry = self.pq.remove(p);
        proof {
            lemma_remove_queued(m.pq, p as int);
            assert(self@ == MergedIterView { pq: m.pq.remove(p as int), ..m });
        }
        self.drain_ties(entry)?;
        let ghost m2 = self@;
        proof {
            assert(m.pq.contains(entry));
            assert(entry < self.recs@.len());
        }
        self.advance_index = Some(entry);
        let ghost old_recs = self.recs@;
        std::mem::swap(rec, &mut self.recs[entry]);
        proof {
            assert(self.recs@ == old_recs.update(entry as int, self.recs@[entry as int]));
            assert(self@.recs =~= m2.recs.update(entry as int, old(rec)@));
            assert(self@.its == m2.its);
            assert(self@.tables == m2.tables);
        }
        Ok(true)
    }

    fn next_entry(&mut self, rec: &mut Record) -> (r: Result<bool, Error>)
        requires
            old(self).inv(),
            spec_next_entry(old(self)@, old(rec)@) is Some,
        ensures
            final(self).inv(),
            spec_next_entry(old(self)@, old(rec)@) == Some((final(self)@, final(rec)@, r)),
    {
        let empty = self.pq.len() == 0;
        if let Some(i) = self.advance_index {

            // When there are no queued entries then we only have a single
            // subiter left. There is no need to use the queue in that case
            // anymore as we know that the subiter will return entries in the
            // correct order already.
            if empty {
                let ghost old_iters = self.iters@;
                proof {
                    assert(self.iters@[i as int].inv()) by {
                        assert(self@.its[i as int] == self.iters@[i as int]@);
                        assert(self@.tables[i as int] == *self.iters@[i as int].table);
                    }
                    assert(self@.its[i as int] == self.iters@[i as int]@);
                }
                let res = self.iters[i].next(rec);
                proof {
                    assert(self.recs@ =~= self.recs@.update(i as int, self.recs@[i as int]));
                    Self::lemma_view_update(old_iters, self.recs@, self.iters@, self.recs@, i as int);
                }
                return res;
            }

            self.advance_subiter(i)?;
            self.advance_index = None;
        }
        self.pop_entry(rec)
    }

    /// Yield the next record of the stack into `rec` (see
    /// `spec_next_entry`; deletions are not suppressed).
    pub fn next(&mut self, rec: &mut Record) -> (r: Result<bool, Error>)
        requires
            old(self).inv(),
            spec_next_entry(old(self)@, old(rec)@) is Some,
        ensures
            final(self).inv(),
            spec_next_entry(old(self)@, old(rec)@) == Some((final(self)@, final(rec)@, r)),
    {
        // Deletions are kept: `suppress_deletions` is unset on every stack
        // (`MergedTable::new`), so each record comes as `next_entry` reads it.
        self.next_entry(rec)
    }

    /// Position every sub-iterator at the first record whose key is not
    /// less than `want`'s, and queue those records (see `spec_merged_seek`).
    pub fn seek(&mut self, want: &Record) -> (r: Result<(), Error>)
        requires
            old(self).inv(),
            spec_merged_seek(old(self)@, want@) is Some,
        ensures
            final(self).inv(),
            spec_merged_seek(old(self)@, want@) == Some((final(self)@, r)),
    {
        self.advance_index = None;
        self.pq.clear();
        proof {
            assert(self@ == MergedIterView { advance_index: -1, pq: Seq::empty(), ..old(self)@ });
        }
        let mut i: usize = 0;
        while i < self.iters.len()
            invariant
                self.inv(),
                self@.advance_index == -1,
                self@.tables == old(self)@.tables,
                i <= self@.tables.len(),
                forall|k: int| 0 <= k < self@.pq.len() ==> #[trigger] self@.pq[k] < i,
                spec_seek_from(self@, want@, i as int) == spec_merged_seek(old(self)@, want@),
                spec_seek_from(self@, want@, i as int) is Some,
            decreases self@.tables.len() - i,
        {
            let ghost m = self@;
            let ghost old_iters = self.iters@;
            proof {
                assert(self.iters@[i as int].inv()) by {
                    assert(self@.its[i as int] == self.iters@[i as int]@);
                    assert(self@.tables[i as int] == *self.iters@[i as int].table);
                }
                assert(self@.its[i as int] == self.iters@[i as int]@);
                assert(self.recs@ =~= self.recs@.update(i as int, self.recs@[i as int]));
            }
            let res = self.iters[i].seek(want);
            proof {
                Self::lemma_view_update(old_iters, self.recs@, self.iters@, self.recs@, i as int);
                assert(self@ == MergedIterView { its: m.its.update(i as int, self@.its[i as int]), ..m });
            }
            match res {
                // This is for now how we indicate not finding the thing
                Err(Error::Iterator) => {
                    i = i + 1;
                    continue;
                },
                Err(e) => return Err(e),
                Ok(_) => {},
            }
            proof {
                if self@.pq.contains(i) {
                    let k = choose|k: int| 0 <= k < self@.pq.len() && self@.pq[k] == i;
                    assert(self@.pq[k] < i);
                }
            }
            self.advance_subiter(i)?;
            i = i + 1;
        }
        Ok(())
    }
}

} // verus!
