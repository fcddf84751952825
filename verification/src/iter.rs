//! Iterating the references of a stack of reftables: all of them, those
//! under a prefix, or the pseudo references.
use crate::refs::{has_prefix, reference_from_record, reference_of, starts_with, Reference, ReferenceView};
use crate::reftable::merged::{
    fresh_iter, lemma_merged_rank_nonneg, lemma_next_entry_rank, merged_rank, spec_merged_seek,
    spec_next_entry, MergedIter, MergedIterView, MergedTable,
};
use crate::reftable::record::{spec_for_search, Record, RecordView};
use crate::reftable::BlockType;
use vstd::prelude::*;

verus! {

/// The error returned while iterating references.
#[derive(Debug, Clone, PartialEq, Eq)]
pub enum Error {
    /// The loose-and-packed file backend failed.
    Backend,
    /// The reftable backend failed while iterating references.
    Reftable(crate::reftable::Error),
}

/// Which references an iteration yields.
#[derive(Debug, Clone, PartialEq, Eq)]
pub enum Filter {
    /// All references but the pseudo references.
    All,
    /// The references whose name starts with these bytes.
    Prefixed(Vec<u8>),
    /// The pseudo references only.
    Pseudo,
}

/// The mathematical value of a [`Filter`].
pub enum FilterView {
    All,
    Prefixed(Seq<u8>),
    Pseudo,
}

impl View for Filter {
    type V = FilterView;

    open spec fn view(&self) -> FilterView {
        match self {
            Filter::All => FilterView::All,
            Filter::Prefixed(p) => FilterView::Prefixed(p@),
            Filter::Pseudo => FilterView::Pseudo,
        }
    }
}

/// Whether `name` is a pseudo reference such as `HEAD` or `FETCH_HEAD`:
/// made of upper case ASCII letters and underscores only.
pub open spec fn is_pseudo_ref(name: Seq<u8>) -> bool {
    forall|i: int| 0 <= i < name.len() ==> (0x41 <= #[trigger] name[i] <= 0x5a || name[i] == 0x5f)
}

/// Whether `name` is a pseudo reference (see `is_pseudo_ref`).
pub fn pseudo_ref(name: &[u8]) -> (r: bool)
    ensures
        r == is_pseudo_ref(name@),
{
    let mut i: usize = 0;
    while i < name.len()
        invariant
            i <= name@.len(),
            forall|j: int| 0 <= j < i ==> (0x41 <= #[trigger] name@[j] <= 0x5a || name@[j] == 0x5f),
        decreases name@.len() - i,
    {
        let b = name[i];
        if !((0x41 <= b && b <= 0x5a) || b == 0x5f) {
            return false;
        }
        i = i + 1;
    }
    true
}

/// What an iteration does with a record the stack yields.
pub enum Step {
    /// Hand the reference out.
    Yield(ReferenceView),
    /// Pass over the record.
    Skip,
    /// End the iteration.
    Stop,
}

/// What `filter` makes of the record `rec`: records that are no references
/// (deletions among them) are passed over; all references but the pseudo
/// ones, or the pseudo ones only, are handed out; under a prefix, the first
/// name without it ends the iteration, as names come sorted.
pub open spec fn step_of(rec: RecordView, filter: FilterView) -> Step {
    match reference_of(rec) {
        None => Step::Skip,
        Some(r) => match filter {
            FilterView::All => if is_pseudo_ref(r.name) {
                Step::Skip
            } else {
                Step::Yield(r)
            },
            FilterView::Prefixed(p) => if starts_with(r.name, p) {
                Step::Yield(r)
            } else {
                Step::Stop
            },
            FilterView::Pseudo => if is_pseudo_ref(r.name) {
                Step::Yield(r)
            } else {
                Step::Skip
            },
        },
    }
}

/// Law: iterating all references hands out every ref record that carries a
/// value and whose name is not a pseudo reference name, as the reference
/// it stands for under its own name, whatever it points to (an object or,
/// symbolically, another reference), and passes over every other record;
/// the pseudo filter hands out exactly the pseudo references among them;
/// a prefix filter hands out the references under the prefix and ends at
/// the first other one.
pub proof fn lemma_filters_hand_out(rec: RecordView, p: Seq<u8>)
    ensures
        ({
            let live = rec matches RecordView::Ref(r) && r.value is Some;
            &&& live && !is_pseudo_ref(rec.key()) ==> (step_of(rec, FilterView::All) matches Step::Yield(x)
                && x.name == rec.key() && Some(x) == reference_of(rec))
            &&& !(live && !is_pseudo_ref(rec.key())) ==> step_of(rec, FilterView::All) is Skip
            &&& live && is_pseudo_ref(rec.key()) ==> (step_of(rec, FilterView::Pseudo) matches Step::Yield(x)
                && x.name == rec.key() && Some(x) == reference_of(rec))
            &&& !(live && is_pseudo_ref(rec.key())) ==> step_of(rec, FilterView::Pseudo) is Skip
            &&& live && starts_with(rec.key(), p) ==> (step_of(rec, FilterView::Prefixed(p)) matches Step::Yield(
                x,
            ) && x.name == rec.key() && Some(x) == reference_of(rec))
            &&& live && !starts_with(rec.key(), p) ==> step_of(rec, FilterView::Prefixed(p)) is Stop
            &&& !live ==> step_of(rec, FilterView::Prefixed(p)) is Skip
        }),
{
    if let RecordView::Ref(r) = rec {
        crate::refs::lemma_reference_of_values(r);
    }
}

/// Law: where the next record the stack yields is a ref record carrying a
/// value whose name is not a pseudo reference name, `References::next`
/// over all references hands out that reference, symbolic or not.
pub proof fn lemma_all_yields_next_live_ref(m: MergedIterView, rec: RecordView)
    requires
        spec_next_entry(m, rec) matches Some((_, RecordView::Ref(r), Ok(true))) && r.value is Some
            && !is_pseudo_ref(r.refname),
    ensures
        spec_next_entry(m, rec) matches Some((m2, rec2, _)) && spec_refs_next(m, rec, FilterView::All) == Some(
            (m2, rec2, Some(Ok::<ReferenceView, Error>(reference_of(rec2).unwrap()))),
        ) && reference_of(rec2).unwrap().name == rec2.key(),
{
    let (_, rec2, _) = spec_next_entry(m, rec).unwrap();
    lemma_filters_hand_out(rec2, Seq::empty());
}

/// What `References::next` does from merged iterator state `m` and record
/// `rec`: read records until one is handed out, the stack ends, the filter
/// ends the iteration, or reading fails; the state and record after, and
/// the result. `None` where reading panics.
pub open spec fn spec_refs_next(m: MergedIterView, rec: RecordView, filter: FilterView) -> Option<
    (MergedIterView, RecordView, Option<Result<ReferenceView, Error>>),
>
    decreases merged_rank(m),
{
    match spec_next_entry(m, rec) {
        None => None,
        Some((m2, rec2, Err(e))) => Some((m2, rec2, Some(Err(Error::Reftable(e))))),
        Some((m2, rec2, Ok(false))) => Some((m2, rec2, None)),
        Some((m2, rec2, Ok(true))) => match step_of(rec2, filter) {
            Step::Yield(r) => Some((m2, rec2, Some(Ok(r)))),
            Step::Stop => Some((m2, rec2, None)),
            Step::Skip => if 0 <= merged_rank(m2) < merged_rank(m) {
                spec_refs_next(m2, rec2, filter)
            } else {
                None
            },
        },
    }
}

/// Whether `filter` selects the reference named `name`.
pub open spec fn selects(filter: FilterView, name: Seq<u8>) -> bool {
    match filter {
        FilterView::All => !is_pseudo_ref(name),
        FilterView::Prefixed(p) => starts_with(name, p),
        FilterView::Pseudo => is_pseudo_ref(name),
    }
}

/// Law: an iteration hands out only references that its filter selects.
pub proof fn lemma_refs_next_selects(m: MergedIterView, rec: RecordView, filter: FilterView)
    ensures
        spec_refs_next(m, rec, filter) matches Some((_, _, Some(Ok(r)))) ==> selects(filter, r.name),
    decreases merged_rank(m),
{
    if let Some((m2, rec2, Ok(true))) = spec_next_entry(m, rec) {
        if step_of(rec2, filter) is Skip && 0 <= merged_rank(m2) < merged_rank(m) {
            lemma_refs_next_selects(m2, rec2, filter);
        }
    }
}

/// The view of a result of [`References::next`].
pub open spec fn next_view(r: Option<Result<Reference, Error>>) -> Option<Result<ReferenceView, Error>> {
    match r {
        None => None,
        Some(Ok(reference)) => Some(Ok(reference@)),
        Some(Err(e)) => Some(Err(e)),
    }
}

/// Iterator over the references of a stack of reftables.
pub struct References<'a> {
    iter: MergedIter<'a>,
    rec: Record,
    filter: Filter,
}

impl<'a> References<'a> {
    /// The state of the merged iterator underneath.
    pub closed spec fn merged(&self) -> MergedIterView {
        self.iter@
    }

    /// The record last read.
    pub closed spec fn record(&self) -> RecordView {
        self.rec@
    }

    /// Which references the iteration yields.
    pub closed spec fn filter(&self) -> FilterView {
        self.filter@
    }

    /// The iterator is well formed.
    pub closed spec fn inv(&self) -> bool {
        self.iter.inv()
    }

    /// Iterate the references of `mt` that `filter` selects: seek to the
    /// prefix, or to the start for the other filters.
    pub fn with_filter(mt: &'a MergedTable, filter: Filter) -> (r: Result<References<'a>, crate::reftable::Error>)
        requires
            mt.wf(),
            !mt.suppresses_deletions(),
            spec_merged_seek(fresh_iter(mt.tables_seq(), BlockType::Ref), search_record(filter@)) is Some,
        ensures
            match spec_merged_seek(fresh_iter(mt.tables_seq(), BlockType::Ref), search_record(filter@)).unwrap() {
                (m, Ok(())) => r matches Ok(refs) && refs.inv() && refs.merged() == m && refs.record()
                    == search_record(filter@) && refs.filter() == filter@,
                (_, Err(e)) => r == Err::<References<'a>, crate::reftable::Error>(e),
            },
    {
        let mut iter = MergedIter::from_merged(mt, BlockType::Ref);
        let rec = match &filter {
            Filter::Prefixed(prefix) => Record::for_search(
                BlockType::Ref,
                Some(crate::reftable::copy_bytes(prefix.as_slice())),
            ),
            _ => Record::for_search(BlockType::Ref, None),
        };
        match iter.seek(&rec) {
            Ok(()) => {},
            Err(e) => return Err(e),
        }
        Ok(References { iter, rec, filter })
    }

    /// Iterate all references of `mt` but the pseudo references.
    pub fn all(mt: &'a MergedTable) -> (r: Result<References<'a>, crate::reftable::Error>)
        requires
            mt.wf(),
            !mt.suppresses_deletions(),
            spec_merged_seek(fresh_iter(mt.tables_seq(), BlockType::Ref), search_record(FilterView::All)) is Some,
        ensures
            match spec_merged_seek(fresh_iter(mt.tables_seq(), BlockType::Ref), search_record(FilterView::All)).unwrap() {
                (m, Ok(())) => r matches Ok(refs) && refs.inv() && refs.merged() == m && refs.record()
                    == search_record(FilterView::All) && refs.filter() == FilterView::All,
                (_, Err(e)) => r == Err::<References<'a>, crate::reftable::Error>(e),
            },
    {
        Self::with_filter(mt, Filter::All)
    }

    /// Iterate the references of `mt` whose name starts with `prefix`.
    pub fn prefixed(mt: &'a MergedTable, prefix: &[u8]) -> (r: Result<References<'a>, crate::reftable::Error>)
        requires
            mt.wf(),
            !mt.suppresses_deletions(),
            spec_merged_seek(
                fresh_iter(mt.tables_seq(), BlockType::Ref),
                search_record(FilterView::Prefixed(prefix@)),
            ) is Some,
        ensures
            match spec_merged_seek(
                fresh_iter(mt.tables_seq(), BlockType::Ref),
                search_record(FilterView::Prefixed(prefix@)),
            ).unwrap() {
                (m, Ok(())) => r matches Ok(refs) && refs.inv() && refs.merged() == m && refs.record()
                    == search_record(FilterView::Prefixed(prefix@)) && refs.filter() == FilterView::Prefixed(
                    prefix@,
                ),
                (_, Err(e)) => r == Err::<References<'a>, crate::reftable::Error>(e),
            },
    {
        Self::with_filter(mt, Filter::Prefixed(crate::reftable::copy_bytes(prefix)))
    }

    /// Iterate the pseudo references of `mt`.
    pub fn pseudo(mt: &'a MergedTable) -> (r: Result<References<'a>, crate::reftable::Error>)
        requires
            mt.wf(),
            !mt.suppresses_deletions(),
            spec_merged_seek(fresh_iter(mt.tables_seq(), BlockType::Ref), search_record(FilterView::Pseudo)) is Some,
        ensures
            match spec_merged_seek(fresh_iter(mt.tables_seq(), BlockType::Ref), search_record(FilterView::Pseudo)).unwrap() {
                (m, Ok(())) => r matches Ok(refs) && refs.inv() && refs.merged() == m && refs.record()
                    == search_record(FilterView::Pseudo) && refs.filter() == FilterView::Pseudo,
                (_, Err(e)) => r == Err::<References<'a>, crate::reftable::Error>(e),
            },
    {
        Self::with_filter(mt, Filter::Pseudo)
    }

    /// The next reference the filter selects, `None` once the stack or the
    /// prefix ends (see `spec_refs_next`).
    pub fn next(&mut self) -> (r: Option<Result<Reference, Error>>)
        requires
            old(self).inv(),
            spec_refs_next(old(self).merged(), old(self).record(), old(self).filter()) is Some,
        ensures
            final(self).inv(),
            final(self).filter() == old(self).filter(),
            spec_refs_next(old(self).merged(), old(self).record(), old(self).filter()) == Some(
                (final(self).merged(), final(self).record(), next_view(r)),
            ),
    {
        loop
            invariant
                self.inv(),
                self.filter@ == old(self).filter@,
                spec_refs_next(self.iter@, self.rec@, self.filter@) == spec_refs_next(
                    old(self).iter@,
                    old(self).rec@,
                    old(self).filter@,
                ),
                spec_refs_next(self.iter@, self.rec@, self.filter@) is Some,
            decreases merged_rank(self.iter@),
        {
            let ghost m = self.iter@;
            let ghost rec0 = self.rec@;
            proof {
                self.iter.lemma_inv();
            }
            match self.iter.next(&mut self.rec) {
                Ok(true) => {},
                Ok(false) => return None,
                Err(e) => return Some(Err(Error::Reftable(e))),
            }
            proof {
                lemma_next_entry_rank(m, rec0);
                lemma_merged_rank_nonneg(m);
                self.iter.lemma_inv();
                lemma_merged_rank_nonneg(self.iter@);
            }
            let is_ref = match &self.rec {
                Record::Ref(r) => r.value.is_some(),
                _ => false,
            };
            if is_ref {
                let reference = reference_from_record(&self.rec);
                let matches = match &self.filter {
                    Filter::All => !pseudo_ref(reference.name.as_slice()),
                    Filter::Prefixed(prefix) => {
                        if has_prefix(reference.name.as_slice(), prefix.as_slice()) {
                            true
                        } else {
                            return None;
                        }
                    },
                    Filter::Pseudo => pseudo_ref(reference.name.as_slice()),
                };
                if matches {
                    return Some(Ok(reference));
                }
            }
        }
    }
}

/// The record an iteration with `filter` seeks to: the prefix, or the
/// empty name.
pub open spec fn search_record(filter: FilterView) -> RecordView {
    match filter {
        FilterView::Prefixed(p) => spec_for_search(BlockType::Ref, p),
        _ => spec_for_search(BlockType::Ref, Seq::empty()),
    }
}

} // verus!
