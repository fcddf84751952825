//! Looking a reference up by name in a stack of reftables.
pub mod existing;

use crate::refs::{reference_from_record, reference_of, Reference, ReferenceView};
use crate::reftable::keys::{compare_bytes, lemma_lex_equal, KeyOrder};
use crate::reftable::block::strictly_sorted;
use crate::reftable::merged::{
    fresh_iter, lemma_seek_then_next_finds, spec_merged_seek, spec_next_entry, MergedIter,
    MergedTable,
};
use crate::reftable::record::{spec_for_search, Record};
use crate::reftable::table::{ref_keys, spec_table_seek, Table};
use crate::reftable::BlockType;
use vstd::prelude::*;

verus! {

/// The error returned by [`find()`] and [`try_find()`].
#[derive(Debug, Clone, PartialEq, Eq)]
pub enum Error {
    /// The ref name or path is not a valid ref name.
    RefnameValidation,
    /// The ref file at `path` could not be read in full.
    ReadFileContents { path: String, message: String },
    /// The reference at `relative_path` could not be instantiated.
    ReferenceCreation { relative_path: String },
    /// A packed ref lookup failed.
    PackedRef,
    /// Could not open the packed refs buffer when trying to find references.
    PackedOpen,
}

/// Names whether `gix_validate::reference::name_partial` accepts `name` as
/// a partial reference name.
pub uninterp spec fn valid_partial_name(name: Seq<u8>) -> bool;

/// Calls `gix_validate::reference::name_partial` on `name`, which accepts
/// it or returns the reason it is no valid partial reference name; the
/// claim names whether it accepts it, which depends on the bytes alone.
#[verifier::external_body]
fn partial_name_ok(name: &[u8]) -> (r: bool)
    ensures
        r == valid_partial_name(name@),
{
    gix_validate::reference::name_partial(name.into()).is_ok()
}

/// Check that `name` is a valid partial reference name.
pub fn validate_name(name: &[u8]) -> (r: Result<(), Error>)
    ensures
        r is Ok <==> valid_partial_name(name@),
        r is Err ==> r == Err::<(), Error>(Error::RefnameValidation),
{
    if partial_name_ok(name) {
        Ok(())
    } else {
        Err(Error::RefnameValidation)
    }
}

/// How a lookup of a name in a stack of tables ends.
pub enum Lookup {
    /// The stack's record for the name is this live reference.
    Found(ReferenceView),
    /// The stack holds no record for the name, or its record is a deletion.
    Missing,
    /// Seeking or reading the stack failed.
    Failed,
}

/// What looking `name` up in `tables` gives: seek a fresh iterator over the
/// ref records to `name`, then take the next record, the first whose name
/// is not less than `name`. It is found where that record is a live ref
/// named `name`; a deletion, another name or no record at all leaves it
/// missing. `None` where reading panics.
pub open spec fn spec_find(tables: Seq<Table>, name: Seq<u8>) -> Option<Lookup> {
    let want = spec_for_search(BlockType::Ref, name);
    match spec_merged_seek(fresh_iter(tables, BlockType::Ref), want) {
        None => None,
        Some((_, Err(_))) => Some(Lookup::Failed),
        Some((m, Ok(()))) => match spec_next_entry(m, want) {
            None => None,
            Some((_, _, Err(_))) => Some(Lookup::Failed),
            Some((_, _, Ok(false))) => Some(Lookup::Missing),
            Some((_, rec, Ok(true))) => match reference_of(rec) {
                Some(r) => if r.name == name {
                    Some(Lookup::Found(r))
                } else {
                    Some(Lookup::Missing)
                },
                None => Some(Lookup::Missing),
            },
        },
    }
}

/// Whether the record that a lookup of `name` reads is the stack's record
/// for `name` and a deletion.
pub open spec fn lookup_reads_deletion(tables: Seq<Table>, name: Seq<u8>) -> bool {
    let want = spec_for_search(BlockType::Ref, name);
    match spec_merged_seek(fresh_iter(tables, BlockType::Ref), want) {
        Some((m, Ok(()))) => match spec_next_entry(m, want) {
            Some((_, rec, Ok(true))) => rec.key() == name && reference_of(rec) is None,
            _ => false,
        },
        _ => false,
    }
}

/// Law: where a table of the stack holds a ref named `name`, its ref
/// records read without error with strictly increasing names, and its seek
/// to `name` succeeds, a lookup of `name` reports it missing only where the
/// stack's record for it is a deletion.
pub proof fn lemma_find_finds(tables: Seq<Table>, name: Seq<u8>, ti: int)
    requires
        forall|i: int| 0 <= i < tables.len() ==> #[trigger] tables[i].wf(),
        tables.len() <= usize::MAX,
        0 <= ti < tables.len(),
        ref_keys(&tables[ti]) matches Some(ks) && strictly_sorted(ks) && ks.contains(name),
        spec_table_seek(&tables[ti], fresh_iter(tables, BlockType::Ref).its[ti], spec_for_search(BlockType::Ref, name))
            matches Some((_, Ok(_))),
    ensures
        spec_find(tables, name) matches Some(Lookup::Missing) ==> lookup_reads_deletion(tables, name),
{
    let m = fresh_iter(tables, BlockType::Ref);
    assert forall|i: int| 0 <= i < m.tables.len() implies #[trigger] m.its[i].inv(&m.tables[i]) by {
        assert(m.its[i].bi.block.wf());
    }
    let want = spec_for_search(BlockType::Ref, name);
    if let Some((m1, Ok(()))) = spec_merged_seek(m, want) {
        lemma_seek_then_next_finds(m, want, want, ti);
        if let Some((_, rec, Ok(true))) = spec_next_entry(m1, want) {
            if let Some(r) = reference_of(rec) {
                assert(r.name == rec.key());
            }
        }
    }
}

/// What [`find()`] gives, by value.
pub enum FindOutcome {
    /// The reference found.
    Found(ReferenceView),
    /// No live reference has this name.
    NotFound(Seq<u8>),
    /// The lookup failed with this error.
    Failed(Error),
}

/// The value of a result of [`find()`].
pub open spec fn find_view(r: Result<Reference, existing::Error>) -> FindOutcome {
    match r {
        Ok(reference) => FindOutcome::Found(reference@),
        Err(existing::Error::NotFound { name }) => FindOutcome::NotFound(name@),
        Err(existing::Error::Find(e)) => FindOutcome::Failed(e),
    }
}

/// What [`find()`] gives for `name` in `tables`: an invalid name is
/// refused, otherwise the lookup decides (see `spec_find`); `None` where
/// reading panics.
pub open spec fn find_outcome(tables: Seq<Table>, name: Seq<u8>) -> Option<FindOutcome> {
    if !valid_partial_name(name) {
        Some(FindOutcome::Failed(Error::RefnameValidation))
    } else {
        match spec_find(tables, name) {
            None => None,
            Some(Lookup::Found(r)) => Some(FindOutcome::Found(r)),
            Some(Lookup::Missing) => Some(FindOutcome::NotFound(name)),
            Some(Lookup::Failed) => Some(FindOutcome::Failed(Error::PackedOpen)),
        }
    }
}

/// The value of a result of [`try_find()`].
pub open spec fn try_find_view(r: Result<Option<Reference>, Error>) -> Result<Option<ReferenceView>, Error> {
    match r {
        Ok(Some(reference)) => Ok(Some(reference@)),
        Ok(None) => Ok(None),
        Err(e) => Err(e),
    }
}

/// What [`try_find()`] gives for `name` in `tables`: the reference found,
/// nothing where none is live under that name, and a failed packed ref
/// lookup for an invalid name or a failed read; `None` where reading
/// panics.
pub open spec fn try_find_outcome(tables: Seq<Table>, name: Seq<u8>) -> Option<Result<Option<ReferenceView>, Error>> {
    if !valid_partial_name(name) {
        Some(Err(Error::PackedRef))
    } else {
        match spec_find(tables, name) {
            None => None,
            Some(Lookup::Found(r)) => Some(Ok(Some(r))),
            Some(Lookup::Missing) => Some(Ok(None)),
            Some(Lookup::Failed) => Some(Err(Error::PackedRef)),
        }
    }
}

/// Law: on the same stack, `try_find` gives what `find` gives, with
/// absence as `Ok(None)` and every other error as a failed packed ref
/// lookup.
pub proof fn lemma_try_find_is_find(tables: Seq<Table>, name: Seq<u8>)
    ensures
        try_find_outcome(tables, name) == match find_outcome(tables, name) {
            None => None,
            Some(FindOutcome::Found(r)) => Some(Ok(Some(r))),
            Some(FindOutcome::NotFound(_)) => Some(Ok(None)),
            Some(FindOutcome::Failed(_)) => Some(Err::<Option<ReferenceView>, Error>(Error::PackedRef)),
        },
{
}

/// Find the reference named `name` in the stack `mt` (see `spec_find`),
/// after checking that the name is valid; its absence is an error.
pub fn find(mt: &MergedTable, name: &[u8]) -> (r: Result<Reference, existing::Error>)
    requires
        mt.wf(),
        !mt.suppresses_deletions(),
        spec_find(mt.tables_seq(), name@) is Some,
    ensures
        find_outcome(mt.tables_seq(), name@) == Some(find_view(r)),
{
    if validate_name(name).is_err() {
        return Err(existing::Error::Find(Error::RefnameValidation));
    }
    let mut iter = MergedIter::from_merged(mt, BlockType::Ref);
    let mut rec = Record::for_search(BlockType::Ref, Some(crate::reftable::copy_bytes(name)));
    if iter.seek(&rec).is_err() {
        return Err(existing::Error::Find(Error::PackedOpen));
    }
    let found = match iter.next(&mut rec) {
        Ok(f) => f,
        Err(_) => return Err(existing::Error::Find(Error::PackedOpen)),
    };
    let live = found && match &rec {
        Record::Ref(r) => {
            proof {
                lemma_lex_equal(r.refname@, name@);
            }
            r.value.is_some() && compare_bytes(r.refname.as_slice(), name) == KeyOrder::Equal
        },
        _ => false,
    };
    if !live {
        return Err(existing::Error::NotFound { name: crate::reftable::copy_bytes(name) });
    }
    Ok(reference_from_record(&rec))
}

/// Like [`find()`], but absence is `Ok(None)` and every other error,
/// an invalid name among them, is a failed packed ref lookup.
pub fn try_find(mt: &MergedTable, name: &[u8]) -> (r: Result<Option<Reference>, Error>)
    requires
        mt.wf(),
        !mt.suppresses_deletions(),
        spec_find(mt.tables_seq(), name@) is Some,
    ensures
        try_find_outcome(mt.tables_seq(), name@) == Some(try_find_view(r)),
{
    match find(mt, name) {
        Ok(r) => Ok(Some(r)),
        Err(existing::Error::NotFound { .. }) => Ok(None),
        Err(_) => Err(Error::PackedRef),
    }
}

} // verus!
