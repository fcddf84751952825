//! References as the store hands them out: a full name and what it points
//! to. Object ids are held as their raw hash bytes, names as their bytes.
use crate::reftable::leb64;
use crate::reftable::record::{spec_ref_decode, RecordView, RefRecordView, RefValueView};
use vstd::prelude::*;

verus! {

/// Where a reference points.
#[derive(Clone, Debug, PartialEq, Eq)]
pub enum Target {
    /// An object, by its id.
    Object(Vec<u8>),
    /// Another reference, by its full name.
    Symbolic(Vec<u8>),
}

/// The mathematical value of a [`Target`].
pub enum TargetView {
    Object(Seq<u8>),
    Symbolic(Seq<u8>),
}

impl View for Target {
    type V = TargetView;

    open spec fn view(&self) -> TargetView {
        match self {
            Target::Object(id) => TargetView::Object(id@),
            Target::Symbolic(name) => TargetView::Symbolic(name@),
        }
    }
}

/// A reference: its full name, its target, and for an annotated tag the
/// object the tag peels to.
#[derive(Clone, Debug, PartialEq, Eq)]
pub struct Reference {
    pub name: Vec<u8>,
    pub target: Target,
    pub peeled: Option<Vec<u8>>,
}

/// The mathematical value of a [`Reference`].
pub struct ReferenceView {
    pub name: Seq<u8>,
    pub target: TargetView,
    pub peeled: Option<Seq<u8>>,
}

impl View for Reference {
    type V = ReferenceView;

    open spec fn view(&self) -> ReferenceView {
        ReferenceView {
            name: self.name@,
            target: self.target@,
            peeled: match self.peeled {
                Some(p) => Some(p@),
                None => None,
            },
        }
    }
}

/// Marks the types that reference extensions may be implemented for.
pub trait Sealed {
}

impl Sealed for Reference {
}

/// The reference that a record stands for: a ref record that carries a
/// value (a deletion carries none).
pub open spec fn reference_of(rec: RecordView) -> Option<ReferenceView> {
    match rec {
        RecordView::Ref(r) => match r.value {
            Some(RefValueView::Val1(id)) => Some(
                ReferenceView { name: r.refname, target: TargetView::Object(id), peeled: None },
            ),
            Some(RefValueView::Val2(target, peeled)) => Some(
                ReferenceView { name: r.refname, target: TargetView::Object(target), peeled: Some(peeled) },
            ),
            Some(RefValueView::Symref(target)) => Some(
                ReferenceView { name: r.refname, target: TargetView::Symbolic(target), peeled: None },
            ),
            None => None,
        },
        _ => None,
    }
}

/// Law: a ref record stands for a reference under its own name. Holding two
/// object ids, it points to the first, the one stored first, and peels to
/// the second (an annotated tag and the object it peels to); holding one
/// id, it points to that id and is not peeled; holding a name, it points
/// symbolically to that name; a deletion stands for no reference, and
/// neither does a record of another kind.
pub proof fn lemma_reference_of_values(r: RefRecordView)
    ensures
        r.value matches Some(RefValueView::Val2(a, b)) ==> reference_of(RecordView::Ref(r)) == Some(
            ReferenceView { name: r.refname, target: TargetView::Object(a), peeled: Some(b) },
        ),
        r.value matches Some(RefValueView::Val1(a)) ==> reference_of(RecordView::Ref(r)) == Some(
            ReferenceView { name: r.refname, target: TargetView::Object(a), peeled: None },
        ),
        r.value matches Some(RefValueView::Symref(n)) ==> reference_of(RecordView::Ref(r)) == Some(
            ReferenceView { name: r.refname, target: TargetView::Symbolic(n), peeled: None },
        ),
        r.value is None ==> reference_of(RecordView::Ref(r)) is None,
        forall|rec: RecordView| !(rec is Ref) ==> (#[trigger] reference_of(rec)) is None,
{
}

/// Law: the reference made from a ref record with two object ids, read
/// from its bytes `s` (the update index, then the ids), points to the id
/// right after the update index and peels to the id after that.
pub proof fn lemma_peeled_reference_from_bytes(key: Seq<u8>, s: Seq<u8>, hash_size: u32)
    requires
        spec_ref_decode(key, s, 2, hash_size) is Ok,
    ensures
        spec_ref_decode(key, s, 2, hash_size) matches Ok((rec, _)) && leb64(s) matches Some((_, n)) && reference_of(
            RecordView::Ref(rec),
        ) == Some(
            ReferenceView {
                name: key,
                target: TargetView::Object(s.subrange(n, n + hash_size)),
                peeled: Some(s.subrange(n + hash_size, n + 2 * hash_size)),
            },
        ),
{
    crate::reftable::lemma_leb64_len(s);
    let (rec, _) = spec_ref_decode(key, s, 2, hash_size).unwrap();
    let (_, n) = leb64(s).unwrap();
    let rest = s.subrange(n, s.len() as int);
    let hs = hash_size as int;
    assert(rest.subrange(0, hs) =~= s.subrange(n, n + hs));
    assert(rest.subrange(hs, 2 * hs) =~= s.subrange(n + hs, n + 2 * hs));
}

/// The reference for a ref record `rec` that carries a value.
pub fn reference_from_record(rec: &crate::reftable::record::Record) -> (r: Reference)
    requires
        reference_of(rec@) is Some,
    ensures
        reference_of(rec@) == Some(r@),
{
    match rec {
        crate::reftable::record::Record::Ref(r) => match &r.value {
            Some(crate::reftable::record::RefValue::Val1(id)) => Reference {
                name: crate::reftable::copy_bytes(r.refname.as_slice()),
                target: Target::Object(crate::reftable::copy_bytes(id.as_slice())),
                peeled: None,
            },
            Some(crate::reftable::record::RefValue::Val2(target, peeled)) => Reference {
                name: crate::reftable::copy_bytes(r.refname.as_slice()),
                target: Target::Object(crate::reftable::copy_bytes(target.as_slice())),
                peeled: Some(crate::reftable::copy_bytes(peeled.as_slice())),
            },
            Some(crate::reftable::record::RefValue::Symref(target)) => Reference {
                name: crate::reftable::copy_bytes(r.refname.as_slice()),
                target: Target::Symbolic(crate::reftable::copy_bytes(target.as_slice())),
                peeled: None,
            },
            None => Reference { name: Vec::new(), target: Target::Object(Vec::new()), peeled: None },
        },
        _ => Reference { name: Vec::new(), target: Target::Object(Vec::new()), peeled: None },
    }
}

/// Whether `s` starts with `p`.
pub open spec fn starts_with(s: Seq<u8>, p: Seq<u8>) -> bool {
    p.len() <= s.len() && s.subrange(0, p.len() as int) == p
}

/// Whether `s` starts with `p`.
pub fn has_prefix(s: &[u8], p: &[u8]) -> (r: bool)
    ensures
        r == starts_with(s@, p@),
{
    if p.len() > s.len() {
        return false;
    }
    let mut i: usize = 0;
    while i < p.len()
        invariant
            p@.len() <= s@.len(),
            i <= p@.len(),
            forall|k: int| 0 <= k < i ==> s@[k] == p@[k],
        decreases p@.len() - i,
    {
        if s[i] != p[i] {
            proof {
                assert(s@.subrange(0, p@.len() as int)[i as int] != p@[i as int]);
            }
            return false;
        }
        i = i + 1;
    }
    proof {
        assert(s@.subrange(0, p@.len() as int) =~= p@);
    }
    true
}

} // verus!
