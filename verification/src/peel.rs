//! Following symbolic references to an object and peeling annotated tags
//! to the object they point to: the decisions, one step at a time, while
//! the lookups of references and objects are made by the caller.
use crate::find::existing;
use crate::refs::{Reference, ReferenceView, Target, TargetView};
use crate::reftable::copy_bytes;
use crate::reftable::keys::{compare_bytes, lemma_lex_equal, KeyOrder};
use vstd::prelude::*;

verus! {

/// How many symbolic references are followed at most.
pub const MAX_REF_DEPTH: usize = 5;

/// Why a reference could not be followed or peeled.
#[derive(Debug, Clone, PartialEq, Eq)]
pub enum PeelError {
    /// Following the reference named `name` led back to a reference seen
    /// before.
    Cycle { name: Vec<u8> },
    /// More than `max_depth` symbolic references would have to be followed.
    DepthLimitExceeded { max_depth: usize },
    /// A symbolic reference could not be looked up.
    Follow(existing::Error),
    /// The object `oid` that the reference named `name` leads to is missing
    /// or is a tag whose target cannot be read.
    NotFound { oid: Vec<u8>, name: Vec<u8> },
    /// The object database failed to look an object up, with its message.
    Find(String),
}

/// What to do next while following a reference.
#[derive(Debug, Clone, PartialEq, Eq)]
pub enum Follow {
    /// Look up the reference with this full name and hand it to
    /// `follow_step`.
    Lookup(Vec<u8>),
    /// The reference points to this object.
    Done(Vec<u8>),
}

/// The next action for the reference `cursor`: its object, or the name
/// to look up where it is symbolic.
pub fn follow_next(cursor: &Reference) -> (r: Follow)
    ensures
        match cursor@.target {
            TargetView::Object(id) => r matches Follow::Done(o) && o@ == id,
            TargetView::Symbolic(name) => r matches Follow::Lookup(n) && n@ == name,
        },
{
    match &cursor.target {
        Target::Object(id) => Follow::Done(copy_bytes(id.as_slice())),
        Target::Symbolic(name) => Follow::Lookup(copy_bytes(name.as_slice())),
    }
}

/// Whether `names` holds `name`.
pub fn seen_before(names: &Vec<Vec<u8>>, name: &[u8]) -> (r: bool)
    ensures
        r == names@.map_values(|n: Vec<u8>| n@).contains(name@),
{
    let ghost v = names@.map_values(|n: Vec<u8>| n@);
    let mut i: usize = 0;
    while i < names.len()
        invariant
            i <= names@.len(),
            v == names@.map_values(|n: Vec<u8>| n@),
            forall|k: int| 0 <= k < i ==> v[k] != name@,
        decreases names@.len() - i,
    {
        proof {
            lemma_lex_equal(names@[i as int]@, name@);
        }
        if compare_bytes(names[i].as_slice(), name) == KeyOrder::Equal {
            proof {
                assert(v[i as int] == name@);
            }
            return true;
        }
        i = i + 1;
    }
    false
}

/// Take the lookup of the symbolic target of `cursor`: an error stops the
/// following; a reference whose name was seen before is a cycle, reported
/// under the name of `cursor`; otherwise `cursor` moves on to it and its
/// name is remembered in `seen`, and reaching `MAX_REF_DEPTH` names stops
/// the following. `None` where the following goes on.
pub fn follow_step(seen: &mut Vec<Vec<u8>>, cursor: &mut Reference, next: Result<Reference, existing::Error>) -> (r:
    Option<PeelError>)
    ensures
        match next {
            Err(e) => r == Some(PeelError::Follow(e)) && *final(cursor) == *old(cursor) && final(seen)@
                == old(seen)@,
            Ok(n) => if old(seen)@.map_values(|x: Vec<u8>| x@).contains(n.name@) {
                r matches Some(PeelError::Cycle { name }) && name@ == old(cursor)@.name && *final(cursor)
                    == *old(cursor) && final(seen)@ == old(seen)@
            } else {
                &&& *final(cursor) == n
                &&& final(seen)@.map_values(|x: Vec<u8>| x@) == old(seen)@.map_values(|x: Vec<u8>| x@).push(n.name@)
                &&& final(seen)@.len() == MAX_REF_DEPTH ==> r == Some(
                    PeelError::DepthLimitExceeded { max_depth: MAX_REF_DEPTH },
                )
                &&& final(seen)@.len() != MAX_REF_DEPTH ==> r is None
            },
        },
{
    let next = match next {
        Err(e) => return Some(PeelError::Follow(e)),
        Ok(n) => n,
    };
    if seen_before(seen, next.name.as_slice()) {
        return Some(PeelError::Cycle { name: copy_bytes(cursor.name.as_slice()) });
    }
    let name = copy_bytes(next.name.as_slice());
    let ghost before = seen@;
    seen.push(name);
    proof {
        assert(seen@.map_values(|x: Vec<u8>| x@) =~= before.map_values(|x: Vec<u8>| x@).push(next.name@));
    }
    *cursor = next;
    if seen.len() == MAX_REF_DEPTH {
        return Some(PeelError::DepthLimitExceeded { max_depth: MAX_REF_DEPTH });
    }
    None
}

/// What the object database holds under an id, as far as peeling reads it.
#[derive(Debug, Clone, PartialEq, Eq)]
pub enum ObjectLookup {
    /// There is no such object.
    Missing,
    /// An annotated tag, with the id of its target where that can be read.
    Tag(Option<Vec<u8>>),
    /// An object of another kind.
    Other,
    /// The lookup itself failed, with this message.
    Failed(String),
}

/// What to do next while peeling.
#[derive(Debug, Clone, PartialEq, Eq)]
pub enum Peel {
    /// Look up this object and hand it to `peel_step`.
    Lookup(Vec<u8>),
    /// The reference peels to this object.
    Done(Vec<u8>),
}

/// Start peeling `r`: an id peeled before is taken at once, and the
/// reference then points to it; `None` where the reference is to be
/// followed to its object first.
pub fn peel_start(r: &mut Reference) -> (id: Option<Vec<u8>>)
    ensures
        match old(r)@.peeled {
            Some(p) => id matches Some(i) && i@ == p && final(r)@ == (ReferenceView {
                target: TargetView::Object(p),
                ..old(r)@
            }),
            None => id is None && *final(r) == *old(r),
        },
{
    match &r.peeled {
        Some(p) => {
            let p = copy_bytes(p.as_slice());
            r.target = Target::Object(copy_bytes(p.as_slice()));
            Some(p)
        },
        None => None,
    }
}

/// Take the lookup of the object `oid` reached from the reference named
/// `name`: a tag is peeled on to its target, any other object is the end,
/// and a missing object, an unreadable tag or a failed lookup is an error.
pub fn peel_step(oid: &[u8], name: &[u8], object: ObjectLookup) -> (r: Result<Peel, PeelError>)
    ensures
        match object {
            ObjectLookup::Missing | ObjectLookup::Tag(None) => r matches Err(PeelError::NotFound { oid: o, name: n })
                && o@ == oid@ && n@ == name@,
            ObjectLookup::Tag(Some(target)) => r matches Ok(Peel::Lookup(t)) && t@ == target@,
            ObjectLookup::Other => r matches Ok(Peel::Done(d)) && d@ == oid@,
            ObjectLookup::Failed(m) => r == Err::<Peel, PeelError>(PeelError::Find(m)),
        },
{
    match object {
        ObjectLookup::Missing | ObjectLookup::Tag(None) => Err(
            PeelError::NotFound { oid: copy_bytes(oid), name: copy_bytes(name) },
        ),
        ObjectLookup::Tag(Some(target)) => Ok(Peel::Lookup(target)),
        ObjectLookup::Other => Ok(Peel::Done(copy_bytes(oid))),
        ObjectLookup::Failed(m) => Err(PeelError::Find(m)),
    }
}

/// Finish peeling `r` at the object `id`: it is remembered as peeled and
/// the reference points to it.
pub fn peel_finish(r: &mut Reference, id: &[u8])
    ensures
        final(r)@ == (ReferenceView { target: TargetView::Object(id@), peeled: Some(id@), ..old(r)@ }),
{
    r.peeled = Some(copy_bytes(id));
    r.target = Target::Object(copy_bytes(id));
}

} // verus!
