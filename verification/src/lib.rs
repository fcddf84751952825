//! Reading git's reftable reference storage format, plus the reference
//! listing and fuzzy reference search built on top of it.
pub mod branch;
pub mod find;
pub mod fuzzy;
pub mod iter;
pub mod peel;
pub mod refs;
pub mod reftable;

use vstd::prelude::*;

verus! {

} // verus!
