use vstd::prelude::*;

verus! {

/// The reference number of a record, assigned where records are stored and never altered.
pub type Id = i64;

} // verus!
