//! Small helpers for callers of the stores.
use vstd::prelude::*;

verus! {

/// Discards a value; a transform for callers that only want to know
/// whether a resource resolved.
pub fn to_unit<A>(a: A) -> (r: ())
    ensures
        r == (),
{
}

} // verus!
