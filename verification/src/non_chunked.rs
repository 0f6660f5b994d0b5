//! A plain value vector for series without gaps: one value per tick. It is a
//! trivial collaborator of the chunked store and carries no algorithmic
//! content of its own.

use vstd::prelude::*;

verus! {

/// Data without breaks: every tick is assumed to have a value, so values are
/// stored densely and the logical index is the vector index.
#[allow(dead_code)]
pub struct NonChunkedData<T>(Vec<T>);

} // verus!
