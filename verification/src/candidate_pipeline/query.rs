use vstd::prelude::*;

verus! {

/// The request for which candidates are scored and filtered.
///
/// No filter of this crate reads anything from it.
#[derive(Clone, Debug, Default)]
pub struct ScoredPostsQuery {}

} // verus!
