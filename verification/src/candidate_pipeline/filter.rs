use vstd::prelude::*;

verus! {

/// What a filter hands back: the candidates it keeps and those it removes.
#[derive(Debug)]
pub struct FilterResult<C> {
    pub kept: Vec<C>,
    pub removed: Vec<C>,
}

} // verus!
