//! An in-process engine: an estate and the flow over it, held together.

use vstd::prelude::*;

verus! {

/// An estate plus its assembled flow, held together: the estate stays alive, so
/// that its out-of-band graph applier keeps running.
pub struct EmbeddedEngine<S, F> {
    pub store: S,
    pub flow: F,
}

impl<S, F> EmbeddedEngine<S, F> {
    /// The engine over an estate.
    pub fn new(store: S, flow: F) -> (r: EmbeddedEngine<S, F>)
        ensures
            r.store == store,
            r.flow == flow,
    {
        EmbeddedEngine { store, flow }
    }

    /// The underlying estate: direct recall and administration.
    pub fn estate(&self) -> (r: &S)
        ensures
            *r == self.store,
    {
        &self.store
    }
}

} // verus!
