//! Element identities shared by the layout tree, queries, and input routing.
use vstd::prelude::*;

verus! {

/// Stable identifier of a UI element: a hash of the path it was declared at.
///
/// Identifiers handed out by the engine are never zero.
pub type Id = u64;

/// The `ElementHandle` trait exposes the stable identity assigned during layout.
pub trait ElementHandle {
    /// The identity `id` returns, for use in contracts.
    spec fn spec_id(&self) -> Id;

    /// Returns the layout identity for this element.
    fn id(&self) -> (r: Id)
        ensures
            r == self.spec_id(),
    ;
}

} // verus!
