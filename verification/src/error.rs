use vstd::prelude::*;

verus! {

/// Everything a tree-mutation, attach/detach or accelerator operation can
/// report.
///
/// Each variant is tied by the operations' contracts to exactly the inputs on
/// which it is returned.
#[derive(Clone, Copy, PartialEq, Eq, Structural, Debug)]
pub enum Error {
    /// The node asked to be removed is not in this composite's canonical
    /// child list.
    NotAChildOfThisMenu,
    /// `attach` was called twice for the same surface key.
    AlreadyInitialized,
    /// The surface key was never attached.
    NotInitialized,
    /// The abstract modifier/key pair has no platform key representation.
    AcceleratorParseError,
}

} // verus!
