//! What a client works on.

use vstd::prelude::*;

verus! {

/// Whether a client changes the state of its installation or only fills another root.
#[derive(Debug, PartialEq, Eq)]
pub enum Scope {
    /// States are recorded and made live.
    Stateful,
    /// Nothing is recorded; packages are blitted to the path given, in bytes.
    Ephemeral { blit_root: Vec<u8> },
}

impl Scope {
    /// Whether nothing is recorded.
    pub fn is_ephemeral(&self) -> (ephemeral: bool)
        ensures
            ephemeral == (self is Ephemeral),
    {
        matches!(self, Scope::Ephemeral { .. })
    }
}

} // verus!
