//! The installation that a client operates on.

use crate::state;
use vstd::prelude::*;

verus! {

/// A root with the state that is live on it.
#[derive(Debug, PartialEq, Eq)]
pub struct Installation {
    /// The path of the root, in bytes.
    pub root: Vec<u8>,
    pub active_state: Option<state::Id>,
}

} // verus!
