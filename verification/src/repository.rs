//! Repositories that packages come from.

use vstd::prelude::*;

verus! {

/// A repository that is in use.
#[derive(Debug, PartialEq, Eq)]
pub struct Repository {
    pub id: String,
}

impl Clone for Repository {
    fn clone(&self) -> (repository: Self)
        ensures
            repository == *self,
    {
        Repository { id: self.id.clone() }
    }
}

/// The repositories in use, and whether they were given explicitly or come from the system's
/// configuration.
#[derive(Debug, PartialEq, Eq)]
pub struct Manager {
    pub explicit: bool,
    pub active: Vec<Repository>,
}

impl Manager {
    /// Whether the repositories were given explicitly.
    pub fn is_explicit(&self) -> (explicit: bool)
        ensures
            explicit == self.explicit,
    {
        self.explicit
    }
}

} // verus!
