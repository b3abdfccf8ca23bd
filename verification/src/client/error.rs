//! Why an operation of the client fails.

use crate::package;
use crate::state;
use vstd::prelude::*;

verus! {

/// Why an operation of the client fails.
///
/// A variant with a text passes on what a database, the filesystem or another part of the
/// system reported.
#[derive(Debug, PartialEq, Eq)]
pub enum Error {
    /// The root has no active state.
    NoActiveState,
    /// A package came without a layout.
    CorruptedPackage,
    /// The state is the active one already.
    StateAlreadyActive(state::Id),
    /// There is no such state.
    StateDoesntExist(state::Id),
    /// The registry does not know the package.
    MissingMetadata(package::Id),
    /// An ephemeral client may not blit to the installation root.
    EphemeralInstallationRoot,
    /// The operation is not for ephemeral clients.
    EphemeralProhibitedOperation,
    Installation(String),
    Cache(String),
    Repository(String),
    Meta(String),
    Prune(String),
    Io(String),
    Filesystem(String),
    Blit(String),
    PostBlit(String),
}

} // verus!
