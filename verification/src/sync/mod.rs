//! Syncing: package selections are brought in line with the candidates from the highest
//! priority repository.

use crate::client;
use vstd::prelude::*;

pub mod machine;
pub mod select;

verus! {

/// Why a sync fails.
///
/// A variant with a text passes on what a database, a dialog or another part of the system
/// reported.
#[derive(Debug, PartialEq, Eq)]
pub enum Error {
    /// The user did not want to go on.
    Cancelled,
    /// Nothing is installed.
    NoInstall,
    Client(client::Error),
    DB(String),
    Dialog(String),
    Transaction(String),
    Io(String),
}

} // verus!
