//! The decisions of a package manager client: which packages a sync swaps in,
//! what a new system state is made of, and in which order the filesystem is
//! changed to get there.
//!
//! Nothing in this crate performs input or output. An operation is a plan of
//! steps, or a small machine that says what to do next and is told how it went.

pub mod client;
pub mod installation;
pub mod layout;
pub mod list;
pub mod package;
pub mod registry;
pub mod repository;
pub mod state;
pub mod sync;
pub mod text;
