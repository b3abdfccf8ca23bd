//! What a package puts on the filesystem.

use vstd::prelude::*;

verus! {

/// One filesystem node, with its path below `/usr` last.
#[derive(Debug, PartialEq, Eq)]
pub enum Entry {
    /// A regular file, by the digest of its contents.
    Regular(u128, String),
    /// A symbolic link, by what it points to.
    Symlink(String, String),
    Directory(String),
    CharacterDevice(String),
    BlockDevice(String),
    Fifo(String),
    Socket(String),
}

impl Clone for Entry {
    fn clone(&self) -> (entry: Self)
        ensures
            entry == *self,
    {
        match self {
            Entry::Regular(digest, target) => Entry::Regular(*digest, target.clone()),
            Entry::Symlink(source, target) => Entry::Symlink(source.clone(), target.clone()),
            Entry::Directory(target) => Entry::Directory(target.clone()),
            Entry::CharacterDevice(target) => Entry::CharacterDevice(target.clone()),
            Entry::BlockDevice(target) => Entry::BlockDevice(target.clone()),
            Entry::Fifo(target) => Entry::Fifo(target.clone()),
            Entry::Socket(target) => Entry::Socket(target.clone()),
        }
    }
}

impl Entry {
    /// Where the node goes.
    pub open spec fn spec_target(self) -> String {
        match self {
            Entry::Regular(_, target) => target,
            Entry::Symlink(_, target) => target,
            Entry::Directory(target) => target,
            Entry::CharacterDevice(target) => target,
            Entry::BlockDevice(target) => target,
            Entry::Fifo(target) => target,
            Entry::Socket(target) => target,
        }
    }

    /// The same node at `path`.
    pub open spec fn spec_moved_to(self, path: String) -> Entry {
        match self {
            Entry::Regular(digest, _) => Entry::Regular(digest, path),
            Entry::Symlink(source, _) => Entry::Symlink(source, path),
            Entry::Directory(_) => Entry::Directory(path),
            Entry::CharacterDevice(_) => Entry::CharacterDevice(path),
            Entry::BlockDevice(_) => Entry::BlockDevice(path),
            Entry::Fifo(_) => Entry::Fifo(path),
            Entry::Socket(_) => Entry::Socket(path),
        }
    }

    /// Where the node goes.
    pub fn target(&self) -> (target: &String)
        ensures
            *target == self.spec_target(),
    {
        match self {
            Entry::Regular(_, target) => target,
            Entry::Symlink(_, target) => target,
            Entry::Directory(target) => target,
            Entry::CharacterDevice(target) => target,
            Entry::BlockDevice(target) => target,
            Entry::Fifo(target) => target,
            Entry::Socket(target) => target,
        }
    }

    /// The same node at `path`.
    pub fn moved_to(&self, path: String) -> (entry: Entry)
        ensures
            entry == self.spec_moved_to(path),
    {
        match self {
            Entry::Regular(digest, _) => Entry::Regular(*digest, path),
            Entry::Symlink(source, _) => Entry::Symlink(source.clone(), path),
            Entry::Directory(_) => Entry::Directory(path),
            Entry::CharacterDevice(_) => Entry::CharacterDevice(path),
            Entry::BlockDevice(_) => Entry::BlockDevice(path),
            Entry::Fifo(_) => Entry::Fifo(path),
            Entry::Socket(_) => Entry::Socket(path),
        }
    }
}

/// The target of an entry is the path that it was made with, whatever its kind; and an entry that
/// is moved is the same node, of the same kind and with the same contents, at the new path.
pub proof fn moving_changes_the_target_alone(
    digest: u128,
    source: String,
    target: String,
    path: String,
)
    ensures
        forall|entry: Entry| #[trigger] entry.spec_moved_to(path).spec_target() == path,
        Entry::Regular(digest, target).spec_target() == target,
        Entry::Symlink(source, target).spec_target() == target,
        Entry::Directory(target).spec_target() == target,
        Entry::CharacterDevice(target).spec_target() == target,
        Entry::BlockDevice(target).spec_target() == target,
        Entry::Fifo(target).spec_target() == target,
        Entry::Socket(target).spec_target() == target,
        Entry::Regular(digest, target).spec_moved_to(path) == Entry::Regular(digest, path),
        Entry::Symlink(source, target).spec_moved_to(path) == Entry::Symlink(source, path),
        Entry::Directory(target).spec_moved_to(path) == Entry::Directory(path),
        Entry::CharacterDevice(target).spec_moved_to(path) == Entry::CharacterDevice(path),
        Entry::BlockDevice(target).spec_moved_to(path) == Entry::BlockDevice(path),
        Entry::Fifo(target).spec_moved_to(path) == Entry::Fifo(path),
        Entry::Socket(target).spec_moved_to(path) == Entry::Socket(path),
{
}

/// A node together with its ownership and mode.
#[derive(Debug, PartialEq, Eq)]
pub struct Layout {
    pub uid: u32,
    pub gid: u32,
    pub mode: u32,
    pub tag: u32,
    pub entry: Entry,
}

impl Clone for Layout {
    fn clone(&self) -> (layout: Self)
        ensures
            layout == *self,
    {
        Layout {
            uid: self.uid,
            gid: self.gid,
            mode: self.mode,
            tag: self.tag,
            entry: self.entry.clone(),
        }
    }
}

} // verus!
