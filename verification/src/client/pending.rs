//! Files that wait to be put on the filesystem.

use crate::layout::{Entry, Layout};
use crate::package;
use crate::text::below_usr_text;
use vstd::prelude::*;

verus! {

/// A file of a package, pending to be blitted.
#[derive(Debug, PartialEq, Eq)]
pub struct PendingFile {
    pub id: package::Id,
    pub layout: Layout,
}

/// What a filesystem tree needs to know of a node.
#[derive(Debug, PartialEq, Eq)]
pub enum Kind {
    Regular,
    Directory,
    /// A symbolic link, by what it points to.
    Symlink(String),
}

impl Clone for PendingFile {
    fn clone(&self) -> (file: Self)
        ensures
            file == *self,
    {
        PendingFile { id: self.id.clone(), layout: self.layout.clone() }
    }
}

impl PendingFile {
    /// The kind that an entry is treated as: everything that is neither a symbolic link nor a
    /// directory counts as a regular file.
    pub open spec fn spec_kind(self) -> Kind {
        match self.layout.entry {
            Entry::Symlink(source, _) => Kind::Symlink(source),
            Entry::Directory(_) => Kind::Directory,
            _ => Kind::Regular,
        }
    }

    /// The full path of the file.
    pub open spec fn spec_path(self) -> Seq<char> {
        crate::text::below_usr(self.layout.entry.spec_target()@)
    }

    /// The same file at `path`.
    pub open spec fn spec_cloned_to(self, path: String) -> PendingFile {
        PendingFile {
            id: self.id,
            layout: Layout { entry: self.layout.entry.spec_moved_to(path), ..self.layout },
        }
    }

    /// The kind of the node.
    pub fn kind(&self) -> (kind: Kind)
        ensures
            kind == self.spec_kind(),
    {
        match &self.layout.entry {
            Entry::Symlink(source, _) => Kind::Symlink(source.clone()),
            Entry::Directory(_) => Kind::Directory,
            _ => Kind::Regular,
        }
    }

    /// The package that the file belongs to, for reporting conflicts.
    pub fn id(&self) -> (id: String)
        ensures
            id == self.id.0,
    {
        self.id.0.clone()
    }

    /// The target path, with the missing `/usr` prefix.
    pub fn path(&self) -> (path: String)
        ensures
            path@ == self.spec_path(),
    {
        below_usr_text(self.layout.entry.target().as_str())
    }

    /// The node at another path, for resolving symbolic links.
    pub fn cloned_to(&self, path: String) -> (file: Self)
        ensures
            file == self.spec_cloned_to(path),
    {
        PendingFile {
            id: self.id.clone(),
            layout: Layout {
                uid: self.layout.uid,
                gid: self.layout.gid,
                mode: self.layout.mode,
                tag: self.layout.tag,
                entry: self.layout.entry.moved_to(path),
            },
        }
    }

    /// The text of a pending file is its path.
    pub fn to_string(&self) -> (text: String)
        ensures
            text@ == self.spec_path(),
    {
        self.path()
    }
}

impl vstd::std_specs::convert::FromSpecImpl<String> for PendingFile {
    open spec fn obeys_from_spec() -> bool {
        false
    }

    open spec fn from_spec(value: String) -> Self {
        arbitrary()
    }
}

/// A directory that no package owns, at the given path.
impl From<String> for PendingFile {
    fn from(value: String) -> (file: Self)
        ensures
            file.id@ == Seq::<char>::empty(),
            file.layout == (Layout {
                uid: 0,
                gid: 0,
                mode: 0o755,
                tag: 0,
                entry: Entry::Directory(value),
            }),
    {
        PendingFile {
            id: package::Id::default(),
            layout: Layout { uid: 0, gid: 0, mode: 0o755, tag: 0, entry: Entry::Directory(value) },
        }
    }
}

/// A file cloned to an absolute path is found there, and is otherwise what it was: it belongs
/// to the same package and has the same kind, owner and mode.
pub proof fn cloned_to_moves_only_the_path(file: PendingFile, path: String)
    requires
        crate::text::is_absolute(path@),
    ensures
        file.spec_cloned_to(path).spec_path() == path@,
        file.spec_cloned_to(path).spec_kind() == file.spec_kind(),
        file.spec_cloned_to(path).id == file.id,
        file.spec_cloned_to(path).layout == (Layout {
            entry: file.spec_cloned_to(path).layout.entry,
            ..file.layout
        }),
{
}

/// Every pending file has an absolute path.
pub proof fn paths_are_absolute(file: PendingFile)
    ensures
        crate::text::is_absolute(file.spec_path()),
{
    reveal_strlit("/usr/");
}

/// Symbolic links are told by what they point to, directories by being one, and everything else
/// counts as a regular file.
pub proof fn kinds_follow_the_entry(file: PendingFile)
    ensures
        match file.layout.entry {
            Entry::Symlink(source, _) => file.spec_kind() == Kind::Symlink(source),
            _ => !(file.spec_kind() is Symlink),
        },
        file.spec_kind() is Directory <==> file.layout.entry is Directory,
        file.spec_kind() is Regular <==> !(file.layout.entry is Symlink || file.layout.entry
            is Directory),
{
}

/// A file is found where its target is below `/usr`, whatever its kind, package, owner or mode.
pub proof fn files_are_found_at_their_target(file: PendingFile, target: Seq<char>)
    requires
        match file.layout.entry {
            Entry::Regular(_, path) => path@ == target,
            Entry::Symlink(_, path) => path@ == target,
            Entry::Directory(path) => path@ == target,
            Entry::CharacterDevice(path) => path@ == target,
            Entry::BlockDevice(path) => path@ == target,
            Entry::Fifo(path) => path@ == target,
            Entry::Socket(path) => path@ == target,
        },
    ensures
        target.len() > 0 && target[0] == '/' ==> file.spec_path() == target,
        !(target.len() > 0 && target[0] == '/') ==> file.spec_path() == seq![
            '/',
            'u',
            's',
            'r',
            '/',
        ] + target,
{
    crate::text::targets_are_found_below_usr(target);
}

/// A file that is cloned to a path belongs to the same package and has the same owner, group, mode
/// and tag.
pub proof fn clones_keep_their_attributes(file: PendingFile, path: String)
    ensures
        file.spec_cloned_to(path).id == file.id,
        file.spec_cloned_to(path).layout.uid == file.layout.uid,
        file.spec_cloned_to(path).layout.gid == file.layout.gid,
        file.spec_cloned_to(path).layout.mode == file.layout.mode,
        file.spec_cloned_to(path).layout.tag == file.layout.tag,
        match (file.layout.entry, file.spec_cloned_to(path).layout.entry) {
            (Entry::Regular(a, _), Entry::Regular(b, to)) => a == b && to == path,
            (Entry::Symlink(a, _), Entry::Symlink(b, to)) => a == b && to == path,
            (Entry::Directory(_), Entry::Directory(to)) => to == path,
            (Entry::CharacterDevice(_), Entry::CharacterDevice(to)) => to == path,
            (Entry::BlockDevice(_), Entry::BlockDevice(to)) => to == path,
            (Entry::Fifo(_), Entry::Fifo(to)) => to == path,
            (Entry::Socket(_), Entry::Socket(to)) => to == path,
            _ => false,
        },
{
}

} // verus!
