//! Packages and what identifies them.

use crate::text::{name_rank, natural_text, Rank};
use vstd::prelude::*;
use vstd::string::*;

verus! {

/// Identifies one build of a package.
#[derive(Debug)]
pub struct Id(pub String);

impl View for Id {
    type V = Seq<char>;

    open spec fn view(&self) -> Seq<char> {
        self.0@
    }
}

impl Clone for Id {
    fn clone(&self) -> (id: Self)
        ensures
            id == *self,
    {
        Id(self.0.clone())
    }
}

impl Default for Id {
    fn default() -> (id: Self)
        ensures
            id@ == Seq::<char>::empty(),
    {
        Id(String::new())
    }
}

impl PartialEq for Id {
    fn eq(&self, other: &Self) -> (same: bool) {
        self.0 == other.0
    }
}

impl vstd::std_specs::cmp::PartialEqSpecImpl for Id {
    open spec fn obeys_eq_spec() -> bool {
        true
    }

    open spec fn eq_spec(&self, other: &Self) -> bool {
        self@ == other@
    }
}

impl Eq for Id {

}

/// The name under which every build of a package goes.
#[derive(Debug)]
pub struct Name(pub String);

impl View for Name {
    type V = Seq<char>;

    open spec fn view(&self) -> Seq<char> {
        self.0@
    }
}

impl Clone for Name {
    fn clone(&self) -> (name: Self)
        ensures
            name == *self,
    {
        Name(self.0.clone())
    }
}

impl PartialEq for Name {
    fn eq(&self, other: &Self) -> (same: bool) {
        self.0 == other.0
    }
}

impl vstd::std_specs::cmp::PartialEqSpecImpl for Name {
    open spec fn obeys_eq_spec() -> bool {
        true
    }

    open spec fn eq_spec(&self, other: &Self) -> bool {
        self@ == other@
    }
}

impl Eq for Name {

}

impl Name {
    /// Where this name stands in relation to `other`.
    pub fn rank(&self, other: &Name) -> (rank: Rank)
        ensures
            rank == Rank::Before <==> crate::text::name_before(self@, other@),
            rank == Rank::Same <==> self@ == other@,
            rank == Rank::After <==> crate::text::name_before(other@, self@),
    {
        name_rank(self.0.as_str(), other.0.as_str())
    }
}

/// What is known of a package.
#[derive(Debug, PartialEq, Eq)]
pub struct Meta {
    pub name: Name,
    /// The version as upstream writes it.
    pub version_identifier: String,
    /// Counts the releases of the package; a higher one is newer.
    pub source_release: u64,
    pub download_size: Option<u64>,
    /// The rest of the record, as it came with the package: where it is found, its digest, what
    /// it depends on and so on. It is passed on unread.
    pub record: String,
}

impl Clone for Meta {
    fn clone(&self) -> (meta: Self)
        ensures
            meta == *self,
    {
        Meta {
            name: self.name.clone(),
            version_identifier: self.version_identifier.clone(),
            source_release: self.source_release,
            download_size: self.download_size,
            record: self.record.clone(),
        }
    }
}

impl Meta {
    /// The version shown to users: the upstream version and the release.
    pub fn version(&self) -> (text: String)
        ensures
            text@ == self.version_identifier@ + "-"@ + crate::text::decimal(
                self.source_release as int,
            ),
    {
        let mut text = self.version_identifier.clone();
        text.append("-");
        text.append(natural_text(self.source_release).as_str());
        text
    }
}

/// How a package came to be on the system.
#[derive(Clone, Copy, Debug, PartialEq, Eq, Structural)]
pub struct Flags {
    /// Asked for by name, rather than pulled in by another package.
    pub explicit: bool,
}

/// A package as the registry reports it.
#[derive(Debug, PartialEq, Eq)]
pub struct Package {
    pub id: Id,
    pub meta: Meta,
    pub flags: Flags,
}

impl Clone for Package {
    fn clone(&self) -> (package: Self)
        ensures
            package == *self,
    {
        Package { id: self.id.clone(), meta: self.meta.clone(), flags: self.flags }
    }
}

} // verus!
