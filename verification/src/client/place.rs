//! Places on the filesystem that the client works on.

use crate::state;
use vstd::prelude::*;
use vstd::string::*;

verus! {

/// The links at the top of a root that lead into `/usr`.
#[derive(Clone, Copy, Debug, PartialEq, Eq, Structural)]
pub enum RootLink {
    Sbin,
    Bin,
    Lib,
    Lib64,
    Lib32,
}

impl RootLink {
    /// What the link points to.
    pub open spec fn spec_source(self) -> Seq<char> {
        match self {
            RootLink::Sbin => "usr/sbin"@,
            RootLink::Bin => "usr/bin"@,
            RootLink::Lib => "usr/lib"@,
            RootLink::Lib64 => "usr/lib"@,
            RootLink::Lib32 => "usr/lib32"@,
        }
    }

    /// The name of the link.
    pub open spec fn spec_target(self) -> Seq<char> {
        match self {
            RootLink::Sbin => "sbin"@,
            RootLink::Bin => "bin"@,
            RootLink::Lib => "lib"@,
            RootLink::Lib64 => "lib64"@,
            RootLink::Lib32 => "lib32"@,
        }
    }

    /// The name under which the link is made before it replaces what was there.
    pub open spec fn spec_staged(self) -> Seq<char> {
        self.spec_target() + ".next"@
    }

    /// What the link points to.
    pub fn source(&self) -> (text: &'static str)
        ensures
            text@ == self.spec_source(),
    {
        match self {
            RootLink::Sbin => "usr/sbin",
            RootLink::Bin => "usr/bin",
            RootLink::Lib => "usr/lib",
            RootLink::Lib64 => "usr/lib",
            RootLink::Lib32 => "usr/lib32",
        }
    }

    /// The name of the link.
    pub fn target(&self) -> (text: &'static str)
        ensures
            text@ == self.spec_target(),
    {
        match self {
            RootLink::Sbin => "sbin",
            RootLink::Bin => "bin",
            RootLink::Lib => "lib",
            RootLink::Lib64 => "lib64",
            RootLink::Lib32 => "lib32",
        }
    }

    /// The name under which the link is made before it replaces what was there.
    pub fn staged(&self) -> (text: String)
        ensures
            text@ == self.spec_staged(),
    {
        let mut text = self.target().to_string();
        text.append(".next");
        text
    }
}

/// A directory that the installation, or an ephemeral client, knows by role.
#[derive(Clone, Copy, Debug, PartialEq, Eq, Structural)]
pub enum Base {
    /// The root that the installation operates on.
    Root,
    /// Where the next state is put together.
    Staging,
    /// The root in which triggers of a transaction run.
    Isolation,
    /// The root that an ephemeral client blits to.
    BlitRoot,
    /// The tree of an archived state.
    Archive(state::Id),
}

/// A place within a base directory.
#[derive(Clone, Copy, Debug, PartialEq, Eq, Structural)]
pub enum Node {
    /// The base directory.
    Itself,
    Usr,
    UsrLib,
    OsRelease,
    /// The file that tells which state a tree belongs to.
    StateId,
    Etc,
    Link(RootLink),
    StagedLink(RootLink),
}

/// A path, by its base directory and the place within it.
#[derive(Clone, Copy, Debug, PartialEq, Eq, Structural)]
pub struct Location {
    pub base: Base,
    pub node: Node,
}

impl Location {
    /// The path below the base directory; empty for the base directory itself.
    pub open spec fn spec_relative(self) -> Seq<char> {
        match self.node {
            Node::Itself => ""@,
            Node::Usr => "usr"@,
            Node::UsrLib => "usr/lib"@,
            Node::OsRelease => "usr/lib/os-release"@,
            Node::StateId => "usr/.stateID"@,
            Node::Etc => "etc"@,
            Node::Link(link) => link.spec_target(),
            Node::StagedLink(link) => link.spec_staged(),
        }
    }

    /// The path below the base directory; empty for the base directory itself.
    pub fn relative(&self) -> (text: String)
        ensures
            text@ == self.spec_relative(),
    {
        match &self.node {
            Node::Itself => "".to_string(),
            Node::Usr => "usr".to_string(),
            Node::UsrLib => "usr/lib".to_string(),
            Node::OsRelease => "usr/lib/os-release".to_string(),
            Node::StateId => "usr/.stateID".to_string(),
            Node::Etc => "etc".to_string(),
            Node::Link(link) => link.target().to_string(),
            Node::StagedLink(link) => link.staged(),
        }
    }
}

/// What the client writes to a file.
#[derive(Clone, Copy, Debug, PartialEq, Eq, Structural)]
pub enum Contents {
    /// The number of a state.
    StateId(state::Id),
    /// The release information of the system, with the state it belongs to.
    OsRelease(Option<state::Id>),
}

/// The release information of the system at `version`, with `tx` as the transaction's number.
pub open spec fn os_release(version: Seq<char>, tx: Seq<char>) -> Seq<char> {
    "NAME=\"Serpent OS\"\nVERSION=\""@ + version + "\"\nID=\"serpentos\"\nVERSION_CODENAME="@
        + version + "\nVERSION_ID=\""@ + version + "\"\nPRETTY_NAME=\"Serpent OS "@ + version
        + " (fstx #"@ + tx
        + ")\"\nANSI_COLOR=\"1;35\"\nHOME_URL=\"https://serpentos.com\"\nBUG_REPORT_URL=\"https://github.com/serpent-os\""@
}

impl Contents {
    /// The text of the file on a system at `version`. Without a state the number is zero.
    pub open spec fn spec_render(self, version: Seq<char>) -> Seq<char> {
        match self {
            Contents::StateId(id) => id.spec_text(),
            Contents::OsRelease(Some(id)) => os_release(version, id.spec_text()),
            Contents::OsRelease(None) => os_release(version, state::Id(0).spec_text()),
        }
    }

    /// The text of the file on a system at `version`. Without a state the number is zero.
    pub fn render(&self, version: &str) -> (text: String)
        ensures
            text@ == self.spec_render(version@),
    {
        match self {
            Contents::StateId(id) => id.text(),
            Contents::OsRelease(state) => {
                let tx = match state {
                    Some(id) => id.text(),
                    None => state::Id(0).text(),
                };
                let mut text = "NAME=\"Serpent OS\"\nVERSION=\"".to_string();
                text.append(version);
                text.append("\"\nID=\"serpentos\"\nVERSION_CODENAME=");
                text.append(version);
                text.append("\nVERSION_ID=\"");
                text.append(version);
                text.append("\"\nPRETTY_NAME=\"Serpent OS ");
                text.append(version);
                text.append(" (fstx #");
                text.append(tx.as_str());
                text.append(
                    ")\"\nANSI_COLOR=\"1;35\"\nHOME_URL=\"https://serpentos.com\"\nBUG_REPORT_URL=\"https://github.com/serpent-os\"",
                );
                text
            },
        }
    }
}

/// The path of a link, and of its staged name, is made of the link's name.
pub proof fn links_are_found_by_their_name(base: Base, link: RootLink)
    ensures
        (Location { base, node: Node::Link(link) }).spec_relative() == link.spec_target(),
        (Location { base, node: Node::StagedLink(link) }).spec_relative() == link.spec_target()
            + seq!['.', 'n', 'e', 'x', 't'],
{
    reveal_strlit(".next");
    assert(".next"@ =~= seq!['.', 'n', 'e', 'x', 't']);
}

/// Every link leads into the directory below `/usr` that it is named after; the two names for
/// the libraries of the machine's own width lead to the same.
pub proof fn links_lead_below_usr(link: RootLink)
    ensures
        link.spec_source() == seq!['u', 's', 'r', '/'] + (if link is Lib64 {
            RootLink::Lib.spec_target()
        } else {
            link.spec_target()
        }),
{
    reveal_strlit("usr/sbin");
    reveal_strlit("usr/bin");
    reveal_strlit("usr/lib");
    reveal_strlit("usr/lib32");
    reveal_strlit("sbin");
    reveal_strlit("bin");
    reveal_strlit("lib");
    reveal_strlit("lib64");
    reveal_strlit("lib32");
    assert(link.spec_source() =~= seq!['u', 's', 'r', '/'] + (if link is Lib64 {
        RootLink::Lib.spec_target()
    } else {
        link.spec_target()
    }));
}

/// The file that tells which state a tree belongs to holds the state's number and nothing else,
/// whatever the version. The release information of two versions or states differs in the
/// version and the number alone, and without a state the number is zero.
pub proof fn files_tell_the_state(id: state::Id, version: Seq<char>)
    ensures
        Contents::StateId(id).spec_render(version) == id.spec_text(),
        Contents::OsRelease(Some(id)).spec_render(version) == release_text(
            version,
            id.spec_text(),
        ),
        Contents::OsRelease(None).spec_render(version) == release_text(version, seq!['0']),
{
    crate::text::decimal_reads_back(0);
}

/// The lines of the release information.
pub open spec fn release_text(version: Seq<char>, number: Seq<char>) -> Seq<char> {
    ("NAME=\"Serpent OS\"\nVERSION=\""@ + version) + ("\"\nID=\"serpentos\"\nVERSION_CODENAME="@
        + version) + ("\nVERSION_ID=\""@ + version) + ("\"\nPRETTY_NAME=\"Serpent OS "@ + version
        + " (fstx #"@ + number)
        + ")\"\nANSI_COLOR=\"1;35\"\nHOME_URL=\"https://serpentos.com\"\nBUG_REPORT_URL=\"https://github.com/serpent-os\""@
}

} // verus!
