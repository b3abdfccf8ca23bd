//! Recorded system states.

use crate::package;
use crate::text::decimal_text;
use vstd::prelude::*;

verus! {

/// Identifies a recorded state.
#[derive(Clone, Copy, Debug, PartialEq, Eq, Structural)]
pub struct Id(pub i64);

impl Id {
    /// The number of the state, which also names its tree among the archived ones.
    pub open spec fn spec_text(self) -> Seq<char> {
        crate::text::decimal(self.0 as int)
    }

    /// The number of the state, which also names its tree among the archived ones.
    pub fn text(&self) -> (text: String)
        ensures
            text@ == self.spec_text(),
    {
        decimal_text(self.0)
    }
}

/// Different states have their trees under different names.
pub proof fn archived_trees_have_their_own_names(a: Id, b: Id)
    requires
        a != b,
    ensures
        a.spec_text() != b.spec_text(),
{
    if a.spec_text() == b.spec_text() {
        crate::text::decimal_injective(a.0 as int, b.0 as int);
    }
}

/// A state is named by its number in decimal.
pub proof fn states_are_named_by_their_number(id: Id)
    ensures
        id.0 >= 0 ==> crate::text::read_back(id.spec_text(), 10) == id.0,
        id.0 > 0 ==> id.spec_text()[0] != '0',
        id.0 == 0 ==> id.spec_text() == seq!['0'],
        id.0 < 0 ==> id.spec_text()[0] == '-' && crate::text::read_back(
            id.spec_text().drop_first(),
            10,
        ) == -id.0,
{
    crate::text::decimal_reads_back(id.0 as int);
}

/// A package that belongs to a state.
#[derive(Debug, PartialEq, Eq)]
pub struct Selection {
    pub package: package::Id,
    /// Asked for by name, rather than pulled in by another package.
    pub explicit: bool,
    pub reason: Option<String>,
}

impl Clone for Selection {
    fn clone(&self) -> (selection: Self)
        ensures
            selection == *self,
    {
        Selection {
            package: self.package.clone(),
            explicit: self.explicit,
            reason: match &self.reason {
                Some(reason) => Some(reason.clone()),
                None => None,
            },
        }
    }
}

/// A recorded state: the selections that make it up.
#[derive(Debug, PartialEq, Eq)]
pub struct State {
    pub id: Id,
    pub selections: Vec<Selection>,
}

} // verus!
