//! The registry: the sources that packages are looked up in.

use crate::client::error::Error;
use crate::repository::{Manager, Repository};
use crate::state::{self, State};
use vstd::prelude::*;

verus! {

/// A source of packages.
#[derive(Debug, PartialEq, Eq)]
pub enum Plugin {
    /// Packages given as files.
    Cobble,
    /// The packages of the active state, if there is one.
    Active(Option<State>),
    Repository(Repository),
}

/// The sources that packages are looked up in, in the order in which they were added.
#[derive(Debug, PartialEq, Eq)]
pub struct Registry {
    pub plugins: Vec<Plugin>,
}

/// The plugins for an active state and the repositories in use.
pub open spec fn plugins(state: Option<State>, repositories: Seq<Repository>) -> Seq<Plugin> {
    seq![Plugin::Cobble, Plugin::Active(state)] + repositories.map_values(
        |repository: Repository| Plugin::Repository(repository),
    )
}

impl Default for Registry {
    fn default() -> (registry: Self)
        ensures
            registry.plugins@ == Seq::<Plugin>::empty(),
    {
        Registry { plugins: Vec::new() }
    }
}

impl Registry {
    /// Adds a source after those that are there.
    pub fn add_plugin(&mut self, plugin: Plugin)
        ensures
            final(self).plugins@ == old(self).plugins@.push(plugin),
    {
        self.plugins.push(plugin);
    }
}

/// Builds the registry of an installation with the active state given. `statedb` is what the
/// database of states answered for that state; where no state is active it need not be asked.
pub fn build_registry(
    active_state: Option<state::Id>,
    repositories: &Manager,
    statedb: Option<Result<State, String>>,
) -> (registry: Result<Registry, Error>)
    requires
        active_state is Some ==> statedb is Some,
    ensures
        active_state is None ==> registry is Ok && registry->Ok_0.plugins@ == plugins(
            None,
            repositories.active@,
        ),
        active_state is Some ==> match statedb->0 {
            Ok(state) => registry is Ok && registry->Ok_0.plugins@ == plugins(
                Some(state),
                repositories.active@,
            ),
            Err(cause) => registry == Err::<Registry, Error>(Error::Meta(cause)),
        },
{
    let state = match active_state {
        Some(_) => match statedb {
            Some(Ok(state)) => Some(state),
            Some(Err(cause)) => {
                return Err(Error::Meta(cause));
            },
            None => None,
        },
        None => None,
    };
    let ghost active = state;
    let mut registry = Registry::default();
    registry.add_plugin(Plugin::Cobble);
    registry.add_plugin(Plugin::Active(state));
    let mut i: usize = 0;
    while i < repositories.active.len()
        invariant
            i <= repositories.active@.len(),
            registry.plugins@ == plugins(active, repositories.active@).take(2 + i),
        decreases repositories.active@.len() - i,
    {
        registry.add_plugin(Plugin::Repository(repositories.active[i].clone()));
        i = i + 1;
        assert(registry.plugins@ =~= plugins(active, repositories.active@).take(2 + i));
    }
    assert(registry.plugins@ =~= plugins(active, repositories.active@));
    Ok(registry)
}

/// The registry looks in packages given as files first, then in the active state, then in each of
/// the repositories, in their order, and nowhere else.
pub proof fn every_source_has_its_place(state: Option<State>, repositories: Seq<Repository>)
    ensures
        plugins(state, repositories).len() == 2 + repositories.len(),
        plugins(state, repositories)[0] == Plugin::Cobble,
        plugins(state, repositories)[1] == Plugin::Active(state),
        forall|i: int|
            0 <= i < repositories.len() ==> plugins(state, repositories)[2 + i]
                == Plugin::Repository(#[trigger] repositories[i]),
{
}

} // verus!
