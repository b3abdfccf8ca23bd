//! The client: a connection to the package management systems of one root.

use self::cache::Caching;
use self::run::{Record, Run};
use self::setup::{plan_build, plan_initialize, plan_refresh};
use self::setup::{Call, CallReply, CallRequest, Calls};
use self::step::Step;
use crate::installation::Installation;
use crate::package::{self, Package};
use crate::registry::{build_registry, Registry};
use crate::repository::{Manager, Repository};
use crate::state;
use vstd::prelude::*;

pub mod blit;
pub mod cache;
pub mod error;
pub mod laws;
pub mod pending;
pub mod place;
pub mod resolve;
pub mod roots;
pub mod run;
pub mod scope;
pub mod setup;
pub mod step;
pub mod trees;

pub use self::error::Error;
pub use self::pending::PendingFile;
pub use self::scope::Scope;

verus! {

/// A client is a connection to the underlying package management systems.
#[derive(Debug)]
pub struct Client {
    pub name: String,
    /// The root that the client operates on.
    pub installation: Installation,
    pub registry: Registry,
    /// The repositories in use.
    pub repositories: Manager,
    pub scope: Scope,
}

/// A state that is being activated.
#[derive(Debug)]
pub struct Activation {
    pub run: Run,
    /// The state that was active, which gets archived.
    pub old: state::Id,
}

impl Activation {
    /// What an activation that is done led to: the error it failed with, or the state that was
    /// archived.
    pub fn finish(self) -> (outcome: Result<state::Id, Error>)
        requires
            self.run@.is_done(),
        ensures
            outcome == (match self.run@.failure {
                Some(error) => Err(error),
                None => Ok(self.old),
            }),
    {
        let old = self.old;
        match self.run.finish() {
            Ok(_) => Ok(old),
            Err(error) => Err(error),
        }
    }
}

/// A pruning of states that may go ahead.
#[derive(Debug, PartialEq, Eq)]
pub struct Pruning<S> {
    /// Which states go.
    pub strategy: S,
    /// Whether to go ahead without asking.
    pub yes: bool,
}

impl<S> Pruning<S> {
    /// What a pruning that went as `outcome` tells led to.
    pub fn finish(self, outcome: Result<(), String>) -> (pruned: Result<(), Error>)
        ensures
            pruned == (match outcome {
                Ok(()) => Ok(()),
                Err(cause) => Err(Error::Prune(cause)),
            }),
    {
        match outcome {
            Ok(()) => Ok(()),
            Err(cause) => Err(Error::Prune(cause)),
        }
    }
}

/// A client that is being opened.
#[derive(Debug)]
pub struct Opening {
    client: Client,
    calls: Calls,
}

impl View for Opening {
    type V = setup::CallProgress;

    closed spec fn view(&self) -> setup::CallProgress {
        self.calls@
    }
}

impl Opening {
    /// The client as far as it is open.
    pub closed spec fn spec_client(self) -> Client {
        self.client
    }

    /// The repositories that were given explicitly, if any were.
    pub open spec fn spec_repositories(self) -> Option<Seq<Repository>> {
        if self.spec_client().repositories.explicit {
            Some(self.spec_client().repositories.active@)
        } else {
            None
        }
    }

    /// The repositories that were given explicitly, if any were, for the call that sets them up.
    pub fn repositories(&self) -> (repositories: Option<&Vec<Repository>>)
        ensures
            match repositories {
                Some(given) => self.spec_repositories() == Some(given@),
                None => self.spec_repositories() is None,
            },
    {
        if self.client.repositories.is_explicit() {
            Some(&self.client.repositories.active)
        } else {
            None
        }
    }

    /// What is to be done next.
    pub fn request(&self) -> (request: CallRequest<'_>)
        ensures
            request == (match self@.failure {
                Some(error) => CallRequest::Failed(&error),
                None => if self@.pending.len() == 0 {
                    CallRequest::Finished
                } else {
                    CallRequest::Make(self@.pending[0])
                },
            }),
    {
        self.calls.request()
    }

    /// Tells how the open call went. A reply that does not answer the call changes nothing.
    pub fn reply(&mut self, reply: CallReply)
        ensures
            final(self)@ == old(self)@.next(reply),
            final(self).spec_client().sources() == (if old(self)@.is_done() {
                old(self).spec_client().sources()
            } else {
                old(self).spec_client().sources().absorbed(old(self)@.pending[0], reply)
            }),
            final(self).spec_client().name == old(self).spec_client().name,
            final(self).spec_client().installation == old(self).spec_client().installation,
            final(self).spec_client().scope == old(self).spec_client().scope,
            final(self).spec_repositories() == old(self).spec_repositories(),
    {
        assert(self.client.sources().explicit == self.client.repositories.explicit);
        self.calls.reply(&mut self.client, reply);
    }

    /// What the calls that open a client led to: the error of the one that failed, or the client.
    pub fn finish(self) -> (client: Result<Client, Error>)
        requires
            self@.is_done(),
        ensures
            client == (match self@.failure {
                Some(error) => Err(error),
                None => Ok(self.spec_client()),
            }),
    {
        match self.calls.finish() {
            Ok(()) => Ok(self.client),
            Err(error) => Err(error),
        }
    }
}

impl Client {
    /// The repositories in use and the registry that was built from them.
    pub open spec fn sources(self) -> setup::Sources {
        setup::Sources {
            explicit: self.repositories.explicit,
            repositories: self.repositories.active@,
            plugins: self.registry.plugins@,
        }
    }

    /// Opens a client with the repositories that the system's configuration lists.
    pub fn new(name: String, installation: Installation) -> (opening: Opening)
        ensures
            opening@ == setup::CallProgress::start(
                setup::build_calls(false, installation.active_state),
            ),
            unopened(opening.spec_client(), name, installation),
            opening.spec_repositories() is None,
            opening.spec_client().repositories.active@ == Seq::<Repository>::empty(),
    {
        Self::build(name, installation, None)
    }

    /// Opens a client with explicit repositories: exactly those given.
    pub fn with_explicit_repositories(
        name: String,
        installation: Installation,
        repositories: Vec<Repository>,
    ) -> (opening: Opening)
        ensures
            opening@ == setup::CallProgress::start(
                setup::build_calls(true, installation.active_state),
            ),
            unopened(opening.spec_client(), name, installation),
            opening.spec_repositories() == Some(repositories@),
    {
        Self::build(name, installation, Some(repositories))
    }

    fn build(
        name: String,
        installation: Installation,
        repositories: Option<Vec<Repository>>,
    ) -> (opening: Opening)
        ensures
            opening@ == setup::CallProgress::start(
                setup::build_calls(repositories is Some, installation.active_state),
            ),
            unopened(opening.spec_client(), name, installation),
            match repositories {
                Some(given) => opening.spec_repositories() == Some(given@),
                None => opening.spec_repositories() is None
                    && opening.spec_client().repositories.active@ == Seq::<Repository>::empty(),
            },
    {
        let explicit = repositories.is_some();
        let calls = Calls::new(plan_build(explicit, installation.active_state));
        let active = match repositories {
            Some(given) => given,
            None => Vec::new(),
        };
        let client = Client {
            name,
            installation,
            registry: Registry::default(),
            repositories: Manager { explicit, active },
            scope: Scope::Stateful,
        };
        Opening { client, calls }
    }

    /// Whether the client only fills another root.
    pub fn is_ephemeral(&self) -> (ephemeral: bool)
        ensures
            ephemeral == (self.scope is Ephemeral),
    {
        matches!(self.scope, Scope::Ephemeral { .. })
    }

    /// Turns the client into an ephemeral one, which doesn't record states and blits to a
    /// different root.
    ///
    /// The last two arguments are the canonical paths of `blit_root` and of the installation's
    /// root, or why there is none. That they are the same is an error: the client of a system is
    /// always stateful.
    pub fn ephemeral(
        self,
        blit_root: Vec<u8>,
        canonical_blit_root: Result<Vec<u8>, String>,
        canonical_root: Result<Vec<u8>, String>,
    ) -> (client: Result<Client, Error>)
        ensures
            match (canonical_blit_root, canonical_root) {
                (Err(cause), _) => client == Err::<Client, Error>(Error::Io(cause)),
                (Ok(_), Err(cause)) => client == Err::<Client, Error>(Error::Io(cause)),
                (Ok(blit), Ok(root)) => if blit@ == root@ {
                    client == Err::<Client, Error>(Error::EphemeralInstallationRoot)
                } else {
                    &&& client is Ok
                    &&& client->Ok_0.scope == (Scope::Ephemeral { blit_root })
                    &&& client->Ok_0.repositories == self.repositories
                    &&& client->Ok_0.name == self.name
                    &&& client->Ok_0.installation == self.installation
                    &&& client->Ok_0.registry == self.registry
                },
            },
    {
        let blit = match canonical_blit_root {
            Ok(path) => path,
            Err(cause) => {
                return Err(Error::Io(cause));
            },
        };
        let root = match canonical_root {
            Ok(path) => path,
            Err(cause) => {
                return Err(Error::Io(cause));
            },
        };
        if same_bytes(&blit, &root) {
            return Err(Error::EphemeralInstallationRoot);
        }
        Ok(
            Client {
                name: self.name,
                installation: self.installation,
                registry: self.registry,
                repositories: self.repositories,
                scope: Scope::Ephemeral { blit_root },
            },
        )
    }

    /// The calls that make sure that every repository has its index; they end in the number of
    /// indexes fetched.
    pub fn ensure_repos_initialized(&self) -> (calls: Calls)
        ensures
            calls@ == setup::CallProgress::start(
                setup::initialize_calls(self.installation.active_state),
            ),
    {
        Calls::new(plan_initialize(self.installation.active_state))
    }

    /// The calls that reload the repositories, unless they were given explicitly, fetch their
    /// indexes, and build the registry from them.
    pub fn refresh_repositories(&self) -> (calls: Calls)
        ensures
            calls@ == setup::CallProgress::start(
                setup::refresh_calls(self.repositories.explicit, self.installation.active_state),
            ),
    {
        Calls::new(
            plan_refresh(self.repositories.is_explicit(), self.installation.active_state),
        )
    }

    /// Takes up what came of a call that went well.
    fn absorb(&mut self, call: Call, reply: CallReply)
        requires
            setup::call_answered(call, reply),
            !(reply is Failed),
        ensures
            final(self).sources() == old(self).sources().absorbed(call, reply),
            final(self).name == old(self).name,
            final(self).installation == old(self).installation,
            final(self).scope == old(self).scope,
    {
        match (call, reply) {
            (_, CallReply::Repositories(active)) => {
                if !self.repositories.is_explicit() {
                    self.repositories = Manager { explicit: false, active };
                }
            },
            (Call::BuildRegistry(active), reply) => {
                let statedb = match reply {
                    CallReply::State(state) => Some(Ok(state)),
                    _ => None,
                };
                if let Ok(registry) = build_registry(active, &self.repositories, statedb) {
                    self.registry = registry;
                }
            },
            _ => {},
        }
    }

    /// Lets states be pruned, unless the client is ephemeral.
    pub fn prune<S>(&self, strategy: S, yes: bool) -> (pruning: Result<Pruning<S>, Error>)
        ensures
            pruning == (if self.scope is Ephemeral {
                Err(Error::EphemeralProhibitedOperation)
            } else {
                Ok(Pruning { strategy, yes })
            }),
    {
        if self.scope.is_ephemeral() {
            return Err(Error::EphemeralProhibitedOperation);
        }
        Ok(Pruning { strategy, yes })
    }

    /// Takes the first package that the registry found for each id, sorted by name and deduped.
    pub fn resolve_packages(lookups: &Vec<(package::Id, Option<Package>)>) -> (packages: Result<
        Vec<Package>,
        Error,
    >)
        ensures
            resolve::resolved(lookups@, packages),
    {
        resolve::resolve(lookups)
    }

    /// Activates a state, and runs system triggers once it is live. `fetched` is what the
    /// database of states holds under `id`. The current state gets archived.
    pub fn activate_state(&self, id: state::Id, fetched: Option<state::State>) -> (activation:
        Result<Activation, Error>)
        ensures
            match (fetched, self.installation.active_state) {
                (None, _) => activation == Err::<Activation, Error>(Error::StateDoesntExist(id)),
                (Some(_), None) => activation == Err::<Activation, Error>(Error::NoActiveState),
                (Some(new), Some(old)) => if new.id == old {
                    activation == Err::<Activation, Error>(Error::StateAlreadyActive(id))
                } else {
                    &&& activation is Ok
                    &&& activation->Ok_0.old == old
                    &&& activation->Ok_0.run@ == run::Progress::start(
                        step::activate_script(self.scope is Ephemeral, new.id, old),
                    )
                    &&& activation->Ok_0.run.spec_packages() == selected(new.selections@)
                    &&& activation->Ok_0.run.spec_packages().len() == new.selections@.len()
                    &&& forall|i: int|
                        0 <= i < new.selections@.len()
                            ==> activation->Ok_0.run.spec_packages()[i]
                            == (#[trigger] new.selections@[i]).package
                    &&& activation->Ok_0.run.spec_record() is None
                },
            },
    {
        let new = match fetched {
            Some(state) => state,
            None => {
                return Err(Error::StateDoesntExist(id));
            },
        };
        let old = match self.installation.active_state {
            Some(id) => id,
            None => {
                return Err(Error::NoActiveState);
            },
        };
        if new.id == old {
            return Err(Error::StateAlreadyActive(id));
        }
        let steps = step::activate(self.scope.is_ephemeral(), new.id, old);
        let run = Run::new(steps, selected_packages(&new.selections), None);
        Ok(Activation { run, old })
    }

    /// Records the selected packages as a new state, blits them, makes their tree live, and
    /// archives the active state. An ephemeral client only blits them.
    pub fn new_state(&self, selections: Vec<state::Selection>, summary: String) -> (run: Run)
        ensures
            run@ == run::Progress::start(
                match self.scope {
                    Scope::Stateful => step::stateful_script(self.installation.active_state),
                    Scope::Ephemeral { .. } => step::ephemeral_script(),
                },
            ),
            run.spec_packages() == selected(selections@),
            run.spec_packages().len() == selections@.len(),
            forall|i: int|
                0 <= i < selections@.len() ==> run.spec_packages()[i] == (
                #[trigger] selections@[i]).package,
            run.spec_record() == Some(Record { selections, summary }),
    {
        let steps = match &self.scope {
            Scope::Stateful => step::stateful(self.installation.active_state),
            Scope::Ephemeral { .. } => step::ephemeral(),
        };
        let packages = selected_packages(&selections);
        Run::new(steps, packages, Some(Record { selections, summary }))
    }

    /// Starts caching each of the packages. Packages already cached are validated and skipped.
    pub fn cache_packages(&self, packages: &Vec<Package>) -> (caching: Vec<Caching>)
        ensures
            caching@.len() == packages@.len(),
            forall|i: int|
                0 <= i < packages@.len() ==> (#[trigger] caching@[i])@
                    == cache::CacheProgress::start() && caching@[i].spec_package() == packages@[i],
    {
        let mut caching: Vec<Caching> = Vec::new();
        let mut i: usize = 0;
        while i < packages.len()
            invariant
                i <= packages@.len(),
                caching@.len() == i,
                forall|j: int|
                    0 <= j < i ==> (#[trigger] caching@[j])@ == cache::CacheProgress::start()
                        && caching@[j].spec_package() == packages@[j],
            decreases packages@.len() - i,
        {
            caching.push(Caching::new(packages[i].clone()));
            i = i + 1;
        }
        caching
    }

    /// Builds a tree of the packages' files.
    pub fn vfs(&self, packages: Vec<package::Id>) -> (run: Run)
        ensures
            run@ == run::Progress::start(seq![Step::Do(step::Action::QueryLayouts(None))]),
            run.spec_packages() == packages@,
            run.spec_record() is None,
    {
        let mut steps: Vec<Step> = Vec::new();
        steps.push(Step::Do(step::Action::QueryLayouts(None)));
        Run::new(steps, packages, None)
    }

    /// Makes the staged `/usr` the live one.
    pub fn promote_staging(&self) -> (steps: Vec<Step>)
        ensures
            steps@ == step::promote_script(self.scope is Ephemeral),
    {
        step::promote(self.scope.is_ephemeral())
    }

    /// Moves the `/usr` that promotion left in staging to the tree of the state.
    pub fn archive_state(&self, id: state::Id) -> (steps: Vec<Step>)
        ensures
            steps@ == step::archive_script(self.scope is Ephemeral, id),
    {
        step::archive(self.scope.is_ephemeral(), id)
    }
}

/// Whether `client` is a stateful one without a registry yet.
pub open spec fn unopened(client: Client, name: String, installation: Installation) -> bool {
    &&& client.name == name
    &&& client.installation == installation
    &&& client.scope is Stateful
    &&& client.registry.plugins@ == Seq::<crate::registry::Plugin>::empty()
}

/// The packages of selections, in order.
pub open spec fn selected(selections: Seq<state::Selection>) -> Seq<package::Id> {
    selections.map_values(|selection: state::Selection| selection.package)
}

/// Every selection counts, in its place: whether its package was asked for by name or pulled in,
/// and for whatever reason.
pub proof fn every_selection_counts(selections: Seq<state::Selection>)
    ensures
        selected(selections).len() == selections.len(),
        forall|i: int|
            0 <= i < selections.len() ==> selected(selections)[i] == (
            #[trigger] selections[i]).package,
{
}

fn selected_packages(selections: &Vec<state::Selection>) -> (packages: Vec<package::Id>)
    ensures
        packages@ == selected(selections@),
{
    let mut packages: Vec<package::Id> = Vec::new();
    let mut i: usize = 0;
    while i < selections.len()
        invariant
            i <= selections@.len(),
            packages@ == selected(selections@).take(i as int),
        decreases selections@.len() - i,
    {
        packages.push(selections[i].package.clone());
        i = i + 1;
        assert(packages@ =~= selected(selections@).take(i as int));
    }
    assert(packages@ =~= selected(selections@));
    packages
}

fn same_bytes(a: &Vec<u8>, b: &Vec<u8>) -> (same: bool)
    ensures
        same == (a@ == b@),
{
    if a.len() != b.len() {
        return false;
    }
    let mut i: usize = 0;
    while i < a.len()
        invariant
            a@.len() == b@.len(),
            i <= a@.len(),
            forall|j: int| 0 <= j < i ==> a@[j] == b@[j],
        decreases a@.len() - i,
    {
        if a[i] != b[i] {
            return false;
        }
        i = i + 1;
    }
    assert(a@ =~= b@);
    true
}

} // verus!
