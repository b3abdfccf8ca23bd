//! Setting a client up, and keeping its repositories up to date.

use super::error::Error;
use super::Client;
use crate::registry::Plugin;
use crate::repository::Repository;
use crate::state;
use vstd::prelude::*;

verus! {

/// A database of the installation.
#[derive(Clone, Copy, Debug, PartialEq, Eq, Structural)]
pub enum Database {
    /// What is known of installed packages.
    Install,
    /// The recorded states.
    State,
    /// What packages put on the filesystem.
    Layout,
}

impl Database {
    /// The name of the file that holds the database.
    pub open spec fn spec_name(self) -> Seq<char> {
        match self {
            Database::Install => "install"@,
            Database::State => "state"@,
            Database::Layout => "layout"@,
        }
    }

    /// The name of the file that holds the database.
    pub fn name(&self) -> (name: &'static str)
        ensures
            name@ == self.spec_name(),
    {
        match self {
            Database::Install => "install",
            Database::State => "state",
            Database::Layout => "layout",
        }
    }
}

/// A call that sets a client up.
#[derive(Clone, Copy, Debug, PartialEq, Eq, Structural)]
pub enum Call {
    /// Load the configuration of the system. This does not fail.
    LoadConfig,
    OpenDatabase(Database),
    /// Set up the repositories that were given.
    ExplicitRepositories,
    /// Take the repositories that the configuration lists.
    SystemRepositories,
    /// Fetch the index of every repository that has none yet.
    InitializeRepositories,
    /// Fetch the index of every repository.
    RefreshRepositories,
    /// Build the registry anew, for which the active state is asked for, if there is one.
    BuildRegistry(Option<state::Id>),
}

/// What came of a call.
#[derive(Debug, PartialEq, Eq)]
pub enum CallReply {
    /// It is done.
    Done,
    /// The repositories in use.
    Repositories(Vec<Repository>),
    /// How many indexes were fetched.
    Count(usize),
    /// The state that was asked for.
    State(state::State),
    /// It failed, for the reason given.
    Failed(String),
}

/// The name under which the configuration is found.
pub fn config_name() -> (name: &'static str)
    ensures
        name@ == "moss"@,
{
    "moss"
}

/// The calls that open a client, in order.
pub open spec fn build_calls(explicit: bool, active: Option<state::Id>) -> Seq<Call> {
    seq![
        Call::LoadConfig,
        Call::OpenDatabase(Database::Install),
        Call::OpenDatabase(Database::State),
        Call::OpenDatabase(Database::Layout),
        if explicit {
            Call::ExplicitRepositories
        } else {
            Call::SystemRepositories
        },
        Call::BuildRegistry(active),
    ]
}

/// The calls that reload the repositories and fetch their indexes. Those given explicitly are
/// not reloaded: the configuration does not list them.
pub open spec fn refresh_calls(explicit: bool, active: Option<state::Id>) -> Seq<Call> {
    if explicit {
        seq![Call::RefreshRepositories, Call::BuildRegistry(active)]
    } else {
        seq![Call::SystemRepositories, Call::RefreshRepositories, Call::BuildRegistry(active)]
    }
}

/// The calls that fetch the indexes that are missing.
pub open spec fn initialize_calls(active: Option<state::Id>) -> Seq<Call> {
    seq![Call::InitializeRepositories, Call::BuildRegistry(active)]
}

/// The calls that open a client, in order.
pub fn plan_build(explicit: bool, active: Option<state::Id>) -> (calls: Vec<Call>)
    ensures
        calls@ == build_calls(explicit, active),
{
    let mut calls: Vec<Call> = Vec::new();
    calls.push(Call::LoadConfig);
    calls.push(Call::OpenDatabase(Database::Install));
    calls.push(Call::OpenDatabase(Database::State));
    calls.push(Call::OpenDatabase(Database::Layout));
    if explicit {
        calls.push(Call::ExplicitRepositories);
    } else {
        calls.push(Call::SystemRepositories);
    }
    calls.push(Call::BuildRegistry(active));
    calls
}

/// The calls that reload the repositories and fetch their indexes.
pub fn plan_refresh(explicit: bool, active: Option<state::Id>) -> (calls: Vec<Call>)
    ensures
        calls@ == refresh_calls(explicit, active),
{
    let mut calls: Vec<Call> = Vec::new();
    if !explicit {
        calls.push(Call::SystemRepositories);
    }
    calls.push(Call::RefreshRepositories);
    calls.push(Call::BuildRegistry(active));
    calls
}

/// The calls that fetch the indexes that are missing.
pub fn plan_initialize(active: Option<state::Id>) -> (calls: Vec<Call>)
    ensures
        calls@ == initialize_calls(active),
{
    let mut calls: Vec<Call> = Vec::new();
    calls.push(Call::InitializeRepositories);
    calls.push(Call::BuildRegistry(active));
    calls
}

/// The error that a failed call leads to.
pub open spec fn call_failure(call: Call, cause: String) -> Error {
    match call {
        Call::ExplicitRepositories
        | Call::SystemRepositories
        | Call::InitializeRepositories
        | Call::RefreshRepositories => Error::Repository(cause),
        Call::LoadConfig | Call::OpenDatabase(_) | Call::BuildRegistry(_) => Error::Meta(cause),
    }
}

/// The error that a failed call leads to.
fn call_error(call: Call, cause: String) -> (error: Error)
    ensures
        error == call_failure(call, cause),
{
    match call {
        Call::ExplicitRepositories
        | Call::SystemRepositories
        | Call::InitializeRepositories
        | Call::RefreshRepositories => Error::Repository(cause),
        Call::LoadConfig | Call::OpenDatabase(_) | Call::BuildRegistry(_) => Error::Meta(cause),
    }
}

/// Whether `reply` tells how the call went. Loading the configuration does not fail.
pub open spec fn call_answered(call: Call, reply: CallReply) -> bool {
    match (call, reply) {
        (Call::LoadConfig, CallReply::Failed(_)) => false,
        (_, CallReply::Failed(_)) => true,
        (
            Call::LoadConfig
            | Call::OpenDatabase(_)
            | Call::ExplicitRepositories
            | Call::RefreshRepositories,
            _,
        ) => reply is Done,
        (Call::SystemRepositories, _) => reply is Repositories,
        (Call::InitializeRepositories, _) => reply is Count,
        (Call::BuildRegistry(Some(_)), _) => reply is State,
        (Call::BuildRegistry(None), _) => reply is Done,
    }
}

/// Whether `reply` tells how the call went.
pub fn is_call_answer(call: Call, reply: &CallReply) -> (fits: bool)
    ensures
        fits == call_answered(call, *reply),
{
    match (call, reply) {
        (Call::LoadConfig, CallReply::Failed(_)) => false,
        (_, CallReply::Failed(_)) => true,
        (
            Call::LoadConfig
            | Call::OpenDatabase(_)
            | Call::ExplicitRepositories
            | Call::RefreshRepositories,
            _,
        ) => matches!(reply, CallReply::Done),
        (Call::SystemRepositories, _) => matches!(reply, CallReply::Repositories(_)),
        (Call::InitializeRepositories, _) => matches!(reply, CallReply::Count(_)),
        (Call::BuildRegistry(Some(_)), _) => matches!(reply, CallReply::State(_)),
        (Call::BuildRegistry(None), _) => matches!(reply, CallReply::Done),
    }
}

/// The repositories of a client and the sources of packages in its registry.
pub struct Sources {
    pub explicit: bool,
    pub repositories: Seq<Repository>,
    pub plugins: Seq<Plugin>,
}

impl Sources {
    /// What a call that was answered with `reply` makes of them. Repositories are replaced as
    /// soon as they are there, unless they were given explicitly, and the registry only once it
    /// could be built; a call that failed changes nothing.
    pub open spec fn absorbed(self, call: Call, reply: CallReply) -> Sources {
        match (call, reply) {
            (Call::SystemRepositories, CallReply::Repositories(repositories)) => if self.explicit {
                self
            } else {
                Sources { repositories: repositories@, ..self }
            },
            (Call::BuildRegistry(Some(_)), CallReply::State(state)) => Sources {
                plugins: crate::registry::plugins(Some(state), self.repositories),
                ..self
            },
            (Call::BuildRegistry(None), CallReply::Done) => Sources {
                plugins: crate::registry::plugins(None, self.repositories),
                ..self
            },
            _ => self,
        }
    }

    /// What calls that are answered with `replies`, one after the other, make of them.
    pub open spec fn absorbed_all(self, calls: Seq<Call>, replies: Seq<CallReply>) -> Sources
        decreases replies.len(),
    {
        if replies.len() == 0 {
            self
        } else {
            let before = CallProgress::course(calls, replies.drop_last());
            let sources = self.absorbed_all(calls, replies.drop_last());
            if before.is_done() {
                sources
            } else {
                sources.absorbed(before.pending[0], replies.last())
            }
        }
    }
}

/// How far calls have been made.
pub struct CallProgress {
    /// The calls that are left.
    pub pending: Seq<Call>,
    /// How many indexes were fetched.
    pub fetched: usize,
    /// The error of the call that failed, if one did.
    pub failure: Option<Error>,
}

impl CallProgress {
    /// Calls before the first is made.
    pub open spec fn start(calls: Seq<Call>) -> CallProgress {
        CallProgress { pending: calls, fetched: 0, failure: None }
    }

    /// Whether no call is left to make.
    pub open spec fn is_done(self) -> bool {
        self.failure is Some || self.pending.len() == 0
    }

    /// After the call at the head was answered with `reply`. The first call that fails is the
    /// last that is made. A reply that does not answer the call changes nothing.
    pub open spec fn next(self, reply: CallReply) -> CallProgress {
        if self.is_done() || !call_answered(self.pending[0], reply) {
            self
        } else {
            match reply {
                CallReply::Failed(cause) => CallProgress {
                    pending: seq![],
                    failure: Some(call_failure(self.pending[0], cause)),
                    ..self
                },
                CallReply::Count(count) => CallProgress {
                    pending: self.pending.skip(1),
                    fetched: count,
                    ..self
                },
                _ => CallProgress { pending: self.pending.skip(1), ..self },
            }
        }
    }

    /// How far calls are after they were given `replies`.
    pub open spec fn course(calls: Seq<Call>, replies: Seq<CallReply>) -> CallProgress
        decreases replies.len(),
    {
        if replies.len() == 0 {
            CallProgress::start(calls)
        } else {
            CallProgress::course(calls, replies.drop_last()).next(replies.last())
        }
    }
}

/// Calls that are made one after the other, up to the first that fails.
#[derive(Debug)]
pub struct Calls {
    /// The calls that are left, the next one last.
    rest: Vec<Call>,
    fetched: usize,
    failure: Option<Error>,
}

/// What is to be done next.
#[derive(Debug)]
pub enum CallRequest<'a> {
    /// Make this call.
    Make(Call),
    /// Nothing: all calls were made.
    Finished,
    /// Nothing: a call failed.
    Failed(&'a Error),
}

impl View for Calls {
    type V = CallProgress;

    closed spec fn view(&self) -> CallProgress {
        CallProgress {
            pending: self.rest@.reverse(),
            fetched: self.fetched,
            failure: self.failure,
        }
    }
}

impl Calls {
    /// Calls before the first is made.
    pub fn new(calls: Vec<Call>) -> (made: Calls)
        ensures
            made@ == CallProgress::start(calls@),
    {
        let mut rest: Vec<Call> = Vec::new();
        let mut i: usize = calls.len();
        while i > 0
            invariant
                i <= calls@.len(),
                rest@ == calls@.reverse().take(calls@.len() - i),
            decreases i,
        {
            i = i - 1;
            rest.push(calls[i]);
            assert(rest@ =~= calls@.reverse().take(calls@.len() - i));
        }
        let made = Calls { rest, fetched: 0, failure: None };
        assert(made@.pending =~= calls@);
        made
    }

    /// What is to be done next.
    pub fn request(&self) -> (request: CallRequest<'_>)
        ensures
            request == (match self@.failure {
                Some(error) => CallRequest::Failed(&error),
                None => if self@.pending.len() == 0 {
                    CallRequest::Finished
                } else {
                    CallRequest::Make(self@.pending[0])
                },
            }),
    {
        if let Some(error) = &self.failure {
            return CallRequest::Failed(error);
        }
        if self.rest.len() == 0 {
            return CallRequest::Finished;
        }
        CallRequest::Make(self.rest[self.rest.len() - 1])
    }

    /// Tells how the open call went, and takes up in `client` what came of it. A reply that does
    /// not answer the call changes nothing.
    pub fn reply(&mut self, client: &mut Client, reply: CallReply)
        ensures
            final(self)@ == old(self)@.next(reply),
            final(client).sources() == (if old(self)@.is_done() {
                old(client).sources()
            } else {
                old(client).sources().absorbed(old(self)@.pending[0], reply)
            }),
            final(client).name == old(client).name,
            final(client).installation == old(client).installation,
            final(client).scope == old(client).scope,
    {
        if self.failure.is_some() || self.rest.len() == 0 {
            return;
        }
        let ghost before = self@;
        let call = self.rest[self.rest.len() - 1];
        assert(call == before.pending[0]);
        if !is_call_answer(call, &reply) {
            return;
        }
        let _ = self.rest.pop();
        assert(self@.pending =~= before.pending.skip(1));
        match reply {
            CallReply::Failed(cause) => {
                self.rest = Vec::new();
                self.failure = Some(call_error(call, cause));
                assert(self@.pending =~= seq![]);
            },
            CallReply::Count(count) => {
                self.fetched = count;
            },
            reply => {
                client.absorb(call, reply);
            },
        }
    }

    /// What calls that were made led to: the error of the one that failed, if one did.
    pub fn finish(self) -> (outcome: Result<(), Error>)
        requires
            self@.is_done(),
        ensures
            outcome == (match self@.failure {
                Some(error) => Err(error),
                None => Ok(()),
            }),
    {
        match self.failure {
            Some(error) => Err(error),
            None => Ok(()),
        }
    }

    /// What calls that were made led to: the error of the one that failed, or else the number of
    /// indexes fetched.
    pub fn finish_count(self) -> (outcome: Result<usize, Error>)
        requires
            self@.is_done(),
        ensures
            outcome == (match self@.failure {
                Some(error) => Err(error),
                None => Ok(self@.fetched),
            }),
    {
        match self.failure {
            Some(error) => Err(error),
            None => Ok(self.fetched),
        }
    }
}

// ---------------------------------------------------------------------------
// What holds of the calls of a client
// ---------------------------------------------------------------------------

/// Repositories that were given explicitly stay through all calls, however they go: a client
/// opened with them is a client over exactly these, and a refresh keeps them.
pub proof fn explicit_repositories_stay(
    sources: Sources,
    calls: Seq<Call>,
    replies: Seq<CallReply>,
)
    requires
        sources.explicit,
    ensures
        sources.absorbed_all(calls, replies).explicit,
        sources.absorbed_all(calls, replies).repositories == sources.repositories,
    decreases replies.len(),
{
    if replies.len() > 0 {
        explicit_repositories_stay(sources, calls, replies.drop_last());
    }
}

/// Whether the registry is what the active state, loaded in the course of `replies` if there is
/// one, and the repositories make it.
pub open spec fn built(
    sources: Sources,
    replies: Seq<CallReply>,
    active: Option<state::Id>,
) -> bool {
    match active {
        None => sources.plugins == crate::registry::plugins(None, sources.repositories),
        Some(_) => exists|i: int|
            0 <= i < replies.len() && built_from(sources, #[trigger] replies[i]),
    }
}

/// Whether the registry is what the state of `reply` and the repositories make it.
pub open spec fn built_from(sources: Sources, reply: CallReply) -> bool {
    reply matches CallReply::State(state) && sources.plugins == crate::registry::plugins(
        Some(state),
        sources.repositories,
    )
}

/// Whether the repositories are those that one of `replies` gave.
pub open spec fn loaded(sources: Sources, replies: Seq<CallReply>) -> bool {
    exists|i: int| 0 <= i < replies.len() && loaded_from(sources, #[trigger] replies[i])
}

/// Whether the repositories are those that `reply` gave.
pub open spec fn loaded_from(sources: Sources, reply: CallReply) -> bool {
    reply matches CallReply::Repositories(repositories) && repositories@ == sources.repositories
}

/// A client that could be opened has the repositories that were given for it or, where none
/// were, those that were loaded, and a registry built from them and the active state.
pub proof fn opening_builds_from_the_repositories(
    sources: Sources,
    replies: Seq<CallReply>,
    active: Option<state::Id>,
)
    requires
        ({
            let run = CallProgress::course(build_calls(sources.explicit, active), replies);
            run.is_done() && run.failure is None
        }),
    ensures
        ({
            let after = sources.absorbed_all(build_calls(sources.explicit, active), replies);
            &&& built(after, replies, active)
            &&& if sources.explicit {
                after.repositories == sources.repositories
            } else {
                loaded(after, replies)
            }
        }),
{
    lemma_build_last(sources, build_calls(sources.explicit, active), replies, active);
    if sources.explicit {
        explicit_repositories_stay(sources, build_calls(true, active), replies);
    } else {
        lemma_loaded(sources, build_calls(false, active), replies, 4);
    }
}

/// A refresh that goes well leaves a registry that is built from the active state and from the
/// repositories then in use; where they are not explicit, they are those that were reloaded.
pub proof fn refresh_builds_from_the_repositories(
    sources: Sources,
    replies: Seq<CallReply>,
    active: Option<state::Id>,
)
    requires
        ({
            let run = CallProgress::course(refresh_calls(sources.explicit, active), replies);
            run.is_done() && run.failure is None
        }),
    ensures
        ({
            let after = sources.absorbed_all(refresh_calls(sources.explicit, active), replies);
            &&& built(after, replies, active)
            &&& if sources.explicit {
                after.repositories == sources.repositories
            } else {
                loaded(after, replies)
            }
        }),
{
    lemma_build_last(sources, refresh_calls(sources.explicit, active), replies, active);
    if sources.explicit {
        explicit_repositories_stay(sources, refresh_calls(true, active), replies);
    } else {
        lemma_loaded(sources, refresh_calls(false, active), replies, 0);
    }
}

/// Where a call of a refresh fails, the registry stays as it was.
pub proof fn failed_refresh_keeps_the_registry(
    sources: Sources,
    explicit: bool,
    replies: Seq<CallReply>,
    active: Option<state::Id>,
)
    requires
        CallProgress::course(refresh_calls(explicit, active), replies).failure is Some,
    ensures
        sources.absorbed_all(refresh_calls(explicit, active), replies).plugins == sources.plugins,
{
    lemma_build_last(sources, refresh_calls(explicit, active), replies, active);
}

/// Initializing repositories reloads none. Where it goes well, the registry is built anew, even
/// if no index was missing, and the count is the one that the initialization reported; where it
/// fails, the registry stays as it was.
pub proof fn initializing_counts_what_was_fetched(
    sources: Sources,
    replies: Seq<CallReply>,
    active: Option<state::Id>,
)
    ensures
        ({
            let calls = initialize_calls(active);
            let run = CallProgress::course(calls, replies);
            let after = sources.absorbed_all(calls, replies);
            &&& after.repositories == sources.repositories
            &&& run.failure is Some ==> after.plugins == sources.plugins
            &&& run.is_done() && run.failure is None ==> {
                &&& replies.contains(CallReply::Count(run.fetched))
                &&& built(after, replies, active)
            }
        }),
{
    lemma_repositories_stay(sources, initialize_calls(active), replies);
    lemma_build_last(sources, initialize_calls(active), replies, active);
    lemma_counted(replies, active);
}

/// The calls that are left are the last of those that were to be made.
proof fn lemma_calls_left(calls: Seq<Call>, replies: Seq<CallReply>)
    ensures
        ({
            let run = CallProgress::course(calls, replies);
            &&& run.pending.len() <= calls.len()
            &&& run.failure is None ==> run.pending == calls.skip(calls.len() - run.pending.len())
            &&& run.failure is Some ==> run.pending.len() == 0
        }),
    decreases replies.len(),
{
    if replies.len() == 0 {
        assert(calls.skip(0) =~= calls);
    } else {
        lemma_calls_left(calls, replies.drop_last());
        let before = CallProgress::course(calls, replies.drop_last());
        let made = calls.len() - before.pending.len();
        if !before.is_done() {
            assert(calls.skip(made).skip(1) =~= calls.skip(made + 1));
        }
    }
}

/// Calls that load no repositories leave those that are in use.
proof fn lemma_repositories_stay(sources: Sources, calls: Seq<Call>, replies: Seq<CallReply>)
    requires
        forall|i: int|
            0 <= i < calls.len() ==> !((#[trigger] calls[i]) is SystemRepositories),
    ensures
        sources.absorbed_all(calls, replies).repositories == sources.repositories,
    decreases replies.len(),
{
    if replies.len() > 0 {
        lemma_repositories_stay(sources, calls, replies.drop_last());
        lemma_calls_left(calls, replies.drop_last());
        let before = CallProgress::course(calls, replies.drop_last());
        if !before.is_done() {
            assert(before.pending[0] == calls[calls.len() - before.pending.len()]);
        }
    }
}

/// Where building the registry is the last call, the registry is built once all calls went well,
/// and stays as it was until then.
proof fn lemma_build_last(
    sources: Sources,
    calls: Seq<Call>,
    replies: Seq<CallReply>,
    active: Option<state::Id>,
)
    requires
        calls.len() > 0,
        calls.last() == Call::BuildRegistry(active),
        forall|i: int| 0 <= i < calls.len() - 1 ==> !((#[trigger] calls[i]) is BuildRegistry),
    ensures
        ({
            let run = CallProgress::course(calls, replies);
            let after = sources.absorbed_all(calls, replies);
            if run.failure is None && run.pending.len() == 0 {
                built(after, replies, active)
            } else {
                after.plugins == sources.plugins
            }
        }),
    decreases replies.len(),
{
    if replies.len() > 0 {
        let earlier = replies.drop_last();
        lemma_build_last(sources, calls, earlier, active);
        lemma_calls_left(calls, earlier);
        let before = CallProgress::course(calls, earlier);
        let then = sources.absorbed_all(calls, earlier);
        assert(replies[replies.len() - 1] == replies.last());
        if !before.is_done() {
            assert(before.pending[0] == calls[calls.len() - before.pending.len()]);
        } else if before.failure is None && active is Some {
            let i = choose|i: int|
                0 <= i < earlier.len() && built_from(then, #[trigger] earlier[i]);
            assert(replies[i] == earlier[i]);
        }
    }
}

/// Once the only call that loads repositories went well, those in use are what it loaded.
proof fn lemma_loaded(sources: Sources, calls: Seq<Call>, replies: Seq<CallReply>, k: int)
    requires
        0 <= k < calls.len(),
        !sources.explicit,
        calls[k] is SystemRepositories,
        forall|i: int|
            0 <= i < calls.len() && i != k ==> !((#[trigger] calls[i]) is SystemRepositories),
    ensures
        ({
            let run = CallProgress::course(calls, replies);
            &&& !sources.absorbed_all(calls, replies).explicit
            &&& run.failure is None && run.pending.len() < calls.len() - k ==> loaded(
                sources.absorbed_all(calls, replies),
                replies,
            )
        }),
    decreases replies.len(),
{
    if replies.len() > 0 {
        let earlier = replies.drop_last();
        lemma_loaded(sources, calls, earlier, k);
        lemma_calls_left(calls, earlier);
        let before = CallProgress::course(calls, earlier);
        let then = sources.absorbed_all(calls, earlier);
        assert(replies[replies.len() - 1] == replies.last());
        if !before.is_done() {
            assert(before.pending[0] == calls[calls.len() - before.pending.len()]);
        }
        if before.failure is None && before.pending.len() < calls.len() - k {
            let i = choose|i: int|
                0 <= i < earlier.len() && loaded_from(then, #[trigger] earlier[i]);
            assert(replies[i] == earlier[i]);
        }
    }
}

/// Once repositories are initialized, the count is the one that was reported.
proof fn lemma_counted(replies: Seq<CallReply>, active: Option<state::Id>)
    ensures
        ({
            let run = CallProgress::course(initialize_calls(active), replies);
            run.failure is None && run.pending.len() < 2 ==> replies.contains(
                CallReply::Count(run.fetched),
            )
        }),
    decreases replies.len(),
{
    if replies.len() > 0 {
        let earlier = replies.drop_last();
        lemma_counted(earlier, active);
        lemma_calls_left(initialize_calls(active), earlier);
        let before = CallProgress::course(initialize_calls(active), earlier);
        assert(replies[replies.len() - 1] == replies.last());
        if before.failure is None && before.pending.len() < 2 {
            let i = choose|i: int|
                0 <= i < earlier.len() && earlier[i] == CallReply::Count(before.fetched);
            assert(replies[i] == CallReply::Count(before.fetched));
        }
    }
}

// ---------------------------------------------------------------------------
// What holds of each call
// ---------------------------------------------------------------------------

/// A client is opened by loading the configuration, opening each database once, setting up the
/// repositories once, and then building the registry for the active state; nothing else is
/// called.
pub proof fn opening_opens_every_database(
    explicit: bool,
    active: Option<state::Id>,
    database: Database,
)
    ensures
        ({
            let calls = build_calls(explicit, active);
            &&& calls.len() == 6
            &&& calls[0] is LoadConfig
            &&& exists|i: int| 1 <= i < 4 && #[trigger] calls[i] == Call::OpenDatabase(database)
            &&& explicit ==> calls[4] is ExplicitRepositories
            &&& !explicit ==> calls[4] is SystemRepositories
            &&& calls[5] == Call::BuildRegistry(active)
        }),
{
    let calls = build_calls(explicit, active);
    match database {
        Database::Install => assert(calls[1] == Call::OpenDatabase(database)),
        Database::State => assert(calls[2] == Call::OpenDatabase(database)),
        Database::Layout => assert(calls[3] == Call::OpenDatabase(database)),
    }
}

/// A refresh fetches the index of every repository, after it reloaded those that were not given
/// explicitly; an initialization fetches those that are missing. Either builds the registry for
/// the active state last, and does nothing else.
pub proof fn indexes_are_fetched_before_the_registry_is_built(
    explicit: bool,
    active: Option<state::Id>,
)
    ensures
        ({
            let calls = refresh_calls(explicit, active);
            &&& calls.len() == (if explicit {
                2int
            } else {
                3
            })
            &&& !explicit ==> calls[0] is SystemRepositories
            &&& calls[calls.len() - 2] is RefreshRepositories
            &&& calls.last() == Call::BuildRegistry(active)
        }),
        initialize_calls(active).len() == 2,
        initialize_calls(active)[0] is InitializeRepositories,
        initialize_calls(active)[1] == Call::BuildRegistry(active),
{
}

/// A call that fails ends the calls with its cause: a failure of the repositories for a call
/// that works on them, and one of the databases for any other. Loading the configuration does
/// not fail.
pub proof fn failed_calls_tell_their_cause(progress: CallProgress, cause: String)
    requires
        progress.failure is None,
        progress.pending.len() > 0,
    ensures
        ({
            let call = progress.pending[0];
            let next = progress.next(CallReply::Failed(cause));
            &&& call is LoadConfig <==> next.failure is None
            &&& call is LoadConfig ==> next == progress
            &&& next.failure == Some(Error::Repository(cause)) <==> call is ExplicitRepositories
                || call is SystemRepositories || call is InitializeRepositories
                || call is RefreshRepositories
            &&& next.failure == Some(Error::Meta(cause)) <==> call is OpenDatabase
                || call is BuildRegistry
            &&& next.failure is Some ==> next.pending.len() == 0 && next.fetched
                == progress.fetched
        }),
{
}

/// A call that is answered makes way for the next. Each kind of answer fits certain calls: a
/// list of repositories the loading of them, a count the initialization, a state the building of
/// a registry for one, and a plain confirmation every other. An answer that does not fit changes
/// nothing. Only a count changes how many indexes count as fetched.
pub proof fn answered_calls_make_way(progress: CallProgress, reply: CallReply)
    requires
        progress.failure is None,
        progress.pending.len() > 0,
        !(reply is Failed),
    ensures
        ({
            let call = progress.pending[0];
            let next = progress.next(reply);
            let fits = match reply {
                CallReply::Repositories(_) => call is SystemRepositories,
                CallReply::Count(_) => call is InitializeRepositories,
                CallReply::State(_) => call is BuildRegistry && call->BuildRegistry_0 is Some,
                _ => call is LoadConfig || call is OpenDatabase || call is ExplicitRepositories
                    || call is RefreshRepositories || (call is BuildRegistry
                    && call->BuildRegistry_0 is None),
            };
            &&& !fits ==> next == progress
            &&& fits ==> next.pending == progress.pending.drop_first() && next.failure is None
            &&& next.fetched == (if fits && reply is Count {
                reply->Count_0
            } else {
                progress.fetched
            })
        }),
{
    assert(progress.pending.skip(1) =~= progress.pending.drop_first());
}

/// Repositories that are loaded replace those in use, as they are and in their order, unless
/// those were given explicitly. The registry stays until it is built anew.
pub proof fn loaded_repositories_replace_the_others(
    sources: Sources,
    repositories: Vec<Repository>,
)
    ensures
        ({
            let after = sources.absorbed(
                Call::SystemRepositories,
                CallReply::Repositories(repositories),
            );
            &&& after.explicit == sources.explicit
            &&& after.plugins == sources.plugins
            &&& sources.explicit ==> after.repositories == sources.repositories
            &&& !sources.explicit ==> after.repositories == repositories@
        }),
{
}

/// A registry that is built looks in files, in the active state as it was found, if there is
/// one, and in each repository in use, in order. Building it leaves the repositories.
pub proof fn built_registries_have_every_repository(
    sources: Sources,
    id: state::Id,
    state: state::State,
    i: int,
)
    ensures
        ({
            let with = sources.absorbed(Call::BuildRegistry(Some(id)), CallReply::State(state));
            let without = sources.absorbed(Call::BuildRegistry(None), CallReply::Done);
            let repositories = sources.repositories;
            &&& with.plugins.len() == 2 + repositories.len()
            &&& without.plugins.len() == 2 + repositories.len()
            &&& with.plugins[0] is Cobble && without.plugins[0] is Cobble
            &&& with.plugins[1] == Plugin::Active(Some(state))
            &&& without.plugins[1] == Plugin::Active(None)
            &&& 0 <= i < repositories.len() ==> with.plugins[2 + i] == Plugin::Repository(
                repositories[i],
            ) && without.plugins[2 + i] == Plugin::Repository(repositories[i])
            &&& with.repositories == repositories && without.repositories == repositories
            &&& with.explicit == sources.explicit && without.explicit == sources.explicit
        }),
{
}

/// Calls start with all of them left, and no index fetched. Once they are done nothing changes.
pub proof fn calls_start_with_the_first(calls: Seq<Call>, done: CallProgress, reply: CallReply)
    requires
        done.failure is Some || done.pending.len() == 0,
    ensures
        CallProgress::start(calls).pending == calls,
        CallProgress::start(calls).fetched == 0,
        CallProgress::start(calls).failure is None,
        done.next(reply) == done,
{
}

/// Neither a call that fails nor one that brings neither repositories nor a registry changes what
/// a client has of them.
pub proof fn other_calls_leave_the_sources(sources: Sources, call: Call, reply: CallReply)
    requires
        reply is Failed || !(call is SystemRepositories || call is BuildRegistry),
    ensures
        sources.absorbed(call, reply) == sources,
{
}

} // verus!
