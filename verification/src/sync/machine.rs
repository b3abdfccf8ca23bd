//! The course of a sync: a machine that says what to do next and is told how it went.

use super::select::{
    choose_packages, explicit_packages, new_selections, removed_packages, synced_packages,
    updated_packages,
};
use super::Error;
use crate::client::{self, Client};
use crate::package::{self, Package};
use crate::state::{self, Selection};
use vstd::prelude::*;

verus! {

/// What the user asked for.
#[derive(Debug, PartialEq, Eq)]
pub struct Args {
    /// Go ahead without asking.
    pub yes_all: bool,
    /// Update repositories before syncing.
    pub update: bool,
    /// Only sync packages that have a version upgrade.
    pub upgrade_only: bool,
    /// Blit to this path, in bytes, instead of the root; this is not captured as a new state.
    pub to: Option<Vec<u8>>,
}

/// What is to be done next.
#[derive(Clone, Copy, Debug, PartialEq, Eq, Structural)]
pub enum Stage {
    /// Open the client.
    Open,
    /// Make the client ephemeral, with the path asked for.
    Ephemeral,
    /// Refresh the repositories.
    Refresh,
    /// List the installed packages.
    ListInstalled,
    /// For each installed package, find the first available one with its name.
    FindCandidates,
    /// Build a transaction: pin the updated packages, add the explicit ones, and look up, for
    /// each id of the outcome, the first package that the registry has.
    Resolve,
    /// Show what will be synced and removed.
    Announce,
    /// Ask whether to go on.
    Confirm,
    /// Fetch the synced packages.
    Cache,
    /// Load the selections of the active state.
    LoadSelections,
    /// Make a state of the new selections.
    Apply,
    /// Nothing: there is nothing to sync.
    NothingToDo,
    /// Nothing: the sync is done.
    Finished,
    /// Nothing: the sync failed.
    Failed,
}

/// What came of a stage.
#[derive(Debug, PartialEq, Eq)]
pub enum Reply {
    /// It is done.
    Done,
    /// The client is open, on an installation with the active state given.
    Opened(Option<state::Id>),
    /// The installed packages.
    Installed(Vec<Package>),
    /// For each installed package, the first available one with its name.
    Candidates(Vec<Option<Package>>),
    /// The ids that the transaction came out with, each with what the registry has for it.
    Resolved(Vec<(package::Id, Option<Package>)>),
    /// Whether to go on.
    Answer(bool),
    /// The selections of the active state.
    Selections(Vec<Selection>),
    /// The client failed.
    ClientFailed(client::Error),
    /// Something else failed, for the reason given.
    Failed(String),
}

/// How far a sync has come.
pub struct Progress {
    pub args: Args,
    pub stage: Stage,
    pub active_state: Option<state::Id>,
    /// The packages that were installed before.
    pub installed: Seq<Package>,
    /// The packages that take the place of others.
    pub updated: Seq<package::Id>,
    /// The packages that were asked for by name.
    pub explicit: Seq<package::Id>,
    /// The packages of the new state.
    pub finalized: Seq<Package>,
    pub synced: Seq<Package>,
    pub removed: Seq<Package>,
    pub selections: Seq<Selection>,
    pub failure: Option<Error>,
}

impl Progress {
    /// A sync before anything was done.
    pub open spec fn start(args: Args) -> Progress {
        Progress {
            args,
            stage: Stage::Open,
            active_state: None,
            installed: seq![],
            updated: seq![],
            explicit: seq![],
            finalized: seq![],
            synced: seq![],
            removed: seq![],
            selections: seq![],
            failure: None,
        }
    }

    /// Whether nothing is left to do.
    pub open spec fn is_done(self) -> bool {
        self.stage is NothingToDo || self.stage is Finished || self.stage is Failed
    }

    /// With the failure, and nothing left to do.
    pub open spec fn failed(self, error: Error) -> Progress {
        Progress { stage: Stage::Failed, failure: Some(error), ..self }
    }

    /// Once the client is what it should be: repositories are refreshed where asked for.
    pub open spec fn client_ready(self) -> Progress {
        Progress {
            stage: if self.args.update {
                Stage::Refresh
            } else {
                Stage::ListInstalled
            },
            ..self
        }
    }

    /// Once the installed packages are known.
    pub open spec fn listed(self, installed: Seq<Package>) -> Progress {
        if installed.len() == 0 {
            self.failed(Error::NoInstall)
        } else {
            Progress { installed, stage: Stage::FindCandidates, ..self }
        }
    }

    /// Once there is a candidate for each installed package that has one.
    pub open spec fn chosen(self, candidates: Seq<Option<Package>>) -> Progress {
        let choices = super::select::choices(self.installed, self.args.upgrade_only, candidates);
        Progress {
            updated: super::select::updated_ids(choices),
            explicit: super::select::explicit_ids(choices),
            stage: Stage::Resolve,
            ..self
        }
    }

    /// Once the transaction came out with ids.
    pub open spec fn resolved(self, lookups: Seq<(package::Id, Option<Package>)>) -> Progress {
        match client::resolve::missing(lookups) {
            Some(id) => self.failed(Error::Client(client::Error::MissingMetadata(id))),
            None => self.finalized(
                client::resolve::resolution(client::resolve::found_packages(lookups)),
            ),
        }
    }

    /// Once the packages of the new state are known.
    pub open spec fn finalized(self, finalized: Seq<Package>) -> Progress {
        let synced = super::select::synced(finalized, self.installed, self.args.to is Some);
        let removed = super::select::removed(self.installed, finalized);
        Progress {
            finalized,
            synced,
            removed,
            stage: if synced.len() == 0 && removed.len() == 0 {
                Stage::NothingToDo
            } else {
                Stage::Announce
            },
            ..self
        }
    }

    /// Once the selections of the previous state are known; without one there are none.
    pub open spec fn selected(self, previous: Seq<Selection>) -> Progress {
        Progress {
            selections: super::select::selections(self.finalized, self.installed, previous),
            stage: Stage::Apply,
            ..self
        }
    }

    /// After the stage was answered with `reply`. A reply that does not answer the stage changes
    /// nothing.
    pub open spec fn next(self, reply: Reply) -> Progress {
        match (self.stage, reply) {
            (
                Stage::Open | Stage::Ephemeral | Stage::Refresh | Stage::Cache | Stage::Apply,
                Reply::ClientFailed(error),
            ) => self.failed(Error::Client(error)),
            (Stage::Resolve, Reply::Failed(cause)) => self.failed(Error::Transaction(cause)),
            (Stage::Confirm, Reply::Failed(cause)) => self.failed(Error::Dialog(cause)),
            (Stage::LoadSelections, Reply::Failed(cause)) => self.failed(Error::DB(cause)),
            (Stage::Open, Reply::Opened(active_state)) => if self.args.to is Some {
                Progress { active_state, stage: Stage::Ephemeral, ..self }
            } else {
                Progress { active_state, ..self }.client_ready()
            },
            (Stage::Ephemeral, Reply::Done) => self.client_ready(),
            (Stage::Refresh, Reply::Done) => Progress { stage: Stage::ListInstalled, ..self },
            (Stage::ListInstalled, Reply::Installed(installed)) => self.listed(installed@),
            (Stage::FindCandidates, Reply::Candidates(candidates)) => if candidates@.len()
                == self.installed.len() {
                self.chosen(candidates@)
            } else {
                self
            },
            (Stage::Resolve, Reply::Resolved(lookups)) => self.resolved(lookups@),
            (Stage::Announce, Reply::Done) => Progress {
                stage: if self.args.yes_all {
                    Stage::Cache
                } else {
                    Stage::Confirm
                },
                ..self
            },
            (Stage::Confirm, Reply::Answer(true)) => Progress { stage: Stage::Cache, ..self },
            (Stage::Confirm, Reply::Answer(false)) => self.failed(Error::Cancelled),
            (Stage::Cache, Reply::Done) => if self.active_state is Some {
                Progress { stage: Stage::LoadSelections, ..self }
            } else {
                self.selected(seq![])
            },
            (Stage::LoadSelections, Reply::Selections(previous)) => self.selected(previous@),
            (Stage::Apply, Reply::Done) => Progress { stage: Stage::Finished, ..self },
            _ => self,
        }
    }
}

/// A sync that is under way.
#[derive(Debug)]
pub struct Sync {
    args: Args,
    stage: Stage,
    active_state: Option<state::Id>,
    installed: Vec<Package>,
    updated: Vec<package::Id>,
    explicit: Vec<package::Id>,
    finalized: Vec<Package>,
    synced: Vec<Package>,
    removed: Vec<Package>,
    selections: Vec<Selection>,
    failure: Option<Error>,
}

impl View for Sync {
    type V = Progress;

    closed spec fn view(&self) -> Progress {
        Progress {
            args: self.args,
            stage: self.stage,
            active_state: self.active_state,
            installed: self.installed@,
            updated: self.updated@,
            explicit: self.explicit@,
            finalized: self.finalized@,
            synced: self.synced@,
            removed: self.removed@,
            selections: self.selections@,
            failure: self.failure,
        }
    }
}

impl Sync {
    /// A sync before anything was done.
    pub fn new(args: Args) -> (sync: Sync)
        ensures
            sync@ == Progress::start(args),
    {
        Sync {
            args,
            stage: Stage::Open,
            active_state: None,
            installed: Vec::new(),
            updated: Vec::new(),
            explicit: Vec::new(),
            finalized: Vec::new(),
            synced: Vec::new(),
            removed: Vec::new(),
            selections: Vec::new(),
            failure: None,
        }
    }

    /// What is to be done next.
    pub fn stage(&self) -> (stage: Stage)
        ensures
            stage == self@.stage,
    {
        self.stage
    }

    /// What the user asked for.
    pub fn args(&self) -> (args: &Args)
        ensures
            *args == self@.args,
    {
        &self.args
    }

    /// The active state of the installation, once the client is open.
    pub fn active_state(&self) -> (state: Option<state::Id>)
        ensures
            state == self@.active_state,
    {
        self.active_state
    }

    /// The installed packages.
    pub fn installed(&self) -> (packages: &Vec<Package>)
        ensures
            packages@ == self@.installed,
    {
        &self.installed
    }

    /// The packages that take the place of others.
    pub fn updated(&self) -> (ids: &Vec<package::Id>)
        ensures
            ids@ == self@.updated,
    {
        &self.updated
    }

    /// The packages that were asked for by name.
    pub fn explicit(&self) -> (ids: &Vec<package::Id>)
        ensures
            ids@ == self@.explicit,
    {
        &self.explicit
    }

    /// The packages to fetch.
    pub fn synced(&self) -> (packages: &Vec<Package>)
        ensures
            packages@ == self@.synced,
    {
        &self.synced
    }

    /// The installed packages of which no build is left.
    pub fn removed(&self) -> (packages: &Vec<Package>)
        ensures
            packages@ == self@.removed,
    {
        &self.removed
    }

    /// How each package is selected in the new state.
    pub fn selections(&self) -> (selections: &Vec<Selection>)
        ensures
            selections@ == self@.selections,
    {
        &self.selections
    }

    /// The summary under which the new state is recorded.
    pub fn summary(&self) -> (text: &'static str)
        ensures
            text@ == "Sync"@,
    {
        "Sync"
    }

    /// Tells how the stage went. A reply that does not answer the stage changes nothing.
    pub fn reply(&mut self, reply: Reply)
        ensures
            final(self)@ == old(self)@.next(reply),
    {
        match (self.stage, reply) {
            (
                Stage::Open | Stage::Ephemeral | Stage::Refresh | Stage::Cache | Stage::Apply,
                Reply::ClientFailed(error),
            ) => {
                self.fail(Error::Client(error));
            },
            (Stage::Resolve, Reply::Failed(cause)) => {
                self.fail(Error::Transaction(cause));
            },
            (Stage::Confirm, Reply::Failed(cause)) => {
                self.fail(Error::Dialog(cause));
            },
            (Stage::LoadSelections, Reply::Failed(cause)) => {
                self.fail(Error::DB(cause));
            },
            (Stage::Open, Reply::Opened(active_state)) => {
                self.active_state = active_state;
                if self.args.to.is_some() {
                    self.stage = Stage::Ephemeral;
                } else {
                    self.make_ready();
                }
            },
            (Stage::Ephemeral, Reply::Done) => {
                self.make_ready();
            },
            (Stage::Refresh, Reply::Done) => {
                self.stage = Stage::ListInstalled;
            },
            (Stage::ListInstalled, Reply::Installed(installed)) => {
                if installed.len() == 0 {
                    self.fail(Error::NoInstall);
                } else {
                    self.installed = installed;
                    self.stage = Stage::FindCandidates;
                }
            },
            (Stage::FindCandidates, Reply::Candidates(candidates)) => {
                if candidates.len() == self.installed.len() {
                    let chosen = choose_packages(
                        &self.installed,
                        self.args.upgrade_only,
                        &candidates,
                    );
                    self.updated = updated_packages(&chosen);
                    self.explicit = explicit_packages(&chosen);
                    self.stage = Stage::Resolve;
                }
            },
            (Stage::Resolve, Reply::Resolved(lookups)) => {
                match Client::resolve_packages(&lookups) {
                    Ok(finalized) => {
                        self.finalize(finalized);
                    },
                    Err(error) => {
                        self.fail(Error::Client(error));
                    },
                }
            },
            (Stage::Announce, Reply::Done) => {
                self.stage = if self.args.yes_all {
                    Stage::Cache
                } else {
                    Stage::Confirm
                };
            },
            (Stage::Confirm, Reply::Answer(go_on)) => {
                if go_on {
                    self.stage = Stage::Cache;
                } else {
                    self.fail(Error::Cancelled);
                }
            },
            (Stage::Cache, Reply::Done) => {
                if self.active_state.is_some() {
                    self.stage = Stage::LoadSelections;
                } else {
                    let previous: Vec<Selection> = Vec::new();
                    assert(previous@ =~= seq![]);
                    self.select(&previous);
                }
            },
            (Stage::LoadSelections, Reply::Selections(previous)) => {
                self.select(&previous);
            },
            (Stage::Apply, Reply::Done) => {
                self.stage = Stage::Finished;
            },
            _ => {},
        }
    }

    fn fail(&mut self, error: Error)
        ensures
            final(self)@ == old(self)@.failed(error),
    {
        self.stage = Stage::Failed;
        self.failure = Some(error);
    }

    fn make_ready(&mut self)
        ensures
            final(self)@ == old(self)@.client_ready(),
    {
        self.stage = if self.args.update {
            Stage::Refresh
        } else {
            Stage::ListInstalled
        };
    }

    fn finalize(&mut self, finalized: Vec<Package>)
        ensures
            final(self)@ == old(self)@.finalized(finalized@),
    {
        let synced = synced_packages(&finalized, &self.installed, self.args.to.is_some());
        let removed = removed_packages(&self.installed, &finalized);
        self.stage = if synced.len() == 0 && removed.len() == 0 {
            Stage::NothingToDo
        } else {
            Stage::Announce
        };
        self.finalized = finalized;
        self.synced = synced;
        self.removed = removed;
    }

    fn select(&mut self, previous: &Vec<Selection>)
        ensures
            final(self)@ == old(self)@.selected(previous@),
    {
        self.selections = new_selections(&self.finalized, &self.installed, previous);
        self.stage = Stage::Apply;
    }

    /// What a sync that is done led to: the error it failed with, if it did.
    pub fn finish(self) -> (outcome: Result<(), Error>)
        requires
            self@.is_done(),
        ensures
            outcome == (match self@.failure {
                Some(error) => Err(error),
                None => Ok(()),
            }),
    {
        match self.failure {
            Some(error) => Err(error),
            None => Ok(()),
        }
    }
}

// ---------------------------------------------------------------------------
// What holds of every sync
// ---------------------------------------------------------------------------

/// How far a sync is after it was given `replies`.
pub open spec fn course(args: Args, replies: Seq<Reply>) -> Progress
    decreases replies.len(),
{
    if replies.len() == 0 {
        Progress::start(args)
    } else {
        course(args, replies.drop_last()).next(replies.last())
    }
}

/// Whether the sync changes packages at the stage, or has changed them.
pub open spec fn changes(stage: Stage) -> bool {
    stage is Cache || stage is LoadSelections || stage is Apply || stage is Finished
}

/// Whether the packages of the new state are known at the stage.
pub open spec fn settled(stage: Stage) -> bool {
    changes(stage) || stage is Announce || stage is Confirm || stage is NothingToDo
}

proof fn lemma_course_args(args: Args, replies: Seq<Reply>)
    ensures
        course(args, replies).args == args,
    decreases replies.len(),
{
    if replies.len() > 0 {
        lemma_course_args(args, replies.drop_last());
    }
}

/// A sync changes no packages unless the user agreed, by an answer or in advance.
pub proof fn nothing_changes_without_consent(args: Args, replies: Seq<Reply>)
    requires
        changes(course(args, replies).stage),
    ensures
        args.yes_all || replies.contains(Reply::Answer(true)),
    decreases replies.len(),
{
    if replies.len() > 0 {
        let before = course(args, replies.drop_last());
        lemma_course_args(args, replies.drop_last());
        if changes(before.stage) {
            nothing_changes_without_consent(args, replies.drop_last());
            if !args.yes_all {
                let i = choose|i: int|
                    0 <= i < replies.drop_last().len() && replies.drop_last()[i] == Reply::Answer(
                        true,
                    );
                assert(replies[i] == Reply::Answer(true));
            }
        } else if !args.yes_all {
            assert(replies[replies.len() - 1] == Reply::Answer(true));
        }
    }
}

/// A sync is cancelled only by the user's answer, and then it has changed no packages.
pub proof fn cancelled_by_the_user_alone(args: Args, replies: Seq<Reply>)
    requires
        course(args, replies).failure == Some(Error::Cancelled),
    ensures
        replies.contains(Reply::Answer(false)),
        forall|n: int|
            0 <= n <= replies.len() ==> !changes((#[trigger] course(args, replies.take(n))).stage),
    decreases replies.len(),
{
    if replies.len() > 0 {
        let earlier = replies.drop_last();
        let before = course(args, earlier);
        if before.failure == Some(Error::Cancelled) {
            cancelled_by_the_user_alone(args, earlier);
            let i = choose|i: int| 0 <= i < earlier.len() && earlier[i] == Reply::Answer(false);
            assert(replies[i] == Reply::Answer(false));
            lemma_failure_is_final(args, earlier);
        } else {
            lemma_failure_is_final(args, earlier);
            assert(before.stage is Confirm);
            assert(replies[replies.len() - 1] == Reply::Answer(false));
            lemma_changes_stay(args, earlier);
        }
        assert forall|n: int| 0 <= n <= replies.len() implies !changes(
            (#[trigger] course(args, replies.take(n))).stage,
        ) by {
            if n == replies.len() {
                assert(replies.take(n) =~= replies);
                lemma_failure_is_final(args, replies);
            } else {
                assert(replies.take(n) =~= earlier.take(n));
            }
        }
    }
}

/// A failure is there exactly when the sync failed.
proof fn lemma_failure_is_final(args: Args, replies: Seq<Reply>)
    ensures
        course(args, replies).failure is Some <==> course(args, replies).stage is Failed,
    decreases replies.len(),
{
    if replies.len() > 0 {
        lemma_failure_is_final(args, replies.drop_last());
    }
}

/// Before the user is asked, the sync has changed no packages.
proof fn lemma_changes_stay(args: Args, replies: Seq<Reply>)
    requires
        !changes(course(args, replies).stage),
        !(course(args, replies).stage is Failed),
    ensures
        forall|n: int|
            0 <= n <= replies.len() ==> !changes((#[trigger] course(args, replies.take(n))).stage),
    decreases replies.len(),
{
    assert(replies.take(replies.len() as int) =~= replies);
    if replies.len() > 0 {
        let earlier = replies.drop_last();
        lemma_changes_stay(args, earlier);
        assert forall|n: int| 0 <= n <= replies.len() implies !changes(
            (#[trigger] course(args, replies.take(n))).stage,
        ) by {
            if n < replies.len() {
                assert(replies.take(n) =~= earlier.take(n));
            }
        }
    }
}

/// Once the packages of the new state are known, they are sorted by name with no name twice;
/// what is fetched and what is removed follow from them and the installed packages; something
/// is installed; and there is nothing to do exactly when nothing is fetched or removed.
pub proof fn changes_follow_from_the_packages(args: Args, replies: Seq<Reply>)
    requires
        settled(course(args, replies).stage),
    ensures
        ({
            let sync = course(args, replies);
            &&& sync.installed.len() > 0
            &&& client::resolve::sorted_by_name(sync.finalized)
            &&& sync.synced == super::select::synced(
                sync.finalized,
                sync.installed,
                args.to is Some,
            )
            &&& sync.removed == super::select::removed(sync.installed, sync.finalized)
            &&& sync.stage is NothingToDo <==> sync.synced.len() == 0 && sync.removed.len() == 0
        }),
    decreases replies.len(),
{
    if replies.len() > 0 {
        let before = course(args, replies.drop_last());
        lemma_course_args(args, replies.drop_last());
        if settled(before.stage) {
            changes_follow_from_the_packages(args, replies.drop_last());
        } else {
            lemma_something_is_installed(args, replies.drop_last());
            if let Reply::Resolved(lookups) = replies.last() {
                let found = client::resolve::found_packages(lookups@);
                client::resolve::resolution_exists(found);
            }
        }
    }
}

/// Past the list of installed packages, something is installed.
proof fn lemma_something_is_installed(args: Args, replies: Seq<Reply>)
    requires
        ({
            let stage = course(args, replies).stage;
            stage is FindCandidates || stage is Resolve || settled(stage)
        }),
    ensures
        course(args, replies).installed.len() > 0,
    decreases replies.len(),
{
    if replies.len() > 0 {
        let stage = course(args, replies.drop_last()).stage;
        if stage is FindCandidates || stage is Resolve || settled(stage) {
            lemma_something_is_installed(args, replies.drop_last());
        }
    }
}

/// The state that a sync ends in selects the packages that it resolved, one by one.
pub proof fn applied_state_selects_the_packages(args: Args, replies: Seq<Reply>, i: int)
    requires
        course(args, replies).stage is Apply || course(args, replies).stage is Finished,
        0 <= i < course(args, replies).finalized.len(),
    ensures
        course(args, replies).selections.len() == course(args, replies).finalized.len(),
        course(args, replies).selections[i].package == course(args, replies).finalized[i].id,
    decreases replies.len(),
{
    if replies.len() > 0 {
        let before = course(args, replies.drop_last());
        if before.stage is Apply || before.stage is Finished {
            applied_state_selects_the_packages(args, replies.drop_last(), i);
        }
    }
}

// ---------------------------------------------------------------------------
// What each stage takes up
// ---------------------------------------------------------------------------

/// What is known is changed only by the stage that finds it out: the active state by the opening
/// of the client, the installed packages by their listing, what is swapped by the candidates,
/// what is fetched and removed by the transaction, and the selections once all is fetched. What
/// the user asked for never changes.
pub proof fn what_is_known_stays(sync: Progress, reply: Reply)
    ensures
        ({
            let next = sync.next(reply);
            &&& next.args == sync.args
            &&& !(sync.stage is Open) ==> next.active_state == sync.active_state
            &&& !(sync.stage is ListInstalled) ==> next.installed == sync.installed
            &&& !(sync.stage is FindCandidates) ==> next.updated == sync.updated && next.explicit
                == sync.explicit
            &&& !(sync.stage is Resolve) ==> next.finalized == sync.finalized && next.synced
                == sync.synced && next.removed == sync.removed
            &&& !(sync.stage is Cache || sync.stage is LoadSelections) ==> next.selections
                == sync.selections
        }),
{
}

/// The client is opened, made ephemeral if a path was asked for, and its repositories refreshed
/// if that was asked for; then the installed packages are listed.
pub proof fn clients_are_made_ready(sync: Progress, active: Option<state::Id>)
    ensures
        ({
            let ready = if sync.args.update {
                Stage::Refresh
            } else {
                Stage::ListInstalled
            };
            let next = sync.next(Reply::Opened(active));
            let done = sync.next(Reply::Done);
            &&& sync.stage is Open ==> next.active_state == active && next.failure == sync.failure
            &&& sync.stage is Open && sync.args.to is Some ==> next.stage is Ephemeral
            &&& sync.stage is Open && sync.args.to is None ==> next.stage == ready
            &&& sync.stage is Ephemeral ==> done.stage == ready
            &&& sync.stage is Refresh ==> done.stage is ListInstalled
        }),
{
}

/// The packages listed are the installed ones, all of them and in order. Without any the sync
/// fails.
pub proof fn listed_packages_are_installed(sync: Progress, installed: Vec<Package>)
    requires
        sync.stage is ListInstalled,
    ensures
        ({
            let next = sync.next(Reply::Installed(installed));
            &&& installed@.len() == 0 ==> next.stage is Failed && next.failure == Some(
                Error::NoInstall,
            )
            &&& installed@.len() > 0 ==> next.stage is FindCandidates && next.installed
                == installed@ && next.failure == sync.failure
        }),
{
}

/// With a candidate, or none, for each installed package, the packages that take the place of
/// others and those asked for by name are told from what becomes of each. Candidates that are
/// more or fewer answer nothing.
pub proof fn candidates_decide_the_swaps(sync: Progress, candidates: Vec<Option<Package>>)
    requires
        sync.stage is FindCandidates,
    ensures
        ({
            let next = sync.next(Reply::Candidates(candidates));
            let all = super::select::choices(
                sync.installed,
                sync.args.upgrade_only,
                candidates@,
            );
            &&& candidates@.len() != sync.installed.len() ==> next == sync
            &&& candidates@.len() == sync.installed.len() ==> {
                &&& next.stage is Resolve
                &&& next.updated == super::select::updated_ids(all)
                &&& next.explicit == super::select::explicit_ids(all)
                &&& next.failure == sync.failure
            }
        }),
{
}

/// A transaction that names an id for which nothing is found fails the sync with the first such
/// id. Else the new packages are the first found under each name, in order of their names; what
/// of them is fetched depends on whether a path was asked for; and there is nothing to do exactly
/// when nothing is fetched or removed.
pub proof fn transactions_decide_the_packages(
    sync: Progress,
    lookups: Vec<(package::Id, Option<Package>)>,
    k: int,
)
    requires
        sync.stage is Resolve,
        0 <= k <= lookups@.len(),
        forall|j: int| 0 <= j < k ==> (#[trigger] lookups@[j]).1 is Some,
        k < lookups@.len() ==> lookups@[k].1 is None,
    ensures
        ({
            let next = sync.next(Reply::Resolved(lookups));
            let list = next.finalized;
            &&& k < lookups@.len() ==> next.stage is Failed && next.failure == Some(
                Error::Client(client::Error::MissingMetadata(lookups@[k].0)),
            )
            &&& k == lookups@.len() ==> {
                &&& next.failure == sync.failure
                &&& forall|i: int, j: int|
                    0 <= i < j < list.len() ==> crate::text::name_before(
                        (#[trigger] list[i]).meta.name@,
                        (#[trigger] list[j]).meta.name@,
                    )
                &&& forall|i: int|
                    0 <= i < list.len() ==> client::resolve::first_of_name(
                        client::resolve::found_packages(lookups@),
                        #[trigger] list[i],
                    )
                &&& forall|j: int|
                    0 <= j < lookups@.len() ==> client::resolve::has_name(
                        list,
                        (#[trigger] lookups@[j]).1->0.meta.name@,
                    )
                &&& next.synced == super::select::synced(
                    list,
                    sync.installed,
                    sync.args.to is Some,
                )
                &&& next.removed == super::select::removed(sync.installed, list)
                &&& next.synced.len() + next.removed.len() == 0 <==> next.stage is NothingToDo
                &&& next.synced.len() + next.removed.len() > 0 <==> next.stage is Announce
            }
        }),
{
    let unknown = |lookup: (package::Id, Option<Package>)| lookup.1 is None;
    crate::list::lemma_first_where_skip(lookups@, unknown, k);
    let found = client::resolve::found_packages(lookups@);
    client::resolve::resolution_exists(found);
    let list = sync.next(Reply::Resolved(lookups)).finalized;
    if k == lookups@.len() {
        assert forall|j: int| 0 <= j < lookups@.len() implies client::resolve::has_name(
            list,
            (#[trigger] lookups@[j]).1->0.meta.name@,
        ) by {
            assert(client::resolve::has_name(list, found[j].meta.name@));
        }
    }
}

/// What is announced is gone ahead with at once if the user agreed in advance, and after a yes
/// otherwise; a no cancels.
pub proof fn the_user_decides(sync: Progress)
    ensures
        ({
            let done = sync.next(Reply::Done);
            let yes = sync.next(Reply::Answer(true));
            let no = sync.next(Reply::Answer(false));
            &&& sync.stage is Announce && sync.args.yes_all ==> done.stage is Cache
            &&& sync.stage is Announce && !sync.args.yes_all ==> done.stage is Confirm
            &&& sync.stage is Confirm ==> yes.stage is Cache && yes.failure == sync.failure
            &&& sync.stage is Confirm ==> no.stage is Failed && no.failure == Some(
                Error::Cancelled,
            )
        }),
{
}

/// Once all is fetched, the selections of the active state are loaded, if there is one. Each
/// package of the new state is then selected by its own id, and as it was before, where
/// something was selected before; then the state is made of the selections.
pub proof fn the_new_state_is_selected(sync: Progress, previous: Vec<Selection>, i: int)
    requires
        0 <= i < sync.finalized.len(),
    ensures
        ({
            let done = sync.next(Reply::Done);
            let loaded = sync.next(Reply::Selections(previous));
            &&& sync.stage is Cache && sync.active_state is Some ==> done.stage is LoadSelections
                && done.selections == sync.selections
            &&& sync.stage is Cache && sync.active_state is None ==> {
                &&& done.stage is Apply
                &&& done.selections.len() == sync.finalized.len()
                &&& done.selections[i].package == sync.finalized[i].id
                &&& !done.selections[i].explicit
                &&& done.selections[i].reason is None
            }
            &&& sync.stage is LoadSelections ==> {
                &&& loaded.stage is Apply
                &&& loaded.selections.len() == sync.finalized.len()
                &&& loaded.selections[i] == super::select::selection(
                    sync.finalized[i],
                    sync.installed,
                    previous@,
                )
            }
            &&& sync.stage is Apply ==> done.stage is Finished && done.failure == sync.failure
        }),
{
}

/// What fails ends the sync with its cause: a failure of the client as one of the client, and
/// any other by the stage it came in. In other stages such replies answer nothing.
pub proof fn failures_end_the_sync(sync: Progress, error: client::Error, cause: String)
    ensures
        ({
            let client = sync.next(Reply::ClientFailed(error));
            let other = sync.next(Reply::Failed(cause));
            let works = sync.stage is Open || sync.stage is Ephemeral || sync.stage is Refresh
                || sync.stage is Cache || sync.stage is Apply;
            &&& works ==> client.stage is Failed && client.failure == Some(Error::Client(error))
            &&& !works ==> client == sync
            &&& sync.stage is Resolve ==> other.stage is Failed && other.failure == Some(
                Error::Transaction(cause),
            )
            &&& sync.stage is Confirm ==> other.stage is Failed && other.failure == Some(
                Error::Dialog(cause),
            )
            &&& sync.stage is LoadSelections ==> other.stage is Failed && other.failure == Some(
                Error::DB(cause),
            )
            &&& !(sync.stage is Resolve || sync.stage is Confirm || sync.stage is LoadSelections)
                ==> other == sync
        }),
{
}

/// A reply that does not answer the stage changes nothing, and once a sync is done nothing does.
pub proof fn other_replies_change_nothing(sync: Progress, reply: Reply)
    ensures
        reply is Opened && !(sync.stage is Open) ==> sync.next(reply) == sync,
        reply is Installed && !(sync.stage is ListInstalled) ==> sync.next(reply) == sync,
        reply is Candidates && !(sync.stage is FindCandidates) ==> sync.next(reply) == sync,
        reply is Resolved && !(sync.stage is Resolve) ==> sync.next(reply) == sync,
        reply is Answer && !(sync.stage is Confirm) ==> sync.next(reply) == sync,
        reply is Selections && !(sync.stage is LoadSelections) ==> sync.next(reply) == sync,
        reply is Done && (sync.stage is Open || sync.stage is ListInstalled
            || sync.stage is FindCandidates || sync.stage is Resolve || sync.stage is Confirm
            || sync.stage is LoadSelections) ==> sync.next(reply) == sync,
        sync.stage is NothingToDo || sync.stage is Finished || sync.stage is Failed ==> sync.next(
            reply,
        ) == sync,
{
}

/// A sync starts with opening the client, for what the user asked for, and knows nothing else.
pub proof fn syncs_start_with_the_client(args: Args)
    ensures
        ({
            let sync = Progress::start(args);
            &&& sync.args == args
            &&& sync.stage is Open
            &&& sync.active_state is None
            &&& sync.failure is None
            &&& sync.installed.len() == 0 && sync.updated.len() == 0 && sync.explicit.len() == 0
            &&& sync.finalized.len() == 0 && sync.synced.len() == 0 && sync.removed.len() == 0
            &&& sync.selections.len() == 0
        }),
{
}

} // verus!
