//! Running a script: a machine that says what to do next and is told how it went.

use super::error::Error;
use super::place::Location;
use super::step::{error_of, is_answer, is_tolerated, next_steps, reverse};
use super::step::{Action, Query, Reply, Step};
use crate::package;
use crate::state;
use vstd::prelude::*;

verus! {

/// How far the question whether a link is right has been answered.
#[derive(Clone, Copy, Debug, PartialEq, Eq, Structural)]
pub enum Probe {
    /// Nothing is known.
    Start,
    /// There is something.
    Found,
    /// There is a symbolic link.
    Symlink,
}

/// What a new state is to be recorded with.
#[derive(Debug, PartialEq, Eq)]
pub struct Record {
    pub selections: Vec<state::Selection>,
    pub summary: String,
}

/// A script that is being run.
#[derive(Debug)]
pub struct Run {
    /// The steps that are left, the next one last.
    rest: Vec<Step>,
    probe: Probe,
    failure: Option<Error>,
    recorded: Option<state::State>,
    packages: Vec<package::Id>,
    record: Option<Record>,
}

/// What is to be done next.
#[derive(Debug)]
pub enum Request<'a> {
    /// Tell whether something is there, with a [`Reply::Flag`].
    Exists(Location),
    /// Tell whether something is there, with a [`Reply::Flag`], or that it cannot be told.
    TryExists(Location),
    /// Tell whether a symbolic link is there, with a [`Reply::Flag`].
    IsSymlink(Location),
    /// Tell what a symbolic link points to, with a [`Reply::Link`].
    ReadLink(Location),
    /// Do this.
    Perform(&'a Action),
    /// Nothing: the script is done.
    Finished,
    /// Nothing: the script failed.
    Failed(&'a Error),
}

/// How far a script has been run.
pub struct Progress {
    /// The steps that are left.
    pub pending: Seq<Step>,
    /// How far the query at their head has been answered.
    pub probe: Probe,
    /// Why the script failed, if it did.
    pub failure: Option<Error>,
    /// The state that was recorded, if one was.
    pub recorded: Option<state::State>,
}

impl Progress {
    /// A script before its first step.
    pub open spec fn start(script: Seq<Step>) -> Progress {
        Progress { pending: script, probe: Probe::Start, failure: None, recorded: None }.settled()
    }

    /// With the failure, and nothing left to do.
    pub open spec fn failed(self, error: Error) -> Progress {
        Progress { pending: seq![], probe: Probe::Start, failure: Some(error), ..self }
    }

    /// A script that comes to a refusal fails on the spot.
    pub open spec fn settled(self) -> Progress {
        if self.pending.len() > 0 && self.pending[0] == Step::Do(Action::Refuse) {
            self.failed(Error::EphemeralProhibitedOperation)
        } else {
            self
        }
    }

    /// Past the query at the head, which had the answer given.
    pub open spec fn decided(self, answer: bool) -> Progress {
        match self.pending[0] {
            Step::When(_, expected, count) => Progress {
                pending: if answer == expected {
                    self.pending.skip(1)
                } else if 1 + count <= self.pending.len() {
                    self.pending.skip(1 + count)
                } else {
                    seq![]
                },
                probe: Probe::Start,
                ..self
            },
            _ => self,
        }
    }

    /// Whether nothing is left to do, because the script is done or failed.
    pub open spec fn is_done(self) -> bool {
        self.failure is Some || self.pending.len() == 0
    }

    /// The request that is open.
    pub open spec fn request<'a>(self) -> Request<'a> {
        if self.failure is Some {
            Request::Failed(&self.failure->0)
        } else if self.pending.len() == 0 {
            Request::Finished
        } else {
            match self.pending[0] {
                Step::Do(action) => Request::Perform(&action),
                Step::When(Query::Exists(location), _, _) => Request::Exists(location),
                Step::When(Query::TryExists(location), _, _) => Request::TryExists(location),
                Step::When(Query::LinksTo(location, _), _, _) => match self.probe {
                    Probe::Start => Request::Exists(location),
                    Probe::Found => Request::IsSymlink(location),
                    Probe::Symlink => Request::ReadLink(location),
                },
            }
        }
    }

    /// After the open request was answered with `reply`. A reply that does not answer the
    /// request changes nothing.
    pub open spec fn next(self, reply: Reply) -> Progress {
        if self.failure is Some || self.pending.len() == 0 {
            self
        } else {
            match self.pending[0] {
                Step::Do(action) => self.performed(action, reply),
                Step::When(query, _, _) => self.queried(query, reply),
            }
        }
    }

    /// After the action at the head was answered with `reply`.
    pub open spec fn performed(self, action: Action, reply: Reply) -> Progress {
        match reply {
            Reply::Failed(cause) => if super::step::tolerated(action) {
                Progress { pending: self.pending.skip(1), ..self }.settled()
            } else {
                self.failed(super::step::failure(action, cause))
            },
            _ => if super::step::answers(action, reply) {
                Progress {
                    pending: super::step::follow_up(action, reply) + self.pending.skip(1),
                    recorded: if reply is Recorded {
                        Some(reply->Recorded_0)
                    } else {
                        self.recorded
                    },
                    ..self
                }.settled()
            } else {
                self
            },
        }
    }

    /// After the open question of the query at the head was answered with `reply`. A link is
    /// right when something is there, it is a symbolic link, and it points to its source.
    pub open spec fn queried(self, query: Query, reply: Reply) -> Progress {
        match (query, self.probe, reply) {
            (Query::Exists(_), _, Reply::Flag(there)) => self.decided(there).settled(),
            (Query::TryExists(_), _, Reply::Flag(there)) => self.decided(there).settled(),
            (Query::TryExists(_), _, Reply::Failed(cause)) => self.failed(Error::Io(cause)),
            (Query::LinksTo(_, _), Probe::Start, Reply::Flag(there)) => if there {
                Progress { probe: Probe::Found, ..self }
            } else {
                self.decided(false).settled()
            },
            (Query::LinksTo(_, _), Probe::Found, Reply::Flag(symlink)) => if symlink {
                Progress { probe: Probe::Symlink, ..self }
            } else {
                self.decided(false).settled()
            },
            (Query::LinksTo(_, link), Probe::Symlink, Reply::Link(source)) => self.decided(
                source@ == link.spec_source(),
            ).settled(),
            (Query::LinksTo(_, _), Probe::Symlink, Reply::Failed(cause)) => self.failed(
                Error::Io(cause),
            ),
            _ => self,
        }
    }
}

impl View for Run {
    type V = Progress;

    closed spec fn view(&self) -> Progress {
        Progress {
            pending: self.rest@.reverse(),
            probe: self.probe,
            failure: self.failure,
            recorded: self.recorded,
        }
    }
}

impl Run {
    /// The packages that the tree is built from.
    pub closed spec fn spec_packages(self) -> Seq<package::Id> {
        self.packages@
    }

    /// What the new state is recorded with, for scripts that record one.
    pub closed spec fn spec_record(self) -> Option<Record> {
        self.record
    }

    /// A script before its first step.
    pub fn new(steps: Vec<Step>, packages: Vec<package::Id>, record: Option<Record>) -> (run: Run)
        ensures
            run@ == Progress::start(steps@),
            run.spec_packages() == packages@,
            run.spec_record() == record,
    {
        let mut run = Run {
            rest: reverse(steps),
            probe: Probe::Start,
            failure: None,
            recorded: None,
            packages,
            record,
        };
        assert(run.rest@.reverse() =~= steps@);
        run.settle();
        run
    }

    fn settle(&mut self)
        ensures
            final(self)@ == old(self)@.settled(),
            final(self).spec_packages() == old(self).spec_packages(),
            final(self).spec_record() == old(self).spec_record(),
    {
        if self.rest.len() > 0 {
            let refused = match &self.rest[self.rest.len() - 1] {
                Step::Do(Action::Refuse) => true,
                _ => false,
            };
            if refused {
                self.fail(Error::EphemeralProhibitedOperation);
            }
        }
    }

    fn fail(&mut self, error: Error)
        ensures
            final(self)@ == old(self)@.failed(error),
            final(self).spec_packages() == old(self).spec_packages(),
            final(self).spec_record() == old(self).spec_record(),
    {
        self.rest = Vec::new();
        self.probe = Probe::Start;
        self.failure = Some(error);
        assert(self.rest@.reverse() =~= seq![]);
    }

    /// The packages that the tree is built from.
    pub fn packages(&self) -> (packages: &Vec<package::Id>)
        ensures
            packages@ == self.spec_packages(),
    {
        &self.packages
    }

    /// What the new state is recorded with, for scripts that record one.
    pub fn record(&self) -> (record: &Option<Record>)
        ensures
            *record == self.spec_record(),
    {
        &self.record
    }

    /// What is to be done next.
    pub fn request(&self) -> (request: Request<'_>)
        ensures
            request == self@.request(),
    {
        if let Some(error) = &self.failure {
            return Request::Failed(error);
        }
        if self.rest.len() == 0 {
            return Request::Finished;
        }
        match &self.rest[self.rest.len() - 1] {
            Step::Do(action) => Request::Perform(action),
            Step::When(Query::Exists(location), _, _) => Request::Exists(*location),
            Step::When(Query::TryExists(location), _, _) => Request::TryExists(*location),
            Step::When(Query::LinksTo(location, _), _, _) => match self.probe {
                Probe::Start => Request::Exists(*location),
                Probe::Found => Request::IsSymlink(*location),
                Probe::Symlink => Request::ReadLink(*location),
            },
        }
    }

    fn decide(&mut self, answer: bool, expected: bool, count: usize)
        requires
            old(self).rest@.len() > 0,
            old(self)@.pending[0] matches Step::When(_, e, c) && e == expected && c == count,
        ensures
            final(self)@ == old(self)@.decided(answer).settled(),
            final(self).spec_packages() == old(self).spec_packages(),
            final(self).spec_record() == old(self).spec_record(),
    {
        let ghost before = self@;
        let left = self.rest.len() - 1;
        if answer == expected {
            self.rest.truncate(left);
        } else if count <= left {
            self.rest.truncate(left - count);
        } else {
            self.rest.truncate(0);
        }
        self.probe = Probe::Start;
        assert(self@.pending =~= before.decided(answer).pending);
        self.settle();
    }

    /// Tells how the open request went. A reply that does not answer the request changes
    /// nothing.
    pub fn reply(&mut self, reply: Reply)
        requires
            old(self)@.request() matches Request::Perform(Action::Bake(Some(_)))
                && reply is Tree ==> super::blit::blittable_root(reply->Tree_0),
        ensures
            final(self)@ == old(self)@.next(reply),
            final(self).spec_packages() == old(self).spec_packages(),
            final(self).spec_record() == old(self).spec_record(),
    {
        if self.failure.is_some() || self.rest.len() == 0 {
            return;
        }
        let ghost before = self@;
        let ghost rest = self.rest@;
        if let Some(step) = self.rest.pop() {
            assert(step == before.pending[0]);
            assert(self.rest@.push(step) =~= rest);
            assert(self.rest@.reverse() =~= before.pending.skip(1));
            match step {
                Step::Do(action) => {
                    assert(seq![step] + self@.pending =~= before.pending);
                    self.perform(action, reply);
                },
                Step::When(query, expected, count) => {
                    self.rest.push(Step::When(query, expected, count));
                    assert(self.rest@ =~= rest);
                    self.answer(query, expected, count, reply);
                },
            }
        }
    }

    /// Takes up the reply to `action`, which was taken off the head.
    fn perform(&mut self, action: Action, reply: Reply)
        requires
            old(self).failure is None,
            action matches Action::Bake(Some(_)) && reply is Tree ==> super::blit::blittable_root(
                reply->Tree_0,
            ),
        ensures
            ({
                let before = Progress {
                    pending: seq![Step::Do(action)] + old(self)@.pending,
                    ..old(self)@
                };
                final(self)@ == before.performed(action, reply)
            }),
            final(self).spec_packages() == old(self).spec_packages(),
            final(self).spec_record() == old(self).spec_record(),
    {
        let ghost before = Progress { pending: seq![Step::Do(action)] + self@.pending, ..self@ };
        assert(before.pending.skip(1) =~= self@.pending);
        if let Reply::Failed(cause) = reply {
            if is_tolerated(&action) {
                self.settle();
            } else {
                self.fail(error_of(&action, cause));
            }
            return;
        }
        if !is_answer(&action, &reply) {
            self.rest.push(Step::Do(action));
            assert(self@.pending =~= before.pending);
            return;
        }
        let mut steps = reverse(next_steps(&action, &reply));
        self.rest.append(&mut steps);
        assert(self@.pending =~= super::step::follow_up(action, reply) + before.pending.skip(1));
        if let Reply::Recorded(state) = reply {
            self.recorded = Some(state);
        }
        self.settle();
    }

    /// Takes up the reply to the question that is open about the query at the head.
    fn answer(&mut self, query: Query, expected: bool, count: usize, reply: Reply)
        requires
            old(self).failure is None,
            old(self).rest@.len() > 0,
            old(self)@.pending[0] == Step::When(query, expected, count),
        ensures
            final(self)@ == old(self)@.queried(query, reply),
            final(self).spec_packages() == old(self).spec_packages(),
            final(self).spec_record() == old(self).spec_record(),
    {
        match (query, self.probe, reply) {
            (Query::Exists(_), _, Reply::Flag(there)) => {
                self.decide(there, expected, count);
            },
            (Query::TryExists(_), _, Reply::Flag(there)) => {
                self.decide(there, expected, count);
            },
            (Query::TryExists(_), _, Reply::Failed(cause)) => {
                self.fail(Error::Io(cause));
            },
            (Query::LinksTo(_, _), Probe::Start, Reply::Flag(there)) => {
                if there {
                    self.probe = Probe::Found;
                } else {
                    self.decide(false, expected, count);
                }
            },
            (Query::LinksTo(_, _), Probe::Found, Reply::Flag(symlink)) => {
                if symlink {
                    self.probe = Probe::Symlink;
                } else {
                    self.decide(false, expected, count);
                }
            },
            (Query::LinksTo(_, link), Probe::Symlink, Reply::Link(source)) => {
                let wanted = link.source().to_string();
                self.decide(source == wanted, expected, count);
            },
            (Query::LinksTo(_, _), Probe::Symlink, Reply::Failed(cause)) => {
                self.fail(Error::Io(cause));
            },
            _ => {},
        }
    }

    /// What a run that is done led to: the error it failed with, or the state that it recorded,
    /// if any.
    pub fn finish(self) -> (outcome: Result<Option<state::State>, Error>)
        requires
            self@.is_done(),
        ensures
            outcome == (match self@.failure {
                Some(error) => Err(error),
                None => Ok(self@.recorded),
            }),
    {
        match self.failure {
            Some(error) => Err(error),
            None => Ok(self.recorded),
        }
    }
}

} // verus!
