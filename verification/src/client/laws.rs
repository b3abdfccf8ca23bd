//! What holds of every run of the client's scripts, however it goes.

use super::blit::BlitStep;
use super::error::Error;
use super::place::{Base, Contents, Location, Node, RootLink};
use super::run::{Probe, Progress, Request};
use super::step::{Action, Query, Reply, Step, TriggerScope};
use crate::state;
use vstd::prelude::*;

verus! {

/// How far a script is after it was given `replies`.
pub open spec fn course(script: Seq<Step>, replies: Seq<Reply>) -> Progress
    decreases replies.len(),
{
    if replies.len() == 0 {
        Progress::start(script)
    } else {
        course(script, replies.drop_last()).next(replies.last())
    }
}

/// A script that failed does nothing more.
pub proof fn failure_is_final(progress: Progress, reply: Reply)
    requires
        progress.failure is Some,
    ensures
        progress.next(reply) == progress,
{
}

/// An ephemeral client neither promotes nor archives: the script fails before it does anything.
pub proof fn ephemeral_clients_are_refused(id: state::Id)
    ensures
        Progress::start(super::step::promote_script(true)).failure == Some(
            Error::EphemeralProhibitedOperation,
        ),
        Progress::start(super::step::promote_script(true)).pending.len() == 0,
        Progress::start(super::step::archive_script(true, id)).failure == Some(
            Error::EphemeralProhibitedOperation,
        ),
        Progress::start(super::step::archive_script(true, id)).pending.len() == 0,
{
}

/// An ephemeral client activates nothing: the script never ends well, and all that it gets to
/// do is to make the staging directory and move the state's tree there.
pub proof fn ephemeral_clients_activate_nothing(
    new: state::Id,
    old: state::Id,
    replies: Seq<Reply>,
)
    ensures
        ({
            let script = super::step::activate_script(true, new, old);
            let request = course(script, replies).request();
            &&& !(request is Finished)
            &&& request matches Request::Perform(action) ==> Step::Do(*action) == script[1]
                || Step::Do(*action) == script[2]
        }),
{
    lemma_ephemeral_activation(new, old, replies);
}

proof fn lemma_ephemeral_activation(new: state::Id, old: state::Id, replies: Seq<Reply>)
    ensures
        ({
            let script = super::step::activate_script(true, new, old);
            let run = course(script, replies);
            run.failure is None ==> run.pending == script || run.pending == script.skip(1)
                || run.pending == script.skip(2)
        }),
    decreases replies.len(),
{
    if replies.len() > 0 {
        let script = super::step::activate_script(true, new, old);
        lemma_ephemeral_activation(new, old, replies.drop_last());
        let before = course(script, replies.drop_last());
        let next = super::step::follow_up(before.pending[0]->Do_0, replies.last());
        assert(script.skip(1).skip(1) =~= script.skip(2));
        assert(script.skip(2).skip(1)[0] == Step::Do(Action::Refuse));
        if before.failure is None && before.pending[0] is Do {
            assert(next =~= seq![]);
            assert(next + before.pending.skip(1) =~= before.pending.skip(1));
        }
    }
}

/// A link that is right already stays: nothing is done about it.
pub proof fn right_link_stays(base: Base, link: RootLink, source: String)
    requires
        source@ == link.spec_source(),
    ensures
        Progress::start(super::step::link_script(base, link)).next(Reply::Flag(false)).next(
            Reply::Flag(true),
        ).next(Reply::Flag(true)).next(Reply::Link(source)).request() is Finished,
{
    let script = super::step::link_script(base, link);
    let a = Progress::start(script).next(Reply::Flag(false));
    assert(a.pending =~= script.skip(2));
    let b = a.next(Reply::Flag(true)).next(Reply::Flag(true));
    let c = b.next(Reply::Link(source));
    assert(c.pending =~= seq![]);
}

// ---------------------------------------------------------------------------
// Ephemeral clients
// ---------------------------------------------------------------------------

/// Whether a base directory belongs to what an ephemeral client may change.
pub open spec fn outside_installation(base: Base) -> bool {
    base is BlitRoot || base is Isolation
}

/// Whether the step leaves alone what the installation is made of: its root, its staging area
/// and its archived states, and the record of its states.
pub open spec fn leaves_installation_alone(step: Step) -> bool {
    match step {
        Step::When(_, _, _) => true,
        Step::Do(action) => match action {
            Action::CreateDir(location)
            | Action::CreateDirAll(location)
            | Action::RemoveFile(location)
            | Action::Symlink(_, location)
            | Action::Write(location, _) => outside_installation(location.base),
            Action::Rename(from, to) => outside_installation(from.base) && outside_installation(
                to.base,
            ),
            Action::Exchange(_, _) => false,
            Action::QueryLayouts(target) | Action::Bake(target) => target matches Some(base)
                ==> outside_installation(base),
            Action::Blit(BlitStep::RemoveTarget(base))
            | Action::Blit(BlitStep::MakeTarget(base, _))
            | Action::Blit(BlitStep::OpenTarget(base)) => outside_installation(base),
            Action::Blit(_) | Action::Push(_) => true,
            Action::RecordState(_) => false,
            Action::CollectTriggers(_, _) | Action::ExecuteTrigger(_, _) => true,
            Action::Refuse => false,
        },
    }
}

/// Whether all of `steps` leave the installation alone.
pub open spec fn all_leave_installation_alone(steps: Seq<Step>) -> bool {
    forall|i: int| 0 <= i < steps.len() ==> leaves_installation_alone(#[trigger] steps[i])
}

proof fn lemma_alone_concat(a: Seq<Step>, b: Seq<Step>)
    requires
        all_leave_installation_alone(a),
        all_leave_installation_alone(b),
    ensures
        all_leave_installation_alone(a + b),
{
    assert forall|i: int| 0 <= i < (a + b).len() implies leaves_installation_alone(
        #[trigger] (a + b)[i],
    ) by {
        if i < a.len() {
            assert((a + b)[i] == a[i]);
        } else {
            assert((a + b)[i] == b[i - a.len()]);
        }
    }
}

proof fn lemma_alone_skip(steps: Seq<Step>, n: int)
    requires
        all_leave_installation_alone(steps),
        0 <= n <= steps.len(),
    ensures
        all_leave_installation_alone(steps.skip(n)),
{
    assert forall|i: int| 0 <= i < steps.skip(n).len() implies leaves_installation_alone(
        #[trigger] steps.skip(n)[i],
    ) by {
        assert(steps.skip(n)[i] == steps[n + i]);
    }
}

proof fn lemma_alone_root(base: Base, state: Option<state::Id>)
    requires
        outside_installation(base),
    ensures
        all_leave_installation_alone(super::step::root_script(base, state)),
{
    let link = |link: RootLink| super::step::link_script(base, link);
    let links = super::step::root_links_script(base);
    lemma_alone_concat(link(RootLink::Sbin), link(RootLink::Bin));
    lemma_alone_concat(link(RootLink::Sbin) + link(RootLink::Bin), link(RootLink::Lib));
    lemma_alone_concat(
        link(RootLink::Sbin) + link(RootLink::Bin) + link(RootLink::Lib),
        link(RootLink::Lib64),
    );
    lemma_alone_concat(
        link(RootLink::Sbin) + link(RootLink::Bin) + link(RootLink::Lib) + link(RootLink::Lib64),
        link(RootLink::Lib32),
    );
    lemma_alone_concat(links, super::step::root_script(base, state).skip(25));
    assert(super::step::root_script(base, state) =~= links + super::step::root_script(
        base,
        state,
    ).skip(25));
}

proof fn lemma_alone_script()
    ensures
        all_leave_installation_alone(super::step::ephemeral_script()),
{
    let query = seq![Step::Do(Action::QueryLayouts(Some(Base::BlitRoot)))];
    let release = super::step::os_release_script(Base::BlitRoot, None);
    let root = super::step::root_script(Base::BlitRoot, None);
    let isolation = super::step::root_script(Base::Isolation, None);
    let last = seq![
        Step::Do(Action::CreateDirAll(super::step::at(Base::BlitRoot, Node::Etc))),
        Step::Do(Action::CollectTriggers(TriggerScope::Transaction, None)),
        Step::Do(Action::CollectTriggers(TriggerScope::System, None)),
    ];
    lemma_alone_root(Base::BlitRoot, None);
    lemma_alone_root(Base::Isolation, None);
    lemma_alone_concat(query, release);
    lemma_alone_concat(query + release, root);
    lemma_alone_concat(query + release + root, isolation);
    lemma_alone_concat(query + release + root + isolation, last);
}

proof fn lemma_alone_follow_up(action: Action, reply: Reply)
    requires
        leaves_installation_alone(Step::Do(action)),
    ensures
        all_leave_installation_alone(super::step::follow_up(action, reply)),
{
    let steps = super::step::follow_up(action, reply);
    match (action, reply) {
        (Action::QueryLayouts(target), Reply::Layouts(layouts)) => {
            assert forall|i: int| 0 <= i < steps.len() implies leaves_installation_alone(
                #[trigger] steps[i],
            ) by {
                if i == layouts@.len() {
                    assert(steps[i] == Step::Do(Action::Bake(target)));
                } else {
                    assert(steps[i] is Do && steps[i]->Do_0 is Push);
                }
            }
        },
        (Action::Bake(Some(target)), Reply::Tree(root)) => {
            let plan = super::blit::blit_steps(target, root);
            lemma_blit_targets(target, root);
            assert forall|i: int| 0 <= i < steps.len() implies leaves_installation_alone(
                #[trigger] steps[i],
            ) by {
                assert(steps[i] == Step::Do(Action::Blit(plan[i])));
                assert(targets_only(plan[i], target));
            }
        },
        (Action::CollectTriggers(scope, isolated), Reply::Collected(count)) => {
            let isolation = if isolated is Some {
                super::step::root_script(Base::Isolation, isolated)
            } else {
                seq![]
            };
            lemma_alone_root(Base::Isolation, isolated);
            assert forall|i: int| 0 <= i < steps.len() implies leaves_installation_alone(
                #[trigger] steps[i],
            ) by {
                if i < isolation.len() {
                    assert(steps[i] == isolation[i]);
                } else {
                    assert(steps[i] is Do && steps[i]->Do_0 is ExecuteTrigger);
                }
            }
        },
        _ => {},
    }
}

/// Whether the step of a blit has no other target directory than the one given.
pub open spec fn targets_only(step: BlitStep, target: Base) -> bool {
    match step {
        BlitStep::RemoveTarget(base)
        | BlitStep::MakeTarget(base, _)
        | BlitStep::OpenTarget(base) => base == target,
        _ => true,
    }
}

/// A blit has no other target directory than the one given.
proof fn lemma_blit_targets(target: Base, root: Option<super::blit::Element>)
    ensures
        forall|i: int|
            0 <= i < super::blit::blit_steps(target, root).len() ==> targets_only(
                #[trigger] super::blit::blit_steps(target, root)[i],
                target,
            ),
{
    if let Some(super::blit::Element::Directory(_, _, children)) = root {
        super::blit::lemma_children_inner(children@);
        let inner = super::blit::children_steps(children@);
        let steps = super::blit::blit_steps(target, root);
        assert forall|i: int| 0 <= i < steps.len() implies targets_only(
            #[trigger] steps[i],
            target,
        ) by {
            if 4 <= i < 4 + inner.len() {
                assert(steps[i] == inner[i - 4]);
                assert(super::blit::is_inner(inner[i - 4]));
            }
        }
    }
}

/// However the run of an ephemeral client goes, no step of it touches the installation, and no
/// state is recorded.
pub proof fn ephemeral_runs_leave_the_installation_alone(replies: Seq<Reply>)
    ensures
        ({
            let run = course(super::step::ephemeral_script(), replies);
            &&& all_leave_installation_alone(run.pending)
            &&& run.recorded is None
        }),
    decreases replies.len(),
{
    lemma_alone_script();
    if replies.len() > 0 {
        let before = course(super::step::ephemeral_script(), replies.drop_last());
        let reply = replies.last();
        ephemeral_runs_leave_the_installation_alone(replies.drop_last());
        if before.failure is None && before.pending.len() > 0 {
            match before.pending[0] {
                Step::Do(action) => {
                    assert(leaves_installation_alone(before.pending[0]));
                    lemma_alone_follow_up(action, reply);
                    lemma_alone_skip(before.pending, 1);
                    lemma_alone_concat(
                        super::step::follow_up(action, reply),
                        before.pending.skip(1),
                    );
                },
                Step::When(_, _, count) => {
                    lemma_alone_skip(before.pending, 1);
                    if 1 + count <= before.pending.len() {
                        lemma_alone_skip(before.pending, 1 + count);
                    }
                },
            }
        }
    }
}

// ---------------------------------------------------------------------------
// Recording a state
// ---------------------------------------------------------------------------

/// However the run of a stateful client goes, recording the state is the first thing done:
/// nothing is blitted, promoted or archived before the record, and a run that ends well has
/// recorded a state.
pub proof fn nothing_is_done_before_the_record(old: Option<state::Id>, replies: Seq<Reply>)
    ensures
        ({
            let run = course(super::step::stateful_script(old), replies);
            &&& run.failure is None && run.recorded is None ==> run.pending
                == super::step::stateful_script(old)
            &&& run.request() is Finished ==> run.recorded is Some
        }),
    decreases replies.len(),
{
    if replies.len() > 0 {
        nothing_is_done_before_the_record(old, replies.drop_last());
    }
}

// ---------------------------------------------------------------------------
// Each step of a run
// ---------------------------------------------------------------------------

/// What a run asks for is the step at its head: an action is to be done, and a query to be
/// answered; whether a link is right is asked in three questions about its own place. With no
/// step left the run is finished, and one that failed tells why.
pub proof fn runs_ask_for_the_step_at_their_head(run: Progress)
    ensures
        run.failure is Some ==> run.request() == Request::Failed(&run.failure->0),
        run.failure is None && run.pending.len() == 0 ==> run.request() is Finished,
        run.failure is None && run.pending.len() > 0 ==> match run.pending[0] {
            Step::Do(action) => run.request() == Request::Perform(&action),
            Step::When(Query::Exists(location), _, _) => run.request() == Request::Exists(
                location,
            ),
            Step::When(Query::TryExists(location), _, _) => run.request() == Request::TryExists(
                location,
            ),
            Step::When(Query::LinksTo(location, _), _, _) => {
                &&& run.probe is Start ==> run.request() == Request::Exists(location)
                &&& run.probe is Found ==> run.request() == Request::IsSymlink(location)
                &&& run.probe is Symlink ==> run.request() == Request::ReadLink(location)
            },
        },
{
}

/// An action that is done makes way for what it calls for, and then for the steps after it. A
/// state that was recorded is kept, and nothing else changes what was. A refusal that comes next
/// fails the run.
pub proof fn actions_that_are_done_make_way(run: Progress, action: Action, reply: Reply)
    requires
        run.failure is None,
        run.pending.len() > 0,
        run.pending[0] == Step::Do(action),
        super::step::answers(action, reply),
    ensures
        ({
            let next = run.next(reply);
            let rest = super::step::follow_up(action, reply) + run.pending.drop_first();
            let refused = rest.len() > 0 && rest[0] == Step::Do(Action::Refuse);
            &&& !refused ==> next.pending == rest && next.failure is None && next.probe
                == run.probe
            &&& refused ==> next.pending.len() == 0 && next.failure == Some(
                Error::EphemeralProhibitedOperation,
            )
            &&& match reply {
                Reply::Recorded(state) => next.recorded == Some(state),
                _ => next.recorded == run.recorded,
            }
        }),
{
    assert(run.pending.skip(1) =~= run.pending.drop_first());
}

/// An action that fails ends the run with the error it leads to. Only that the target directory
/// of a blit could not be made, which may be there already, does not: the next step follows.
/// A reply that does not fit the action changes nothing.
pub proof fn actions_that_fail_end_the_run(
    run: Progress,
    action: Action,
    cause: String,
    reply: Reply,
)
    requires
        run.failure is None,
        run.pending.len() > 0,
        run.pending[0] == Step::Do(action),
    ensures
        ({
            let next = run.next(Reply::Failed(cause));
            let minor = action is Blit && action->Blit_0 is MakeTarget;
            let refused = run.pending.len() > 1 && run.pending[1] == Step::Do(Action::Refuse);
            &&& next.recorded == run.recorded
            &&& !minor ==> next.pending.len() == 0 && next.failure == Some(
                super::step::failure(action, cause),
            )
            &&& minor && !refused ==> next.pending == run.pending.drop_first() && next.failure
                is None
        }),
        !(reply is Failed) && !super::step::answers(action, reply) ==> run.next(reply) == run,
{
    assert(run.pending.skip(1) =~= run.pending.drop_first());
}

/// Whether `next` is what comes of a run whose query had the answer: the next step follows if the
/// answer is the one expected, and else the step behind those that depend on it, if there is
/// one. Where that is a refusal the run fails.
pub open spec fn goes_on(run: Progress, next: Progress, answer: bool) -> bool {
    let expected = run.pending[0]->When_1;
    let count = run.pending[0]->When_2;
    let past = if answer == expected {
        1int
    } else {
        1 + count
    };
    let refused = past < run.pending.len() && run.pending[past] == Step::Do(Action::Refuse);
    &&& next.recorded == run.recorded
    &&& next.probe is Start
    &&& refused ==> next.pending.len() == 0 && next.failure == Some(
        Error::EphemeralProhibitedOperation,
    )
    &&& !refused ==> next.failure is None
    &&& !refused && past <= run.pending.len() ==> next.pending == run.pending.subrange(
        past,
        run.pending.len() as int,
    )
    &&& past > run.pending.len() ==> next.pending.len() == 0
}

/// A query whether something is there is decided by the answer. That it cannot be told is an
/// error for one of the two kinds of query, and answers nothing for the other; nor does any other
/// reply.
pub proof fn answers_decide_the_way(run: Progress, answer: bool, cause: String, other: Reply)
    requires
        run.failure is None,
        run.pending.len() > 0,
        run.pending[0] is When,
        !(run.pending[0]->When_0 is LinksTo),
    ensures
        goes_on(run, run.next(Reply::Flag(answer)), answer),
        run.pending[0]->When_0 is Exists ==> run.next(Reply::Failed(cause)) == run,
        run.pending[0]->When_0 is TryExists ==> run.next(Reply::Failed(cause)).failure == Some(
            Error::Io(cause),
        ) && run.next(Reply::Failed(cause)).pending.len() == 0,
        !(other is Flag || other is Failed) ==> run.next(other) == run,
{
    let count = run.pending[0]->When_2;
    assert(run.pending.skip(1) =~= run.pending.subrange(1, run.pending.len() as int));
    if 1 + count <= run.pending.len() {
        assert(run.pending.skip(1 + count) =~= run.pending.subrange(
            1 + count,
            run.pending.len() as int,
        ));
    }
}

/// A link counts as right only if something is there, that is a symbolic link, and it points to
/// the source of the link; the first question with another answer decides that it is not.
pub proof fn links_are_right_by_three_answers(
    run: Progress,
    place: Location,
    link: RootLink,
    source: String,
    other: Reply,
)
    requires
        run.failure is None,
        run.pending.len() > 0,
        run.pending[0] is When,
        run.pending[0]->When_0 == Query::LinksTo(place, link),
        run.probe is Start,
    ensures
        ({
            let found = run.next(Reply::Flag(true));
            let symlink = found.next(Reply::Flag(true));
            &&& found == (Progress { probe: Probe::Found, ..run })
            &&& symlink == (Progress { probe: Probe::Symlink, ..run })
            &&& goes_on(run, run.next(Reply::Flag(false)), false)
            &&& goes_on(run, found.next(Reply::Flag(false)), false)
            &&& goes_on(run, symlink.next(Reply::Link(source)), source@ == link.spec_source())
            &&& symlink.next(Reply::Failed(source)).failure == Some(Error::Io(source))
            &&& symlink.next(Reply::Failed(source)).pending.len() == 0
            &&& !(other is Flag) ==> run.next(other) == run && found.next(other) == found
            &&& !(other is Link || other is Failed) ==> symlink.next(other) == symlink
        }),
{
    let count = run.pending[0]->When_2;
    assert(run.pending.skip(1) =~= run.pending.subrange(1, run.pending.len() as int));
    if 1 + count <= run.pending.len() {
        assert(run.pending.skip(1 + count) =~= run.pending.subrange(
            1 + count,
            run.pending.len() as int,
        ));
    }
}

// ---------------------------------------------------------------------------
// The order of a script
// ---------------------------------------------------------------------------

/// Activating a state makes the staging directory if it is missing, moves the tree of exactly
/// that state there, swaps it with the live one, and moves what was live to the tree of exactly
/// the state that was active, whose directory is made if it is missing. Then the tree is built
/// from the packages, and the triggers of the system are found and run.
pub proof fn activation_goes_step_by_step(new: state::Id, old: state::Id)
    ensures
        ({
            let steps = super::step::activate_script(false, new, old);
            let staging = Location { base: Base::Staging, node: Node::Itself };
            let staged = Location { base: Base::Staging, node: Node::Usr };
            let live = Location { base: Base::Root, node: Node::Usr };
            let archive = Location { base: Base::Archive(old), node: Node::Itself };
            &&& steps.len() == 11
            &&& steps[0] == Step::When(Query::Exists(staging), false, 1)
            &&& steps[1] == Step::Do(Action::CreateDir(staging))
            &&& steps[2] == Step::Do(
                Action::Rename(
                    Location { base: Base::Archive(new), node: Node::Itself },
                    staging,
                ),
            )
            &&& steps[3] == Step::When(Query::TryExists(live), false, 1)
            &&& steps[4] == Step::Do(Action::CreateDirAll(live))
            &&& steps[5] == Step::Do(Action::Exchange(staged, live))
            &&& steps[6] == Step::When(Query::Exists(archive), false, 1)
            &&& steps[7] == Step::Do(Action::CreateDirAll(archive))
            &&& steps[8] == Step::Do(
                Action::Rename(staged, Location { base: Base::Archive(old), node: Node::Usr }),
            )
            &&& steps[9] == Step::Do(Action::QueryLayouts(None))
            &&& steps[10] == Step::Do(Action::CollectTriggers(TriggerScope::System, None))
        }),
{
}

/// Once a state is recorded, its tree is blitted to staging, the number of exactly that state is
/// written there, and its release information; the triggers of the transaction run, isolated for
/// that state; the tree is swapped with the live one, and the live root set up for the state.
/// The state that was active, if one was, is archived under its own number. The triggers of the
/// system run last.
pub proof fn recorded_states_go_step_by_step(
    state: state::State,
    old: Option<state::Id>,
    before: state::Id,
)
    ensures
        ({
            let steps = super::step::follow_up(Action::RecordState(old), Reply::Recorded(state));
            let at = |base: Base, node: Node| Location { base, node };
            let live = Location { base: Base::Root, node: Node::Usr };
            let staged = Location { base: Base::Staging, node: Node::Usr };
            let library = Location { base: Base::Staging, node: Node::UsrLib };
            &&& steps.len() == 38 + (if old is Some {
                3int
            } else {
                0
            })
            &&& steps[0] == Step::Do(Action::QueryLayouts(Some(Base::Staging)))
            &&& steps[1] == Step::Do(Action::CreateDirAll(staged))
            &&& steps[2] == Step::Do(
                Action::Write(at(Base::Staging, Node::StateId), Contents::StateId(state.id)),
            )
            &&& steps[3] == Step::When(Query::Exists(library), false, 1)
            &&& steps[4] == Step::Do(Action::CreateDir(library))
            &&& steps[5] == Step::Do(
                Action::Write(
                    at(Base::Staging, Node::OsRelease),
                    Contents::OsRelease(Some(state.id)),
                ),
            )
            &&& steps[6] == Step::Do(
                Action::CollectTriggers(TriggerScope::Transaction, Some(state.id)),
            )
            &&& steps[7] == Step::When(Query::TryExists(live), false, 1)
            &&& steps[8] == Step::Do(Action::CreateDirAll(live))
            &&& steps[9] == Step::Do(Action::Exchange(staged, live))
            &&& steps.subrange(10, 37) == super::step::root_script(Base::Root, Some(state.id))
            &&& old == Some(before) ==> {
                let archive = Location { base: Base::Archive(before), node: Node::Itself };
                &&& steps[37] == Step::When(Query::Exists(archive), false, 1)
                &&& steps[38] == Step::Do(Action::CreateDirAll(archive))
                &&& steps[39] == Step::Do(
                    Action::Rename(staged, at(Base::Archive(before), Node::Usr)),
                )
            }
            &&& steps.last() == Step::Do(Action::CollectTriggers(TriggerScope::System, None))
        }),
{
    let steps = super::step::follow_up(Action::RecordState(old), Reply::Recorded(state));
    assert(steps.subrange(10, 37) =~= super::step::root_script(Base::Root, Some(state.id)));
}

/// A root is set up link by link: what an earlier try left under the other name goes, and a link
/// that is not right is made under the other name and renamed. Then the release information is
/// written for exactly the state given, in a directory that is made where it is missing.
pub proof fn roots_are_set_up_link_by_link(base: Base, state: Option<state::Id>, k: int)
    requires
        0 <= k < 5,
    ensures
        ({
            let steps = super::step::root_script(base, state);
            let link = if k == 0 {
                RootLink::Sbin
            } else if k == 1 {
                RootLink::Bin
            } else if k == 2 {
                RootLink::Lib
            } else if k == 3 {
                RootLink::Lib64
            } else {
                RootLink::Lib32
            };
            let target = Location { base, node: Node::Link(link) };
            let staged = Location { base, node: Node::StagedLink(link) };
            &&& steps.len() == 27
            &&& steps[5 * k] == Step::When(Query::Exists(staged), true, 1)
            &&& steps[5 * k + 1] == Step::Do(Action::RemoveFile(staged))
            &&& steps[5 * k + 2] == Step::When(Query::LinksTo(target, link), false, 2)
            &&& steps[5 * k + 3] == Step::Do(Action::Symlink(link, staged))
            &&& steps[5 * k + 4] == Step::Do(Action::Rename(staged, target))
            &&& steps[25] == Step::Do(
                Action::CreateDirAll(Location { base, node: Node::UsrLib }),
            )
            &&& steps[26] == Step::Do(
                Action::Write(
                    Location { base, node: Node::OsRelease },
                    Contents::OsRelease(state),
                ),
            )
        }),
{
}

/// An ephemeral client blits the tree to its own root, writes the release information there, sets
/// up that root and the isolation root, and runs the triggers of the transaction and then those
/// of the system.
pub proof fn ephemeral_states_go_step_by_step()
    ensures
        ({
            let steps = super::step::ephemeral_script();
            let library = Location { base: Base::BlitRoot, node: Node::UsrLib };
            &&& steps.len() == 61
            &&& steps[0] == Step::Do(Action::QueryLayouts(Some(Base::BlitRoot)))
            &&& steps[1] == Step::When(Query::Exists(library), false, 1)
            &&& steps[2] == Step::Do(Action::CreateDir(library))
            &&& steps[3] == Step::Do(
                Action::Write(
                    Location { base: Base::BlitRoot, node: Node::OsRelease },
                    Contents::OsRelease(None),
                ),
            )
            &&& steps.subrange(4, 31) == super::step::root_script(Base::BlitRoot, None)
            &&& steps.subrange(31, 58) == super::step::root_script(Base::Isolation, None)
            &&& steps[58] == Step::Do(
                Action::CreateDirAll(Location { base: Base::BlitRoot, node: Node::Etc }),
            )
            &&& steps[59] == Step::Do(Action::CollectTriggers(TriggerScope::Transaction, None))
            &&& steps[60] == Step::Do(Action::CollectTriggers(TriggerScope::System, None))
        }),
{
    let steps = super::step::ephemeral_script();
    assert(steps.subrange(4, 31) =~= super::step::root_script(Base::BlitRoot, None));
    assert(steps.subrange(31, 58) =~= super::step::root_script(Base::Isolation, None));
}

/// A run starts with the whole of its script, unless that starts with a refusal.
pub proof fn runs_start_with_their_script(script: Seq<Step>)
    requires
        !(script.len() > 0 && script[0] == Step::Do(Action::Refuse)),
    ensures
        Progress::start(script).pending == script,
        Progress::start(script).failure is None,
        Progress::start(script).recorded is None,
        Progress::start(script).probe is Start,
{
}

} // verus!
