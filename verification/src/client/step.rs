//! Steps that change a system, and the scripts made of them.

use super::blit::{blit_plan, BlitStep, Element};
use super::error::Error;
use super::pending::PendingFile;
use super::place::{Base, Contents, Location, Node, RootLink};
use crate::layout::Layout;
use crate::package;
use crate::state;
use vstd::prelude::*;

verus! {

/// Which triggers run.
#[derive(Clone, Copy, Debug, PartialEq, Eq, Structural)]
pub enum TriggerScope {
    /// Those of the transaction, before the new tree is live.
    Transaction,
    /// Those of the system, with the new tree in place.
    System,
}

/// Something to do.
#[derive(Debug, PartialEq, Eq)]
pub enum Action {
    /// Make a directory whose parent is there.
    CreateDir(Location),
    /// Make a directory and all its parents.
    CreateDirAll(Location),
    RemoveFile(Location),
    /// Rename the first to the second.
    Rename(Location, Location),
    /// Swap the two in one go.
    Exchange(Location, Location),
    /// Make the link at the location.
    Symlink(RootLink, Location),
    Write(Location, Contents),
    /// Ask for the layouts of the packages, to build a tree from them; with a directory, the
    /// tree is then blitted to it.
    QueryLayouts(Option<Base>),
    /// Add a file to the tree.
    Push(PendingFile),
    /// Finish the tree.
    Bake(Option<Base>),
    Blit(BlitStep),
    /// Record the new state; once its tree is live the old one, if any, is archived.
    RecordState(Option<state::Id>),
    /// Find the triggers of the tree to run. With a state, the isolation root is set up for it
    /// before the triggers run.
    CollectTriggers(TriggerScope, Option<state::Id>),
    /// Run the trigger with the index among those found.
    ExecuteTrigger(TriggerScope, usize),
    /// Stop: the client is ephemeral.
    Refuse,
}

/// Something to find out.
#[derive(Clone, Copy, Debug, PartialEq, Eq, Structural)]
pub enum Query {
    /// Whether something is there; that it cannot be told counts as no.
    Exists(Location),
    /// Whether something is there; that it cannot be told is an error.
    TryExists(Location),
    /// Whether the link is there and points to where it should.
    LinksTo(Location, RootLink),
}

/// A step of a script.
#[derive(Debug, PartialEq, Eq)]
pub enum Step {
    Do(Action),
    /// Pass over the given number of steps unless the query has the given answer.
    When(Query, bool, usize),
}

/// What came of a request.
#[derive(Debug, PartialEq, Eq)]
pub enum Reply {
    /// It is done.
    Done,
    /// Yes or no.
    Flag(bool),
    /// What a symbolic link points to.
    Link(String),
    /// The layouts of the packages, each with the package it belongs to.
    Layouts(Vec<(package::Id, Layout)>),
    /// The root of the finished tree, if it has one.
    Tree(Option<Element>),
    /// The state as it was recorded.
    Recorded(state::State),
    /// How many triggers there are.
    Collected(usize),
    /// It failed, for the reason given.
    Failed(String),
}

// ---------------------------------------------------------------------------
// Scripts
// ---------------------------------------------------------------------------

/// The place `node` in the directory `base`.
pub open spec fn at(base: Base, node: Node) -> Location {
    Location { base, node }
}

/// Makes one link of a root: under another name first, so that it replaces what was there in
/// one go. A link that is right already stays.
pub open spec fn link_script(base: Base, link: RootLink) -> Seq<Step> {
    let target = at(base, Node::Link(link));
    let staged = at(base, Node::StagedLink(link));
    seq![
        Step::When(Query::Exists(staged), true, 1),
        Step::Do(Action::RemoveFile(staged)),
        Step::When(Query::LinksTo(target, link), false, 2),
        Step::Do(Action::Symlink(link, staged)),
        Step::Do(Action::Rename(staged, target)),
    ]
}

/// Makes the links at the top of a root.
pub open spec fn root_links_script(base: Base) -> Seq<Step> {
    link_script(base, RootLink::Sbin) + link_script(base, RootLink::Bin) + link_script(
        base,
        RootLink::Lib,
    ) + link_script(base, RootLink::Lib64) + link_script(base, RootLink::Lib32)
}

/// Writes the release information of a root. `usr/lib` may be missing when all packages were
/// removed.
pub open spec fn os_release_script(base: Base, state: Option<state::Id>) -> Seq<Step> {
    seq![
        Step::When(Query::Exists(at(base, Node::UsrLib)), false, 1),
        Step::Do(Action::CreateDir(at(base, Node::UsrLib))),
        Step::Do(Action::Write(at(base, Node::OsRelease), Contents::OsRelease(state))),
    ]
}

/// Makes the links at the top of a root, and writes its release information. A root need not
/// have a `usr`: the directories that the file lies in are made where they are missing.
pub open spec fn root_script(base: Base, state: Option<state::Id>) -> Seq<Step> {
    root_links_script(base) + seq![
        Step::Do(Action::CreateDirAll(at(base, Node::UsrLib))),
        Step::Do(Action::Write(at(base, Node::OsRelease), Contents::OsRelease(state))),
    ]
}

/// Swaps the staged `/usr` with the live one.
pub open spec fn promote_script(ephemeral: bool) -> Seq<Step> {
    if ephemeral {
        seq![Step::Do(Action::Refuse)]
    } else {
        seq![
            Step::When(Query::TryExists(at(Base::Root, Node::Usr)), false, 1),
            Step::Do(Action::CreateDirAll(at(Base::Root, Node::Usr))),
            Step::Do(Action::Exchange(at(Base::Staging, Node::Usr), at(Base::Root, Node::Usr))),
        ]
    }
}

/// Moves the `/usr` that promotion left in staging to the tree of the state it belongs to.
pub open spec fn archive_script(ephemeral: bool, id: state::Id) -> Seq<Step> {
    if ephemeral {
        seq![Step::Do(Action::Refuse)]
    } else {
        seq![
            Step::When(Query::Exists(at(Base::Archive(id), Node::Itself)), false, 1),
            Step::Do(Action::CreateDirAll(at(Base::Archive(id), Node::Itself))),
            Step::Do(Action::Rename(at(Base::Staging, Node::Usr), at(Base::Archive(id), Node::Usr))),
        ]
    }
}

/// Makes an archived state the live one, and archives the live one.
pub open spec fn activate_script(ephemeral: bool, new: state::Id, old: state::Id) -> Seq<Step> {
    seq![
        Step::When(Query::Exists(at(Base::Staging, Node::Itself)), false, 1),
        Step::Do(Action::CreateDir(at(Base::Staging, Node::Itself))),
        Step::Do(
            Action::Rename(at(Base::Archive(new), Node::Itself), at(Base::Staging, Node::Itself)),
        ),
    ] + promote_script(ephemeral) + archive_script(ephemeral, old) + seq![
        Step::Do(Action::QueryLayouts(None)),
        Step::Do(Action::CollectTriggers(TriggerScope::System, None)),
    ]
}

/// Records a new state; what follows the record is [`after_record_script`].
pub open spec fn stateful_script(old: Option<state::Id>) -> Seq<Step> {
    seq![Step::Do(Action::RecordState(old))]
}

/// Blits the tree of a recorded state, makes it the live one, and archives the old state.
///
/// The file with the state's number lies in the tree. The blit starts by clearing that tree, so
/// the number is written once the blit is done.
pub open spec fn after_record_script(id: state::Id, old: Option<state::Id>) -> Seq<Step> {
    seq![
        Step::Do(Action::QueryLayouts(Some(Base::Staging))),
        Step::Do(Action::CreateDirAll(at(Base::Staging, Node::Usr))),
        Step::Do(Action::Write(at(Base::Staging, Node::StateId), Contents::StateId(id))),
    ] + os_release_script(Base::Staging, Some(id)) + seq![
        Step::Do(Action::CollectTriggers(TriggerScope::Transaction, Some(id))),
    ] + promote_script(false) + root_script(Base::Root, Some(id)) + match old {
        Some(old) => archive_script(false, old),
        None => seq![],
    } + seq![Step::Do(Action::CollectTriggers(TriggerScope::System, None))]
}

/// Blits a new tree to the root of an ephemeral client.
pub open spec fn ephemeral_script() -> Seq<Step> {
    seq![Step::Do(Action::QueryLayouts(Some(Base::BlitRoot)))] + os_release_script(
        Base::BlitRoot,
        None,
    ) + root_script(Base::BlitRoot, None) + root_script(Base::Isolation, None) + seq![
        Step::Do(Action::CreateDirAll(at(Base::BlitRoot, Node::Etc))),
        Step::Do(Action::CollectTriggers(TriggerScope::Transaction, None)),
        Step::Do(Action::CollectTriggers(TriggerScope::System, None)),
    ]
}

/// The files of a tree, in the order in which their layouts came.
pub open spec fn pending_files(layouts: Seq<(package::Id, Layout)>) -> Seq<PendingFile> {
    layouts.map_values(|layout: (package::Id, Layout)| PendingFile { id: layout.0, layout: layout.1 })
}

/// Adds every file to the tree, then finishes it.
pub open spec fn tree_script(
    layouts: Seq<(package::Id, Layout)>,
    target: Option<Base>,
) -> Seq<Step> {
    pending_files(layouts).map_values(|file: PendingFile| Step::Do(Action::Push(file))).push(
        Step::Do(Action::Bake(target)),
    )
}

/// Blits a finished tree.
pub open spec fn blit_script(target: Base, root: Option<Element>) -> Seq<Step> {
    super::blit::blit_steps(target, root).map_values(|step: BlitStep| Step::Do(Action::Blit(step)))
}

/// Runs the triggers that were found, in order; with a state, the isolation root is set up first.
pub open spec fn triggers_script(
    scope: TriggerScope,
    isolated: Option<state::Id>,
    count: nat,
) -> Seq<Step> {
    (if isolated is Some {
        root_script(Base::Isolation, isolated)
    } else {
        seq![]
    }) + Seq::new(count, |i: int| Step::Do(Action::ExecuteTrigger(scope, i as usize)))
}

fn place(base: Base, node: Node) -> (location: Location)
    ensures
        location == at(base, node),
{
    Location { base, node }
}

fn push_link(steps: &mut Vec<Step>, base: Base, link: RootLink)
    ensures
        final(steps)@ == old(steps)@ + link_script(base, link),
{
    let target = place(base, Node::Link(link));
    let staged = place(base, Node::StagedLink(link));
    steps.push(Step::When(Query::Exists(staged), true, 1));
    steps.push(Step::Do(Action::RemoveFile(staged)));
    steps.push(Step::When(Query::LinksTo(target, link), false, 2));
    steps.push(Step::Do(Action::Symlink(link, staged)));
    steps.push(Step::Do(Action::Rename(staged, target)));
}

/// Makes the links at the top of a root, and writes its release information. A root need not
/// have a `usr`.
pub fn create_root_links(base: Base, state: Option<state::Id>) -> (steps: Vec<Step>)
    ensures
        steps@ == root_script(base, state),
{
    let mut steps: Vec<Step> = Vec::new();
    push_link(&mut steps, base, RootLink::Sbin);
    push_link(&mut steps, base, RootLink::Bin);
    push_link(&mut steps, base, RootLink::Lib);
    push_link(&mut steps, base, RootLink::Lib64);
    push_link(&mut steps, base, RootLink::Lib32);
    steps.push(Step::Do(Action::CreateDirAll(place(base, Node::UsrLib))));
    steps.push(
        Step::Do(Action::Write(place(base, Node::OsRelease), Contents::OsRelease(state))),
    );
    assert(steps@ =~= root_script(base, state));
    steps
}

/// Writes the release information of a root.
pub fn record_os_release(base: Base, state: Option<state::Id>) -> (steps: Vec<Step>)
    ensures
        steps@ == os_release_script(base, state),
{
    let mut steps: Vec<Step> = Vec::new();
    steps.push(Step::When(Query::Exists(place(base, Node::UsrLib)), false, 1));
    steps.push(Step::Do(Action::CreateDir(place(base, Node::UsrLib))));
    steps.push(
        Step::Do(Action::Write(place(base, Node::OsRelease), Contents::OsRelease(state))),
    );
    steps
}

/// Swaps the staged `/usr` with the live one.
pub fn promote(ephemeral: bool) -> (steps: Vec<Step>)
    ensures
        steps@ == promote_script(ephemeral),
{
    let mut steps: Vec<Step> = Vec::new();
    if ephemeral {
        steps.push(Step::Do(Action::Refuse));
    } else {
        let live = place(Base::Root, Node::Usr);
        steps.push(Step::When(Query::TryExists(live), false, 1));
        steps.push(Step::Do(Action::CreateDirAll(live)));
        steps.push(Step::Do(Action::Exchange(place(Base::Staging, Node::Usr), live)));
    }
    steps
}

/// Moves the `/usr` that promotion left in staging to the tree of the state it belongs to.
pub fn archive(ephemeral: bool, id: state::Id) -> (steps: Vec<Step>)
    ensures
        steps@ == archive_script(ephemeral, id),
{
    let mut steps: Vec<Step> = Vec::new();
    if ephemeral {
        steps.push(Step::Do(Action::Refuse));
    } else {
        let tree = place(Base::Archive(id), Node::Itself);
        steps.push(Step::When(Query::Exists(tree), false, 1));
        steps.push(Step::Do(Action::CreateDirAll(tree)));
        steps.push(
            Step::Do(
                Action::Rename(
                    place(Base::Staging, Node::Usr),
                    place(Base::Archive(id), Node::Usr),
                ),
            ),
        );
    }
    steps
}

/// Makes an archived state the live one, and archives the live one.
pub fn activate(ephemeral: bool, new: state::Id, old: state::Id) -> (steps: Vec<Step>)
    ensures
        steps@ == activate_script(ephemeral, new, old),
{
    let mut steps: Vec<Step> = Vec::new();
    let staging = place(Base::Staging, Node::Itself);
    steps.push(Step::When(Query::Exists(staging), false, 1));
    steps.push(Step::Do(Action::CreateDir(staging)));
    steps.push(Step::Do(Action::Rename(place(Base::Archive(new), Node::Itself), staging)));
    let mut promotion = promote(ephemeral);
    steps.append(&mut promotion);
    let mut archival = archive(ephemeral, old);
    steps.append(&mut archival);
    steps.push(Step::Do(Action::QueryLayouts(None)));
    steps.push(Step::Do(Action::CollectTriggers(TriggerScope::System, None)));
    steps
}

/// Records a new state.
pub fn stateful(old: Option<state::Id>) -> (steps: Vec<Step>)
    ensures
        steps@ == stateful_script(old),
{
    let mut steps: Vec<Step> = Vec::new();
    steps.push(Step::Do(Action::RecordState(old)));
    steps
}

/// Blits the tree of a recorded state, makes it the live one, and archives the old state.
pub fn after_record(id: state::Id, old: Option<state::Id>) -> (steps: Vec<Step>)
    ensures
        steps@ == after_record_script(id, old),
{
    let mut steps: Vec<Step> = Vec::new();
    steps.push(Step::Do(Action::QueryLayouts(Some(Base::Staging))));
    steps.push(Step::Do(Action::CreateDirAll(place(Base::Staging, Node::Usr))));
    steps.push(
        Step::Do(Action::Write(place(Base::Staging, Node::StateId), Contents::StateId(id))),
    );
    let mut release = record_os_release(Base::Staging, Some(id));
    steps.append(&mut release);
    steps.push(Step::Do(Action::CollectTriggers(TriggerScope::Transaction, Some(id))));
    let mut promotion = promote(false);
    steps.append(&mut promotion);
    let mut links = create_root_links(Base::Root, Some(id));
    steps.append(&mut links);
    if let Some(old) = old {
        let mut archival = archive(false, old);
        steps.append(&mut archival);
    }
    steps.push(Step::Do(Action::CollectTriggers(TriggerScope::System, None)));
    steps
}

/// Blits a new tree to the root of an ephemeral client.
pub fn ephemeral() -> (steps: Vec<Step>)
    ensures
        steps@ == ephemeral_script(),
{
    let mut steps: Vec<Step> = Vec::new();
    steps.push(Step::Do(Action::QueryLayouts(Some(Base::BlitRoot))));
    let mut release = record_os_release(Base::BlitRoot, None);
    steps.append(&mut release);
    let mut links = create_root_links(Base::BlitRoot, None);
    steps.append(&mut links);
    let mut isolated = create_root_links(Base::Isolation, None);
    steps.append(&mut isolated);
    steps.push(Step::Do(Action::CreateDirAll(place(Base::BlitRoot, Node::Etc))));
    steps.push(Step::Do(Action::CollectTriggers(TriggerScope::Transaction, None)));
    steps.push(Step::Do(Action::CollectTriggers(TriggerScope::System, None)));
    steps
}

/// Adds every file to the tree, then finishes it.
pub fn tree(layouts: &Vec<(package::Id, Layout)>, target: Option<Base>) -> (steps: Vec<Step>)
    ensures
        steps@ == tree_script(layouts@, target),
{
    let mut steps: Vec<Step> = Vec::new();
    let mut i: usize = 0;
    while i < layouts.len()
        invariant
            i <= layouts@.len(),
            steps@ == tree_script(layouts@, target).take(i as int),
        decreases layouts@.len() - i,
    {
        let file = PendingFile { id: layouts[i].0.clone(), layout: layouts[i].1.clone() };
        steps.push(Step::Do(Action::Push(file)));
        i = i + 1;
        assert(steps@ =~= tree_script(layouts@, target).take(i as int));
    }
    steps.push(Step::Do(Action::Bake(target)));
    steps
}

/// Blits a finished tree.
pub fn blit(target: Base, root: &Option<Element>) -> (steps: Vec<Step>)
    requires
        super::blit::blittable_root(*root),
    ensures
        steps@ == blit_script(target, *root),
{
    let mut plan = blit_plan(target, root);
    let mut reversed: Vec<Step> = Vec::new();
    let ghost whole = plan@;
    while plan.len() > 0
        invariant
            whole == super::blit::blit_steps(target, *root),
            plan@.len() + reversed@.len() == whole.len(),
            plan@ == whole.take(plan@.len() as int),
            forall|i: int|
                0 <= i < reversed@.len() ==> #[trigger] reversed@[i] == Step::Do(
                    Action::Blit(whole[whole.len() - 1 - i]),
                ),
        decreases plan@.len(),
    {
        if let Some(step) = plan.pop() {
            reversed.push(Step::Do(Action::Blit(step)));
        }
    }
    let steps = reverse(reversed);
    assert(steps@ =~= blit_script(target, *root));
    steps
}

/// The steps in the opposite order.
pub fn reverse(steps: Vec<Step>) -> (reversed: Vec<Step>)
    ensures
        reversed@ == steps@.reverse(),
{
    let mut left = steps;
    let ghost whole = left@;
    let mut reversed: Vec<Step> = Vec::new();
    while left.len() > 0
        invariant
            left@.len() + reversed@.len() == whole.len(),
            left@ == whole.take(left@.len() as int),
            reversed@ == whole.reverse().take(reversed@.len() as int),
        decreases left@.len(),
    {
        if let Some(step) = left.pop() {
            reversed.push(step);
        }
        assert(reversed@ =~= whole.reverse().take(reversed@.len() as int));
    }
    assert(reversed@ =~= whole.reverse());
    reversed
}

/// Runs the triggers that were found, in order; with a state, the isolation root is set up first.
pub fn triggers(
    scope: TriggerScope,
    isolated: Option<state::Id>,
    count: usize,
) -> (steps: Vec<Step>)
    ensures
        steps@ == triggers_script(scope, isolated, count as nat),
{
    let mut steps: Vec<Step> = if isolated.is_some() {
        create_root_links(Base::Isolation, isolated)
    } else {
        Vec::new()
    };
    let ghost links = steps@;
    let mut i: usize = 0;
    while i < count
        invariant
            i <= count,
            steps@ == links + Seq::new(
                i as nat,
                |k: int| Step::Do(Action::ExecuteTrigger(scope, k as usize)),
            ),
        decreases count - i,
    {
        steps.push(Step::Do(Action::ExecuteTrigger(scope, i)));
        i = i + 1;
        assert(steps@ =~= links + Seq::new(
            i as nat,
            |k: int| Step::Do(Action::ExecuteTrigger(scope, k as usize)),
        ));
    }
    steps
}

// ---------------------------------------------------------------------------
// What follows from a reply
// ---------------------------------------------------------------------------

/// Whether `reply` is what the action is answered with when it went well.
pub open spec fn answers(action: Action, reply: Reply) -> bool {
    match action {
        Action::QueryLayouts(_) => reply is Layouts,
        Action::Bake(_) => reply is Tree,
        Action::RecordState(_) => reply is Recorded,
        Action::CollectTriggers(_, _) => reply is Collected,
        Action::Refuse => false,
        _ => reply is Done,
    }
}

/// The steps that an action calls for once it is answered; they come before the rest of the
/// script.
pub open spec fn follow_up(action: Action, reply: Reply) -> Seq<Step> {
    match (action, reply) {
        (Action::QueryLayouts(target), Reply::Layouts(layouts)) => tree_script(layouts@, target),
        (Action::Bake(Some(target)), Reply::Tree(root)) => blit_script(target, root),
        (Action::RecordState(old), Reply::Recorded(state)) => after_record_script(state.id, old),
        (Action::CollectTriggers(scope, isolated), Reply::Collected(count)) => triggers_script(
            scope,
            isolated,
            count as nat,
        ),
        _ => seq![],
    }
}

/// The error that a failed action leads to.
pub open spec fn failure(action: Action, cause: String) -> Error {
    match action {
        Action::CreateDir(_) | Action::CreateDirAll(_) | Action::RemoveFile(_) | Action::Rename(
            _,
            _,
        ) | Action::Symlink(_, _) | Action::Write(_, _) | Action::Blit(
            BlitStep::RemoveTarget(_),
        ) => Error::Io(cause),
        Action::Exchange(_, _) | Action::Blit(_) => Error::Blit(cause),
        Action::QueryLayouts(_) | Action::RecordState(_) => Error::Meta(cause),
        Action::Push(_) | Action::Bake(_) => Error::Filesystem(cause),
        Action::CollectTriggers(_, _) | Action::ExecuteTrigger(_, _) => Error::PostBlit(cause),
        Action::Refuse => Error::EphemeralProhibitedOperation,
    }
}

/// Whether the script goes on when the action fails.
pub open spec fn tolerated(action: Action) -> bool {
    action matches Action::Blit(BlitStep::MakeTarget(_, _))
}

/// Whether `reply` is what the action is answered with when it went well.
pub fn is_answer(action: &Action, reply: &Reply) -> (fits: bool)
    ensures
        fits == answers(*action, *reply),
{
    match action {
        Action::QueryLayouts(_) => matches!(reply, Reply::Layouts(_)),
        Action::Bake(_) => matches!(reply, Reply::Tree(_)),
        Action::RecordState(_) => matches!(reply, Reply::Recorded(_)),
        Action::CollectTriggers(_, _) => matches!(reply, Reply::Collected(_)),
        Action::Refuse => false,
        _ => matches!(reply, Reply::Done),
    }
}

/// The steps that an action calls for once it is answered.
pub fn next_steps(action: &Action, reply: &Reply) -> (steps: Vec<Step>)
    requires
        action is Bake && action->Bake_0 is Some && reply is Tree ==> super::blit::blittable_root(reply->Tree_0),
    ensures
        steps@ == follow_up(*action, *reply),
{
    match (action, reply) {
        (Action::QueryLayouts(target), Reply::Layouts(layouts)) => tree(layouts, *target),
        (Action::Bake(Some(target)), Reply::Tree(root)) => blit(*target, root),
        (Action::RecordState(old), Reply::Recorded(state)) => after_record(state.id, *old),
        (Action::CollectTriggers(scope, isolated), Reply::Collected(count)) => triggers(
            *scope,
            *isolated,
            *count,
        ),
        _ => Vec::new(),
    }
}

/// The error that a failed action leads to.
pub fn error_of(action: &Action, cause: String) -> (error: Error)
    ensures
        error == failure(*action, cause),
{
    match action {
        Action::CreateDir(_) | Action::CreateDirAll(_) | Action::RemoveFile(_) | Action::Rename(
            _,
            _,
        ) | Action::Symlink(_, _) | Action::Write(_, _) => Error::Io(cause),
        Action::Blit(BlitStep::RemoveTarget(_)) => Error::Io(cause),
        Action::Exchange(_, _) | Action::Blit(_) => Error::Blit(cause),
        Action::QueryLayouts(_) | Action::RecordState(_) => Error::Meta(cause),
        Action::Push(_) | Action::Bake(_) => Error::Filesystem(cause),
        Action::CollectTriggers(_, _) | Action::ExecuteTrigger(_, _) => Error::PostBlit(cause),
        Action::Refuse => Error::EphemeralProhibitedOperation,
    }
}

/// Whether the script goes on when the action fails.
pub fn is_tolerated(action: &Action) -> (goes_on: bool)
    ensures
        goes_on == tolerated(*action),
{
    match action {
        Action::Blit(BlitStep::MakeTarget(_, _)) => true,
        _ => false,
    }
}

// ---------------------------------------------------------------------------
// What holds of the steps that follow a reply
// ---------------------------------------------------------------------------

/// Once the layouts of the packages are known, the tree is built from all of them, one file for
/// each, in order: the file belongs to the package that the layout came with and has exactly
/// that layout, of whatever kind its entry is. Then the tree is finished.
pub proof fn every_layout_becomes_a_file(
    target: Option<Base>,
    layouts: Vec<(package::Id, Layout)>,
    i: int,
)
    requires
        0 <= i < layouts@.len(),
    ensures
        ({
            let steps = follow_up(Action::QueryLayouts(target), Reply::Layouts(layouts));
            &&& steps.len() == layouts@.len() + 1
            &&& steps[i] is Do
            &&& steps[i]->Do_0 is Push
            &&& steps[i]->Do_0->Push_0.id == layouts@[i].0
            &&& steps[i]->Do_0->Push_0.layout == layouts@[i].1
            &&& steps.last() == Step::Do(Action::Bake(target))
        }),
{
}

/// Packages without files make an empty tree.
pub proof fn no_layouts_make_an_empty_tree(
    target: Option<Base>,
    layouts: Vec<(package::Id, Layout)>,
)
    requires
        layouts@.len() == 0,
    ensures
        follow_up(Action::QueryLayouts(target), Reply::Layouts(layouts)) == seq![
            Step::Do(Action::Bake(target)),
        ],
{
}

/// A finished tree is blitted, step by step, to the directory that it was asked for, if it was
/// asked for one.
pub proof fn finished_trees_are_blitted(target: Base, root: Option<Element>)
    ensures
        follow_up(Action::Bake(None), Reply::Tree(root)) == Seq::<Step>::empty(),
        ({
            let steps = follow_up(Action::Bake(Some(target)), Reply::Tree(root));
            let plan = super::blit::blit_steps(target, root);
            &&& steps.len() == plan.len()
            &&& forall|i: int|
                0 <= i < plan.len() ==> #[trigger] steps[i] == Step::Do(Action::Blit(plan[i]))
        }),
{
}

/// Of the triggers that were found each is run once, in order, in the scope in which it was
/// found. Where the isolation root is to be set up, for a state, that comes before the first.
pub proof fn every_trigger_runs_once(
    scope: TriggerScope,
    isolated: Option<state::Id>,
    count: usize,
    i: usize,
)
    ensures
        ({
            let steps = follow_up(
                Action::CollectTriggers(scope, isolated),
                Reply::Collected(count),
            );
            let first = steps.len() - count;
            &&& first >= 0
            &&& isolated is None ==> first == 0
            &&& isolated is Some ==> steps.take(first) == root_script(Base::Isolation, isolated)
            &&& i < count ==> steps[first + i] == Step::Do(Action::ExecuteTrigger(scope, i))
        }),
{
    let steps = follow_up(Action::CollectTriggers(scope, isolated), Reply::Collected(count));
    assert(isolated is Some ==> steps.take(steps.len() - count) =~= root_script(
        Base::Isolation,
        isolated,
    ));
}

/// Nothing else that is done calls for further steps.
pub proof fn other_actions_lead_to_nothing_more(action: Action, reply: Reply)
    requires
        answers(action, reply),
        follow_up(action, reply).len() > 0,
    ensures
        action is QueryLayouts || action is Bake || action is RecordState
            || action is CollectTriggers,
{
}

/// A failure tells its cause. Which of the errors it is tells what failed: a change of the
/// filesystem, a blit or a swap, a query of the databases, the building of the tree, or a
/// trigger. That a client is ephemeral fails what it may not do.
pub proof fn errors_tell_what_failed(action: Action, cause: String)
    ensures
        failure(action, cause) == Error::Meta(cause) <==> action is QueryLayouts
            || action is RecordState,
        failure(action, cause) == Error::Filesystem(cause) <==> action is Push || action is Bake,
        failure(action, cause) == Error::PostBlit(cause) <==> action is CollectTriggers
            || action is ExecuteTrigger,
        failure(action, cause) == Error::EphemeralProhibitedOperation <==> action is Refuse,
        failure(action, cause) == Error::Blit(cause) <==> action is Exchange || (action is Blit
            && !(action->Blit_0 is RemoveTarget)),
        failure(action, cause) == Error::Io(cause) <==> action is CreateDir
            || action is CreateDirAll || action is RemoveFile || action is Rename
            || action is Symlink || action is Write || (action is Blit
            && action->Blit_0 is RemoveTarget),
{
}

/// Each reply but a plain confirmation answers one kind of action; a plain confirmation answers
/// all others but a refusal, which nothing answers. Only that the target of a blit could not be
/// made is of no account.
pub proof fn replies_fit_their_action(action: Action, reply: Reply)
    ensures
        reply is Layouts ==> (answers(action, reply) <==> action is QueryLayouts),
        reply is Tree ==> (answers(action, reply) <==> action is Bake),
        reply is Recorded ==> (answers(action, reply) <==> action is RecordState),
        reply is Collected ==> (answers(action, reply) <==> action is CollectTriggers),
        reply is Done ==> (answers(action, reply) <==> !(action is QueryLayouts || action is Bake
            || action is RecordState || action is CollectTriggers || action is Refuse)),
        reply is Flag || reply is Link || reply is Failed ==> !answers(action, reply),
        tolerated(action) <==> action is Blit && action->Blit_0 is MakeTarget,
{
}

} // verus!
