//! What a run does to the `/usr` trees of an installation.

use super::blit::{BlitStep, Element, Placed};
use super::place::{Base, Contents, Node};
use super::run::Progress;
use super::step::{Action, Reply, Step};
use crate::state;
use vstd::prelude::*;

verus! {

/// A tree, by how it was made. What triggers do to it is left out.
#[verifier::ext_equal]
pub struct Tree {
    /// The steps of the blit that made it.
    pub steps: Seq<Placed>,
    /// What the client wrote into it.
    pub files: Map<Node, Contents>,
}

impl Tree {
    /// A tree that is missing or empty.
    pub open spec fn nothing() -> Tree {
        Tree { steps: seq![], files: Map::empty() }
    }

    /// With a step of a blit.
    pub open spec fn with_step(self, step: Placed) -> Tree {
        Tree { steps: self.steps.push(step), ..self }
    }

    /// With a file of the client.
    pub open spec fn with_file(self, node: Node, contents: Contents) -> Tree {
        Tree { files: self.files.insert(node, contents), ..self }
    }
}

/// The `/usr` trees of an installation.
#[verifier::ext_equal]
pub struct Trees {
    /// The one in use.
    pub live: Tree,
    /// The one in the staging area.
    pub staged: Tree,
    /// Those of the archived states.
    pub archived: Map<state::Id, Tree>,
    /// The target of the blit that is under way.
    pub target: Option<Base>,
    /// The directory within the target that was entered last.
    pub here: Seq<String>,
}

impl Trees {
    /// Whether no blit is under way.
    pub open spec fn idle(self) -> bool {
        self.target is None && self.here == Seq::<String>::empty()
    }
}

/// The trees once a step of a blit was performed.
pub open spec fn laid(step: BlitStep, trees: Trees) -> Trees {
    match step {
        BlitStep::RemoveTarget(Base::Staging) => Trees { staged: Tree::nothing(), ..trees },
        BlitStep::OpenTarget(base) => Trees { target: Some(base), here: seq![], ..trees },
        BlitStep::CloseTarget => Trees { target: None, here: seq![], ..trees },
        BlitStep::Enter(name) => Trees { here: trees.here.push(name), ..trees },
        BlitStep::Leave => Trees { here: trees.here.drop_last(), ..trees },
        BlitStep::Link(_, _)
        | BlitStep::SetMode(_, _)
        | BlitStep::Symlink(_, _)
        | BlitStep::MakeDir(_, _) => if trees.target == Some(Base::Staging) {
            Trees { staged: trees.staged.with_step((trees.here, step)), ..trees }
        } else {
            trees
        },
        _ => trees,
    }
}

/// The trees once an action was performed.
pub open spec fn effect(action: Action, trees: Trees) -> Trees {
    match action {
        Action::Blit(step) => laid(step, trees),
        Action::Write(location, contents) => match location.base {
            Base::Staging => Trees {
                staged: trees.staged.with_file(location.node, contents),
                ..trees
            },
            Base::Root => Trees { live: trees.live.with_file(location.node, contents), ..trees },
            _ => trees,
        },
        Action::Exchange(a, b) => if a == super::step::at(Base::Staging, Node::Usr) && b
            == super::step::at(Base::Root, Node::Usr) {
            Trees { live: trees.staged, staged: trees.live, ..trees }
        } else {
            trees
        },
        Action::Rename(from, to) => match (from.base, from.node, to.base, to.node) {
            (Base::Staging, Node::Usr, Base::Archive(id), Node::Usr) => Trees {
                staged: Tree::nothing(),
                archived: trees.archived.insert(id, trees.staged),
                ..trees
            },
            (Base::Archive(id), Node::Itself, Base::Staging, Node::Itself) => Trees {
                staged: trees.archived[id],
                archived: trees.archived.remove(id),
                ..trees
            },
            _ => trees,
        },
        _ => trees,
    }
}

/// How far a script is, and what became of the trees, after it was given `replies`.
pub open spec fn journey(script: Seq<Step>, replies: Seq<Reply>, trees: Trees) -> (Progress, Trees)
    decreases replies.len(),
{
    if replies.len() == 0 {
        (Progress::start(script), trees)
    } else {
        let (run, trees) = journey(script, replies.drop_last(), trees);
        (run.next(replies.last()), touched(run, replies.last(), trees))
    }
}

/// The trees once the open request was answered with `reply`.
pub open spec fn touched(run: Progress, reply: Reply, trees: Trees) -> Trees {
    if run.failure is None && run.pending.len() > 0 && run.pending[0] is Do
        && super::step::answers(run.pending[0]->Do_0, reply) {
        effect(run.pending[0]->Do_0, trees)
    } else {
        trees
    }
}

/// Whether the staged tree and the live one have been swapped in the course of `replies`.
pub open spec fn exchanged(script: Seq<Step>, replies: Seq<Reply>, trees: Trees) -> bool
    decreases replies.len(),
{
    if replies.len() == 0 {
        false
    } else {
        let run = journey(script, replies.drop_last(), trees).0;
        exchanged(script, replies.drop_last(), trees) || (run.failure is None && run.pending.len()
            > 0 && run.pending[0] is Do && run.pending[0]->Do_0 is Exchange
            && super::step::answers(run.pending[0]->Do_0, replies.last()))
    }
}

/// The trees once the archived state `new` is the live one and `old`, which was, is archived.
pub open spec fn activated(trees: Trees, new: state::Id, old: state::Id) -> Trees {
    Trees {
        live: trees.archived[new],
        staged: Tree::nothing(),
        archived: trees.archived.remove(new).insert(old, trees.live),
        ..trees
    }
}

/// The trees once `tree` is the live one and `old`, if there was one, is archived.
pub open spec fn renewed(trees: Trees, tree: Tree, old: Option<state::Id>) -> Trees {
    match old {
        Some(old) => Trees {
            live: tree,
            staged: Tree::nothing(),
            archived: trees.archived.insert(old, trees.live),
            ..trees
        },
        None => Trees { live: tree, staged: trees.live, ..trees },
    }
}

/// The tree of a recorded state, once it is blitted: it says which state it belongs to.
pub open spec fn state_tree(root: Option<Element>, id: state::Id) -> Tree {
    Tree { steps: super::blit::blitted(root), files: Map::empty() }.with_file(
        Node::StateId,
        Contents::StateId(id),
    ).with_file(Node::OsRelease, Contents::OsRelease(Some(id)))
}

/// Whether `tree` is that of the state that was recorded, blitted from a tree that was built in
/// the course of `replies`.
pub open spec fn is_state_tree(tree: Tree, recorded: Option<state::State>, replies: Seq<Reply>) -> bool {
    recorded matches Some(state) && exists|i: int|
        0 <= i < replies.len() && built_from(tree, state.id, #[trigger] replies[i])
}

/// Whether `tree` is that of the state, blitted from the tree of `reply`.
pub open spec fn built_from(tree: Tree, id: state::Id, reply: Reply) -> bool {
    reply matches Reply::Tree(root) && tree == state_tree(root, id)
}

// ---------------------------------------------------------------------------
// What a blit lays down
// ---------------------------------------------------------------------------

spec fn laid_all(steps: Seq<BlitStep>, trees: Trees) -> Trees
    decreases steps.len(),
{
    if steps.len() == 0 {
        trees
    } else {
        laid(steps.last(), laid_all(steps.drop_last(), trees))
    }
}

proof fn lemma_laid_concat(a: Seq<BlitStep>, b: Seq<BlitStep>, trees: Trees)
    ensures
        laid_all(a + b, trees) == laid_all(b, laid_all(a, trees)),
    decreases b.len(),
{
    if b.len() == 0 {
        assert(a + b =~= a);
    } else {
        lemma_laid_concat(a, b.drop_last(), trees);
        assert((a + b).drop_last() =~= a + b.drop_last());
    }
}

/// Steps within the staging area lay down what they amount to.
proof fn lemma_laid_inner(steps: Seq<BlitStep>, trees: Trees)
    requires
        super::blit::all_inner(steps),
        trees.target == Some(Base::Staging),
    ensures
        laid_all(steps, trees) == (Trees {
            staged: Tree {
                steps: trees.staged.steps + super::blit::replay(steps, trees.here).0,
                ..trees.staged
            },
            here: super::blit::replay(steps, trees.here).1,
            ..trees
        }),
    decreases steps.len(),
{
    if steps.len() == 0 {
        assert(trees.staged.steps + super::blit::replay(steps, trees.here).0
            =~= trees.staged.steps);
    } else {
        lemma_laid_inner(steps.drop_last(), trees);
        assert(super::blit::is_inner(steps[steps.len() - 1]));
        assert(trees.staged.steps + super::blit::replay(steps, trees.here).0
            =~= laid_all(steps, trees).staged.steps);
    }
}

/// A blit to the staging area leaves there what the tree asks for.
proof fn lemma_laid_blit(root: Option<Element>, trees: Trees)
    requires
        trees.idle(),
    ensures
        laid_all(super::blit::blit_steps(Base::Staging, root), trees) == (Trees {
            staged: Tree { steps: super::blit::blitted(root), files: Map::empty() },
            ..trees
        }),
{
    let clear = seq![BlitStep::OpenCache, BlitStep::RemoveTarget(Base::Staging)];
    let open = seq![
        BlitStep::MakeTarget(Base::Staging, 0o755),
        BlitStep::OpenTarget(Base::Staging),
    ];
    let close = seq![BlitStep::CloseTarget];
    let cleared = Trees { staged: Tree::nothing(), ..trees };
    let opened = Trees { target: Some(Base::Staging), here: seq![], ..cleared };
    assert(laid_all(clear, trees) == cleared && laid_all(open, cleared) == opened) by {
        reveal_with_fuel(laid_all, 3);
        assert(clear.drop_last().drop_last() =~= seq![]);
        assert(open.drop_last().drop_last() =~= seq![]);
    }
    match root {
        Some(Element::Directory(_, _, children)) => {
            let inner = super::blit::children_steps(children@);
            let filled = Trees { staged: Tree { steps: super::blit::blitted(root), files: Map::empty() }, ..opened };
            super::blit::lemma_children_inner(children@);
            super::blit::lemma_replay_children(children@, seq![]);
            lemma_laid_inner(inner, opened);
            assert(laid_all(inner, opened) =~= filled);
            lemma_laid_concat(clear, open, trees);
            lemma_laid_concat(clear + open, inner, trees);
            lemma_laid_concat(clear + open + inner, close, trees);
            assert(laid_all(close, filled) == laid(BlitStep::CloseTarget, filled)) by {
                reveal_with_fuel(laid_all, 2);
                assert(close.drop_last() =~= seq![]);
            }
            assert(laid(BlitStep::CloseTarget, filled) =~= Trees {
                staged: Tree { steps: super::blit::blitted(root), files: Map::empty() },
                ..trees
            });
        },
        Some(Element::Child(_, _)) => {
            lemma_laid_concat(clear, open, trees);
            lemma_laid_concat(clear + open, close, trees);
            assert(laid_all(close, opened) == laid(BlitStep::CloseTarget, opened)) by {
                reveal_with_fuel(laid_all, 2);
                assert(close.drop_last() =~= seq![]);
            }
            assert(laid(BlitStep::CloseTarget, opened) =~= cleared);
        },
        None => {},
    }
}

// ---------------------------------------------------------------------------
// Moves
// ---------------------------------------------------------------------------

/// Whether a step leaves the trees as they are, together with all that follows from it.
pub open spec fn still(step: Step) -> bool {
    match step {
        Step::When(_, _, _) => true,
        Step::Do(action) => match action {
            Action::Rename(from, to) => !(from.base is Staging && from.node is Usr) && !(
            from.base is Archive && from.node is Itself),
            Action::Write(location, _) => !(location.base is Staging || location.base is Root),
            Action::Exchange(_, _) | Action::RecordState(_) | Action::Blit(_) => false,
            Action::QueryLayouts(target) | Action::Bake(target) => target is None,
            _ => true,
        },
    }
}

spec fn all_still(steps: Seq<Step>) -> bool {
    forall|i: int| 0 <= i < steps.len() ==> still(#[trigger] steps[i])
}

/// Whether only steps that leave the trees as they are can be passed over.
pub open spec fn guarded(steps: Seq<Step>) -> bool {
    forall|i: int| 0 <= i < steps.len() ==> guards_still(steps, #[trigger] steps[i], i)
}

/// Whether the step at `i` can only pass over steps that leave the trees as they are.
pub open spec fn guards_still(steps: Seq<Step>, step: Step, i: int) -> bool {
    match step {
        Step::When(_, _, count) => {
            &&& i + count < steps.len()
            &&& forall|j: int| i < j <= i + count ==> still(#[trigger] steps[j])
        },
        _ => true,
    }
}

/// Guarded steps after guarded steps are guarded.
pub proof fn lemma_guarded_concat(a: Seq<Step>, b: Seq<Step>)
    requires
        guarded(a),
        guarded(b),
    ensures
        guarded(a + b),
{
    let whole = a + b;
    assert forall|i: int| 0 <= i < whole.len() implies guards_still(
        whole,
        #[trigger] whole[i],
        i,
    ) by {
        if i < a.len() {
            assert(guards_still(a, a[i], i));
            if let Step::When(_, _, count) = whole[i] {
                assert forall|j: int| i < j <= i + count implies still(#[trigger] whole[j]) by {
                    assert(whole[j] == a[j]);
                }
            }
        } else {
            assert(guards_still(b, b[i - a.len()], i - a.len()));
            if let Step::When(_, _, count) = whole[i] {
                assert forall|j: int| i < j <= i + count implies still(#[trigger] whole[j]) by {
                    assert(whole[j] == b[j - a.len()]);
                }
            }
        }
    }
}

/// Guarded steps stay guarded where the first are left out.
pub proof fn lemma_guarded_skip(steps: Seq<Step>, n: int)
    requires
        guarded(steps),
        0 <= n <= steps.len(),
    ensures
        guarded(steps.skip(n)),
{
    let rest = steps.skip(n);
    assert forall|i: int| 0 <= i < rest.len() implies guards_still(
        rest,
        #[trigger] rest[i],
        i,
    ) by {
        assert(guards_still(steps, steps[n + i], n + i));
        if let Step::When(_, _, count) = rest[i] {
            assert forall|j: int| i < j <= i + count implies still(#[trigger] rest[j]) by {
                assert(rest[j] == steps[n + j]);
            }
        }
    }
}

/// The steps that do something to the trees.
#[verifier::opaque]
spec fn moves(steps: Seq<Step>) -> Seq<Step> {
    steps.filter(|step: Step| !still(step))
}

proof fn lemma_moves_concat(a: Seq<Step>, b: Seq<Step>)
    ensures
        moves(a + b) == moves(a) + moves(b),
{
    reveal(moves);
    Seq::filter_distributes_over_add(a, b, |step: Step| !still(step));
}

proof fn lemma_moves_still(steps: Seq<Step>)
    requires
        all_still(steps),
    ensures
        moves(steps) == Seq::<Step>::empty(),
{
    reveal(moves);
    let moving = |step: Step| !still(step);
    assert forall|i: int| 0 <= i < steps.len() implies !moving(#[trigger] steps[i]) by {
        assert(still(steps[i]));
    }
    steps.lemma_all_neg_filter_empty(moving);
}

proof fn lemma_moves_single(step: Step)
    requires
        !still(step),
    ensures
        moves(seq![step]) == seq![step],
{
    reveal(moves);
    let moving = |step: Step| !still(step);
    assert(seq![step] =~= Seq::<Step>::empty().push(step));
    Seq::<Step>::empty().lemma_filter_push(step, moving);
    lemma_moves_still(seq![]);
}

/// The moves of steps of which all but one leave the trees as they are.
proof fn lemma_moves_of_one(steps: Seq<Step>, k: int)
    requires
        0 <= k < steps.len(),
        !still(steps[k]),
        forall|i: int| 0 <= i < steps.len() && i != k ==> still(#[trigger] steps[i]),
    ensures
        moves(steps) == seq![steps[k]],
{
    let a = steps.take(k);
    let b = steps.skip(k + 1);
    assert(steps =~= a + seq![steps[k]] + b);
    assert forall|i: int| 0 <= i < b.len() implies still(#[trigger] b[i]) by {
        assert(b[i] == steps[k + 1 + i]);
    }
    lemma_moves_still(a);
    lemma_moves_single(steps[k]);
    lemma_moves_still(b);
    lemma_moves_concat(a, seq![steps[k]]);
    lemma_moves_concat(a + seq![steps[k]], b);
    assert(moves(steps) =~= seq![steps[k]]);
}

/// The moves of steps none of which leaves the trees as they are.
proof fn lemma_moves_all(steps: Seq<Step>)
    requires
        forall|i: int| 0 <= i < steps.len() ==> !still(#[trigger] steps[i]),
    ensures
        moves(steps) == steps,
    decreases steps.len(),
{
    if steps.len() == 0 {
        lemma_moves_still(steps);
    } else {
        let head = seq![steps[0]];
        let rest = steps.skip(1);
        assert(steps =~= head + rest);
        lemma_moves_single(steps[0]);
        assert forall|i: int| 0 <= i < rest.len() implies !still(#[trigger] rest[i]) by {
            assert(rest[i] == steps[i + 1]);
        }
        lemma_moves_all(rest);
        lemma_moves_concat(head, rest);
    }
}

/// Setting a root up does nothing to the trees but to write the release information.
proof fn lemma_root(base: Base, state: Option<state::Id>)
    ensures
        super::step::root_script(base, state).len() == 27,
        guarded(super::step::root_script(base, state)),
        forall|i: int|
            0 <= i < 26 ==> still(#[trigger] super::step::root_script(base, state)[i]),
        base is Isolation ==> all_still(super::step::root_script(base, state)),
{
    let script = super::step::root_script(base, state);
    let links = super::step::root_links_script(base);
    assert(links.len() == 25);
    assert forall|i: int| 0 <= i < links.len() implies guards_still(
        links,
        #[trigger] links[i],
        i,
    ) by {}
    assert(all_still(links));
    assert(script =~= links + script.skip(25));
    assert(guarded(script.skip(25)));
    lemma_guarded_concat(links, script.skip(25));
    assert forall|i: int| 0 <= i < 26 implies still(#[trigger] script[i]) by {
        if i < 25 {
            assert(script[i] == links[i]);
            assert(still(links[i]));
        }
    }
}

proof fn lemma_after_record_guarded(id: state::Id, old: Option<state::Id>)
    ensures
        guarded(super::step::after_record_script(id, old)),
{
    let stage = seq![
        Step::Do(Action::QueryLayouts(Some(Base::Staging))),
        Step::Do(Action::CreateDirAll(super::step::at(Base::Staging, Node::Usr))),
        Step::Do(
            Action::Write(
                super::step::at(Base::Staging, Node::StateId),
                super::place::Contents::StateId(id),
            ),
        ),
    ];
    let release = super::step::os_release_script(Base::Staging, Some(id));
    let before = seq![
        Step::Do(Action::CollectTriggers(super::step::TriggerScope::Transaction, Some(id))),
    ];
    let promote = super::step::promote_script(false);
    let root = super::step::root_script(Base::Root, Some(id));
    let archive = match old {
        Some(old) => super::step::archive_script(false, old),
        None => seq![],
    };
    let last = seq![
        Step::Do(Action::CollectTriggers(super::step::TriggerScope::System, None)),
    ];
    lemma_root(Base::Root, Some(id));
    lemma_guarded_concat(stage, release);
    lemma_guarded_concat(stage + release, before);
    lemma_guarded_concat(stage + release + before, promote);
    lemma_guarded_concat(stage + release + before + promote, root);
    lemma_guarded_concat(stage + release + before + promote + root, archive);
    lemma_guarded_concat(stage + release + before + promote + root + archive, last);
}

proof fn lemma_activate_guarded(new: state::Id, old: state::Id)
    ensures
        guarded(super::step::activate_script(false, new, old)),
{
    let script = super::step::activate_script(false, new, old);
    let stage = script.take(3);
    let promote = super::step::promote_script(false);
    let archive = super::step::archive_script(false, old);
    let last = script.skip(9);
    assert(script =~= stage + promote + archive + last);
    lemma_guarded_concat(stage, promote);
    lemma_guarded_concat(stage + promote, archive);
    lemma_guarded_concat(stage + promote + archive, last);
}

/// What follows from a step is guarded.
pub proof fn lemma_follow_up_guarded(action: Action, reply: Reply)
    ensures
        guarded(super::step::follow_up(action, reply)),
{
    let steps = super::step::follow_up(action, reply);
    match (action, reply) {
        (Action::QueryLayouts(target), Reply::Layouts(layouts)) => {
            assert forall|i: int| 0 <= i < steps.len() implies guards_still(
                steps,
                #[trigger] steps[i],
                i,
            ) by {
                assert(steps[i] is Do);
            }
        },
        (Action::Bake(Some(target)), Reply::Tree(root)) => {
            let plan = super::blit::blit_steps(target, root);
            assert forall|i: int| 0 <= i < steps.len() implies guards_still(
                steps,
                #[trigger] steps[i],
                i,
            ) by {
                assert(steps[i] == Step::Do(Action::Blit(plan[i])));
            }
        },
        (Action::RecordState(old), Reply::Recorded(state)) => {
            lemma_after_record_guarded(state.id, old);
        },
        (Action::CollectTriggers(scope, isolated), Reply::Collected(count)) => {
            let isolation = if isolated is Some {
                super::step::root_script(Base::Isolation, isolated)
            } else {
                seq![]
            };
            let runs = Seq::new(
                count as nat,
                |i: int| Step::Do(Action::ExecuteTrigger(scope, i as usize)),
            );
            lemma_root(Base::Isolation, isolated);
            assert forall|i: int| 0 <= i < runs.len() implies guards_still(
                runs,
                #[trigger] runs[i],
                i,
            ) by {}
            lemma_guarded_concat(isolation, runs);
        },
        _ => {},
    }
}

/// What follows from a step that leaves the trees as they are leaves them so too.
proof fn lemma_still_follow_up(action: Action, reply: Reply)
    requires
        still(Step::Do(action)),
    ensures
        all_still(super::step::follow_up(action, reply)),
{
    let steps = super::step::follow_up(action, reply);
    match (action, reply) {
        (Action::QueryLayouts(target), Reply::Layouts(layouts)) => {
            assert forall|i: int| 0 <= i < steps.len() implies still(#[trigger] steps[i]) by {
                if i == layouts@.len() {
                    assert(steps[i] == Step::Do(Action::Bake(target)));
                } else {
                    assert(steps[i] is Do && steps[i]->Do_0 is Push);
                }
            }
        },
        (Action::CollectTriggers(scope, isolated), Reply::Collected(count)) => {
            lemma_root(Base::Isolation, isolated);
        },
        _ => {},
    }
}

/// Whether the script goes past the action when it is answered with `reply`.
spec fn passes(action: Action, reply: Reply) -> bool {
    super::step::answers(action, reply) || (reply is Failed && super::step::tolerated(action))
}

/// One reply: either nothing happens to the trees, or the next move is made.
proof fn lemma_move(run: Progress, reply: Reply, now: Trees)
    requires
        run.failure is None,
        guarded(run.pending),
    ensures
        ({
            let next = run.next(reply);
            let after = touched(run, reply, now);
            let exchange = run.pending.len() > 0 && run.pending[0] is Do && run.pending[0]->Do_0
                is Exchange && super::step::answers(run.pending[0]->Do_0, reply);
            let left = moves(run.pending);
            ||| after == now && !exchange && (next.failure is None ==> moves(next.pending) == left)
            ||| {
                &&& left.len() > 0
                &&& left[0] is Do
                &&& passes(left[0]->Do_0, reply)
                &&& exchange == (left[0]->Do_0 is Exchange)
                &&& after == effect(left[0]->Do_0, now)
                &&& next.failure is None ==> moves(next.pending) == moves(
                    super::step::follow_up(left[0]->Do_0, reply),
                ) + left.skip(1)
            }
        }),
        run.next(reply).failure is None ==> guarded(run.next(reply).pending),
{
    if run.pending.len() > 0 {
        let head = run.pending[0];
        let rest = run.pending.skip(1);
        assert(run.pending =~= seq![head] + rest);
        lemma_moves_concat(seq![head], rest);
        lemma_guarded_skip(run.pending, 1);
        match head {
            Step::Do(action) => {
                let next = super::step::follow_up(action, reply);
                lemma_follow_up_guarded(action, reply);
                lemma_guarded_concat(next, rest);
                lemma_moves_concat(next, rest);
                if still(head) {
                    lemma_moves_still(seq![head]);
                    assert(moves(run.pending) =~= moves(rest));
                    lemma_still_follow_up(action, reply);
                    lemma_moves_still(next);
                    assert(moves(next + rest) =~= moves(rest));
                } else {
                    lemma_moves_single(head);
                    assert(moves(run.pending).skip(1) =~= moves(rest));
                    assert(moves(run.pending)[0] == head);
                    if reply is Failed {
                        assert(next =~= seq![]);
                        lemma_moves_still(next);
                        assert(moves(next) + moves(rest) =~= moves(rest));
                    }
                }
            },
            Step::When(_, _, count) => {
                let passed = run.pending.subrange(1, 1 + count);
                let left = run.pending.skip(1 + count);
                assert(guards_still(run.pending, run.pending[0], 0));
                lemma_guarded_skip(run.pending, 1 + count);
                lemma_moves_still(seq![head]);
                assert(moves(run.pending) =~= moves(rest));
                assert(rest =~= passed + left);
                assert forall|i: int| 0 <= i < passed.len() implies still(
                    #[trigger] passed[i],
                ) by {
                    assert(passed[i] == run.pending[1 + i]);
                }
                lemma_moves_concat(passed, left);
                lemma_moves_still(passed);
                assert(moves(rest) =~= moves(left));
            },
        }
    }
}

// ---------------------------------------------------------------------------
// Activation
// ---------------------------------------------------------------------------

spec fn unstage_step(new: state::Id) -> Step {
    Step::Do(
        Action::Rename(
            super::step::at(Base::Archive(new), Node::Itself),
            super::step::at(Base::Staging, Node::Itself),
        ),
    )
}

spec fn swap_step() -> Step {
    Step::Do(
        Action::Exchange(
            super::step::at(Base::Staging, Node::Usr),
            super::step::at(Base::Root, Node::Usr),
        ),
    )
}

spec fn archive_step(old: state::Id) -> Step {
    Step::Do(
        Action::Rename(
            super::step::at(Base::Staging, Node::Usr),
            super::step::at(Base::Archive(old), Node::Usr),
        ),
    )
}

proof fn lemma_archive_moves(old: state::Id)
    ensures
        moves(super::step::archive_script(false, old)) == seq![archive_step(old)],
{
    lemma_moves_of_one(super::step::archive_script(false, old), 2);
}

proof fn lemma_promote_moves()
    ensures
        moves(super::step::promote_script(false)) == seq![swap_step()],
{
    lemma_moves_of_one(super::step::promote_script(false), 2);
}

proof fn lemma_activate_moves(new: state::Id, old: state::Id)
    ensures
        moves(super::step::activate_script(false, new, old)) == seq![
            unstage_step(new),
            swap_step(),
            archive_step(old),
        ],
{
    let script = super::step::activate_script(false, new, old);
    let stage = script.take(3);
    let promote = super::step::promote_script(false);
    let archive = super::step::archive_script(false, old);
    let last = script.skip(9);
    assert(script =~= stage + promote + archive + last);
    lemma_moves_of_one(stage, 2);
    lemma_promote_moves();
    lemma_archive_moves(old);
    lemma_moves_still(last);
    lemma_moves_concat(stage, promote);
    lemma_moves_concat(stage + promote, archive);
    lemma_moves_concat(stage + promote + archive, last);
    assert(moves(script) =~= seq![unstage_step(new), swap_step(), archive_step(old)]);
}

/// How far an activation is, by the moves that are left, and where the trees are then.
spec fn activating(
    left: Seq<Step>,
    now: Trees,
    swapped: bool,
    new: state::Id,
    old: state::Id,
    trees: Trees,
) -> bool {
    let unstaged = Trees {
        staged: trees.archived[new],
        archived: trees.archived.remove(new),
        ..trees
    };
    let live = Trees { live: trees.archived[new], staged: trees.live, ..unstaged };
    ||| !swapped && now == trees && left == seq![
        unstage_step(new),
        swap_step(),
        archive_step(old),
    ]
    ||| !swapped && now == unstaged && left == seq![swap_step(), archive_step(old)]
    ||| swapped && now == live && left == seq![archive_step(old)]
    ||| swapped && now == activated(trees, new, old) && left == Seq::<Step>::empty()
}

proof fn lemma_activating(
    new: state::Id,
    old: state::Id,
    replies: Seq<Reply>,
    trees: Trees,
) -> (left: Seq<Step>)
    ensures
        ({
            let script = super::step::activate_script(false, new, old);
            let (run, now) = journey(script, replies, trees);
            &&& activating(left, now, exchanged(script, replies, trees), new, old, trees)
            &&& run.failure is None ==> guarded(run.pending) && moves(run.pending) == left
        }),
    decreases replies.len(),
{
    let script = super::step::activate_script(false, new, old);
    lemma_activate_guarded(new, old);
    lemma_activate_moves(new, old);
    if replies.len() == 0 {
        moves(script)
    } else {
        let before = lemma_activating(new, old, replies.drop_last(), trees);
        let (run, now) = journey(script, replies.drop_last(), trees);
        let reply = replies.last();
        if run.failure is None {
            lemma_move(run, reply, now);
            let next = run.next(reply);
            let after = touched(run, reply, now);
            if after == now && exchanged(script, replies, trees) == exchanged(
                script,
                replies.drop_last(),
                trees,
            ) && (next.failure is None ==> moves(next.pending) == before) {
                before
            } else {
                let action = before[0]->Do_0;
                lemma_moves_still(seq![]);
                assert(super::step::follow_up(action, reply) =~= seq![]);
                assert(Seq::<Step>::empty() + before.skip(1) =~= before.skip(1));
                let (unstage, swap, archive) = (unstage_step(new), swap_step(), archive_step(old));
                if before == seq![unstage, swap, archive] {
                    assert(before.skip(1) =~= seq![swap, archive]);
                } else if before == seq![swap, archive] {
                    assert(before.skip(1) =~= seq![archive]);
                } else {
                    assert(before.skip(1) =~= Seq::<Step>::empty());
                }
                before.skip(1)
            }
        } else {
            before
        }
    }
}

// ---------------------------------------------------------------------------
// New states
// ---------------------------------------------------------------------------

spec fn query_step() -> Step {
    Step::Do(Action::QueryLayouts(Some(Base::Staging)))
}

spec fn bake_step() -> Step {
    Step::Do(Action::Bake(Some(Base::Staging)))
}

spec fn record_step(old: Option<state::Id>) -> Step {
    Step::Do(Action::RecordState(old))
}

spec fn id_step(id: state::Id) -> Step {
    Step::Do(
        Action::Write(super::step::at(Base::Staging, Node::StateId), Contents::StateId(id)),
    )
}

spec fn release_step(base: Base, id: state::Id) -> Step {
    Step::Do(
        Action::Write(super::step::at(base, Node::OsRelease), Contents::OsRelease(Some(id))),
    )
}

spec fn old_moves(old: Option<state::Id>) -> Seq<Step> {
    match old {
        Some(old) => seq![archive_step(old)],
        None => seq![],
    }
}

/// The moves that make a blitted tree live.
spec fn live_moves(id: state::Id, old: Option<state::Id>) -> Seq<Step> {
    seq![
        id_step(id),
        release_step(Base::Staging, id),
        swap_step(),
        release_step(Base::Root, id),
    ] + old_moves(old)
}

proof fn lemma_after_record_moves(id: state::Id, old: Option<state::Id>)
    ensures
        moves(super::step::after_record_script(id, old)) == seq![query_step()] + live_moves(
            id,
            old,
        ),
{
    let make = Step::Do(Action::CreateDirAll(super::step::at(Base::Staging, Node::Usr)));
    let stage = seq![query_step(), make, id_step(id)];
    let release = super::step::os_release_script(Base::Staging, Some(id));
    let before = seq![
        Step::Do(Action::CollectTriggers(super::step::TriggerScope::Transaction, Some(id))),
    ];
    let promote = super::step::promote_script(false);
    let root = super::step::root_script(Base::Root, Some(id));
    let archive = match old {
        Some(old) => super::step::archive_script(false, old),
        None => seq![],
    };
    let last = seq![
        Step::Do(Action::CollectTriggers(super::step::TriggerScope::System, None)),
    ];
    assert(moves(stage) == seq![query_step(), id_step(id)]) by {
        assert(stage =~= seq![query_step(), make] + seq![id_step(id)]);
        lemma_moves_of_one(seq![query_step(), make], 0);
        lemma_moves_single(id_step(id));
        lemma_moves_concat(seq![query_step(), make], seq![id_step(id)]);
        assert(seq![query_step()] + seq![id_step(id)] =~= seq![query_step(), id_step(id)]);
    }
    lemma_moves_of_one(release, 2);
    lemma_moves_still(before);
    lemma_promote_moves();
    lemma_root(Base::Root, Some(id));
    assert(root[26] == release_step(Base::Root, id));
    lemma_moves_of_one(root, 26);
    match old {
        Some(old) => {
            lemma_archive_moves(old);
        },
        None => {
            lemma_moves_still(archive);
        },
    }
    lemma_moves_still(last);
    lemma_moves_chain(stage, release, before, promote, root, archive, last);
    lemma_live_moves(id, old);
}

proof fn lemma_live_moves(id: state::Id, old: Option<state::Id>)
    ensures
        seq![query_step(), id_step(id)] + seq![release_step(Base::Staging, id)] + Seq::<
            Step,
        >::empty() + seq![swap_step()] + seq![release_step(Base::Root, id)] + old_moves(old)
            + Seq::<Step>::empty() == seq![query_step()] + live_moves(id, old),
{
    assert(seq![query_step(), id_step(id)] + seq![release_step(Base::Staging, id)] + Seq::<
        Step,
    >::empty() + seq![swap_step()] + seq![release_step(Base::Root, id)] + old_moves(old) + Seq::<
        Step,
    >::empty() =~= seq![query_step()] + live_moves(id, old));
}

proof fn lemma_moves_chain(
    a: Seq<Step>,
    b: Seq<Step>,
    c: Seq<Step>,
    d: Seq<Step>,
    e: Seq<Step>,
    f: Seq<Step>,
    g: Seq<Step>,
)
    ensures
        moves(a + b + c + d + e + f + g) == moves(a) + moves(b) + moves(c) + moves(d) + moves(e)
            + moves(f) + moves(g),
{
    lemma_moves_concat(a, b);
    lemma_moves_concat(a + b, c);
    lemma_moves_concat(a + b + c, d);
    lemma_moves_concat(a + b + c + d, e);
    lemma_moves_concat(a + b + c + d + e, f);
    lemma_moves_concat(a + b + c + d + e + f, g);
}

/// How far a new state is; from the record on, with the state's number.
enum Stage {
    /// It is to be recorded.
    Record,
    /// Its layouts are to be asked for.
    Query(state::Id),
    /// Its tree is to be finished.
    Bake(state::Id),
    /// Its tree is being blitted, and so many steps of that are done.
    Blit(state::Id, Option<Element>, int),
    /// Its tree is blitted, and so many of the moves that make it live are done.
    Live(state::Id, Option<Element>, int),
}

/// The moves that are left at a stage.
spec fn left_at(stage: Stage, old: Option<state::Id>) -> Seq<Step> {
    match stage {
        Stage::Record => seq![record_step(old)],
        Stage::Query(id) => seq![query_step()] + live_moves(id, old),
        Stage::Bake(id) => seq![bake_step()] + live_moves(id, old),
        Stage::Blit(id, root, i) => super::step::blit_script(Base::Staging, root).skip(i)
            + live_moves(id, old),
        Stage::Live(id, _, k) => live_moves(id, old).skip(k),
    }
}

/// Where the trees are at a stage.
spec fn trees_at(stage: Stage, old: Option<state::Id>, trees: Trees) -> Trees {
    match stage {
        Stage::Record | Stage::Query(_) | Stage::Bake(_) => trees,
        Stage::Blit(_, root, i) => laid_all(
            super::blit::blit_steps(Base::Staging, root).take(i),
            trees,
        ),
        Stage::Live(id, root, k) => {
            let plain = Tree { steps: super::blit::blitted(root), files: Map::empty() };
            if k == 0 {
                Trees { staged: plain, ..trees }
            } else if k == 1 {
                Trees { staged: plain.with_file(Node::StateId, Contents::StateId(id)), ..trees }
            } else if k == 2 {
                Trees { staged: state_tree(root, id), ..trees }
            } else if k < 5 {
                Trees { live: state_tree(root, id), staged: trees.live, ..trees }
            } else {
                renewed(trees, state_tree(root, id), old)
            }
        },
    }
}

spec fn is_live(stage: Stage) -> bool {
    stage matches Stage::Live(_, _, k) && k >= 3
}

/// Whether the stage fits the state that was recorded and the trees that were built in the
/// course of `replies`.
spec fn known(
    stage: Stage,
    recorded: Option<state::State>,
    old: Option<state::Id>,
    replies: Seq<Reply>,
) -> bool {
    let is = |id: state::Id| recorded is Some && recorded->0.id == id;
    match stage {
        Stage::Record => true,
        Stage::Query(id) | Stage::Bake(id) => is(id),
        Stage::Blit(id, root, i) => {
            &&& is(id)
            &&& 0 <= i < super::blit::blit_steps(Base::Staging, root).len()
            &&& replies.contains(Reply::Tree(root))
        },
        Stage::Live(id, root, k) => {
            &&& is(id)
            &&& 0 <= k <= live_moves(id, old).len()
            &&& replies.contains(Reply::Tree(root))
        },
    }
}

/// What is recorded once the script is past the action that `reply` answers.
spec fn recorded_after(recorded: Option<state::State>, reply: Reply) -> Option<state::State> {
    if reply is Recorded {
        Some(reply->Recorded_0)
    } else {
        recorded
    }
}

/// Making a move takes a new state from one stage to the next.
proof fn lemma_stage(
    stage: Stage,
    recorded: Option<state::State>,
    old: Option<state::Id>,
    trees: Trees,
    replies: Seq<Reply>,
    reply: Reply,
) -> (next: Stage)
    requires
        trees.idle(),
        known(stage, recorded, old, replies),
        left_at(stage, old).len() > 0,
        left_at(stage, old)[0] is Do,
        passes(left_at(stage, old)[0]->Do_0, reply),
    ensures
        known(next, recorded_after(recorded, reply), old, replies.push(reply)),
        left_at(next, old) == moves(
            super::step::follow_up(left_at(stage, old)[0]->Do_0, reply),
        ) + left_at(stage, old).skip(1),
        trees_at(next, old, trees) == effect(
            left_at(stage, old)[0]->Do_0,
            trees_at(stage, old, trees),
        ),
        is_live(next) == (is_live(stage) || left_at(stage, old)[0]->Do_0 is Exchange),
        !(next is Record),
{
    let left = left_at(stage, old);
    let action = left[0]->Do_0;
    let steps = super::step::follow_up(action, reply);
    lemma_moves_still(seq![]);
    assert(replies.push(reply)[replies.len() as int] == reply);
    assert forall|other: Reply| replies.contains(other) implies #[trigger] replies.push(
        reply,
    ).contains(other) by {
        let i = choose|i: int| 0 <= i < replies.len() && replies[i] == other;
        assert(replies.push(reply)[i] == other);
    }
    match stage {
        Stage::Record => {
            assert(action == Action::RecordState(old));
            let id = reply->Recorded_0.id;
            lemma_after_record_moves(id, old);
            assert(moves(steps) + left.skip(1) =~= seq![query_step()] + live_moves(id, old));
            Stage::Query(id)
        },
        Stage::Query(id) => {
            assert(left[0] == query_step());
            let last = reply->Layouts_0@.len() as int;
            assert forall|i: int| 0 <= i < steps.len() && i != last implies still(
                #[trigger] steps[i],
            ) by {
                assert(steps[i] is Do && steps[i]->Do_0 is Push);
            }
            lemma_moves_of_one(steps, last);
            assert(moves(steps) + left.skip(1) =~= seq![bake_step()] + live_moves(id, old));
            Stage::Bake(id)
        },
        Stage::Bake(id) => {
            assert(left[0] == bake_step());
            let root = reply->Tree_0;
            let plan = super::blit::blit_steps(Base::Staging, root);
            assert forall|i: int| 0 <= i < steps.len() implies !still(#[trigger] steps[i]) by {
                assert(steps[i] == Step::Do(Action::Blit(plan[i])));
            }
            lemma_moves_all(steps);
            assert(moves(steps) + left.skip(1) =~= super::step::blit_script(
                Base::Staging,
                root,
            ).skip(0) + live_moves(id, old));
            assert(plan.take(0) =~= seq![]);
            Stage::Blit(id, root, 0)
        },
        Stage::Blit(id, root, i) => {
            let plan = super::blit::blit_steps(Base::Staging, root);
            let script = super::step::blit_script(Base::Staging, root);
            assert(left[0] == script[i]);
            assert(steps =~= seq![]);
            assert(moves(steps) + left.skip(1) =~= script.skip(i + 1) + live_moves(id, old));
            assert(plan.take(i + 1).drop_last() =~= plan.take(i));
            assert(plan.take(i + 1).last() == plan[i]);
            if i + 1 < plan.len() {
                Stage::Blit(id, root, i + 1)
            } else {
                assert(plan.take(i + 1) =~= plan);
                lemma_laid_blit(root, trees);
                assert(script.skip(i + 1) + live_moves(id, old) =~= live_moves(id, old).skip(0));
                Stage::Live(id, root, 0)
            }
        },
        Stage::Live(id, root, k) => {
            assert(left[0] == live_moves(id, old)[k]);
            assert(steps =~= seq![]);
            assert(moves(steps) + left.skip(1) =~= live_moves(id, old).skip(k + 1));
            let tree = state_tree(root, id);
            assert(tree.with_file(Node::OsRelease, Contents::OsRelease(Some(id))) =~= tree);
            Stage::Live(id, root, k + 1)
        },
    }
}

proof fn lemma_renewing(old: Option<state::Id>, replies: Seq<Reply>, trees: Trees) -> (stage: Stage)
    requires
        trees.idle(),
    ensures
        ({
            let script = super::step::stateful_script(old);
            let (run, now) = journey(script, replies, trees);
            &&& known(stage, run.recorded, old, replies)
            &&& now == trees_at(stage, old, trees)
            &&& is_live(stage) == exchanged(script, replies, trees)
            &&& run.failure is None ==> guarded(run.pending) && moves(run.pending) == left_at(
                stage,
                old,
            )
            &&& run.failure is None && stage is Record ==> run.pending == script
            &&& run.failure is None && !(stage is Record) ==> all_tame(run.pending)
        }),
    decreases replies.len(),
{
    let script = super::step::stateful_script(old);
    if replies.len() == 0 {
        lemma_moves_single(record_step(old));
        assert(script =~= seq![record_step(old)]);
        Stage::Record
    } else {
        let earlier = replies.drop_last();
        let before = lemma_renewing(old, earlier, trees);
        let (run, now) = journey(script, earlier, trees);
        let reply = replies.last();
        assert(earlier.push(reply) =~= replies);
        assert forall|other: Reply| earlier.contains(other) implies #[trigger] replies.contains(
            other,
        ) by {
            let i = choose|i: int| 0 <= i < earlier.len() && earlier[i] == other;
            assert(replies[i] == other);
        }
        if run.failure is None {
            lemma_move(run, reply, now);
            let next = run.next(reply);
            let after = touched(run, reply, now);
            if before is Record && reply is Recorded {
                let id = reply->Recorded_0.id;
                lemma_after_record_moves(id, old);
                assert(next.pending =~= super::step::after_record_script(id, old));
                assert(moves(next.pending)[0] == query_step());
                lemma_after_record_tame(id, old);
            }
            if !(before is Record) {
                lemma_tame_next(run, reply);
            }
            if after == now && exchanged(script, replies, trees) == exchanged(
                script,
                earlier,
                trees,
            ) && (next.failure is None ==> moves(next.pending) == left_at(before, old)) {
                before
            } else {
                lemma_stage(before, run.recorded, old, trees, earlier, reply)
            }
        } else {
            before
        }
    }
}

/// Whether a step neither records a state nor stops the run.
pub open spec fn tame(step: Step) -> bool {
    !(step is Do && (step->Do_0 is RecordState || step->Do_0 is Refuse))
}

/// Whether no step records a state or stops the run.
pub open spec fn all_tame(steps: Seq<Step>) -> bool {
    forall|i: int| 0 <= i < steps.len() ==> tame(#[trigger] steps[i])
}

proof fn lemma_after_record_tame(id: state::Id, old: Option<state::Id>)
    ensures
        all_tame(super::step::after_record_script(id, old)),
{
    lemma_root_tame(Base::Root, Some(id));
}

/// Setting a root up records no state.
pub proof fn lemma_root_tame(base: Base, state: Option<state::Id>)
    ensures
        all_tame(super::step::root_script(base, state)),
{
    let links = super::step::root_links_script(base);
    assert(all_tame(links));
    let script = super::step::root_script(base, state);
    assert forall|i: int| 0 <= i < script.len() implies tame(#[trigger] script[i]) by {
        if i < 25 {
            assert(script[i] == links[i]);
        }
    }
}

/// Past the record, nothing that follows from a step records a state.
pub proof fn lemma_follow_up_tame(action: Action, reply: Reply)
    requires
        tame(Step::Do(action)),
    ensures
        all_tame(super::step::follow_up(action, reply)),
{
    let steps = super::step::follow_up(action, reply);
    match (action, reply) {
        (Action::QueryLayouts(target), Reply::Layouts(layouts)) => {
            assert forall|i: int| 0 <= i < steps.len() implies tame(#[trigger] steps[i]) by {
                if i == layouts@.len() {
                    assert(steps[i] == Step::Do(Action::Bake(target)));
                } else {
                    assert(steps[i] is Do && steps[i]->Do_0 is Push);
                }
            }
        },
        (Action::Bake(Some(target)), Reply::Tree(root)) => {
            let plan = super::blit::blit_steps(target, root);
            assert forall|i: int| 0 <= i < steps.len() implies tame(#[trigger] steps[i]) by {
                assert(steps[i] == Step::Do(Action::Blit(plan[i])));
            }
        },
        (Action::CollectTriggers(scope, isolated), Reply::Collected(count)) => {
            lemma_root_tame(Base::Isolation, isolated);
        },
        _ => {},
    }
}

proof fn lemma_tame_next(run: Progress, reply: Reply)
    requires
        run.failure is None,
        all_tame(run.pending),
    ensures
        all_tame(run.next(reply).pending),
        run.next(reply).recorded == run.recorded,
{
    if run.pending.len() > 0 {
        assert(tame(run.pending[0]));
        if let Step::Do(action) = run.pending[0] {
            lemma_follow_up_tame(action, reply);
        }
    }
}

// ---------------------------------------------------------------------------
// Laws
// ---------------------------------------------------------------------------

/// Activating an archived state makes its tree the live one and archives the tree that was,
/// however the run went, if only it went well.
pub proof fn activation_swaps_the_trees(
    new: state::Id,
    old: state::Id,
    replies: Seq<Reply>,
    trees: Trees,
)
    ensures
        ({
            let (run, now) = journey(super::step::activate_script(false, new, old), replies, trees);
            run.request() is Finished ==> now == activated(trees, new, old)
        }),
{
    let _ = lemma_activating(new, old, replies, trees);
    lemma_moves_still(seq![]);
    let run = journey(super::step::activate_script(false, new, old), replies, trees).0;
    if run.request() is Finished {
        assert(run.pending =~= seq![]);
    }
}

/// Wherever an activation stands, and even where it broke off, the live tree is the old one
/// until the swap and the new one from then on, and neither of the two is lost.
pub proof fn activation_loses_nothing(
    new: state::Id,
    old: state::Id,
    replies: Seq<Reply>,
    trees: Trees,
)
    requires
        trees.archived.contains_key(new),
        new != old,
    ensures
        ({
            let script = super::step::activate_script(false, new, old);
            let now = journey(script, replies, trees).1;
            let tree = trees.archived[new];
            &&& now.live == if exchanged(script, replies, trees) {
                tree
            } else {
                trees.live
            }
            &&& now.live == trees.live || now.staged == trees.live || (now.archived.contains_key(old)
                && now.archived[old] == trees.live)
            &&& now.live == tree || now.staged == tree || (now.archived.contains_key(new)
                && now.archived[new] == tree)
        }),
{
    let _ = lemma_activating(new, old, replies, trees);
}

/// Activating the state that was live before brings everything back to where it was.
pub proof fn activating_back_restores(
    new: state::Id,
    old: state::Id,
    there: Seq<Reply>,
    back: Seq<Reply>,
    trees: Trees,
)
    requires
        new != old,
        trees.archived.contains_key(new),
        !trees.archived.contains_key(old),
        trees.staged == Tree::nothing(),
    ensures
        ({
            let (first, between) = journey(
                super::step::activate_script(false, new, old),
                there,
                trees,
            );
            let (second, now) = journey(
                super::step::activate_script(false, old, new),
                back,
                between,
            );
            first.request() is Finished && second.request() is Finished ==> now == trees
        }),
{
    let (first, between) = journey(super::step::activate_script(false, new, old), there, trees);
    activation_swaps_the_trees(new, old, there, trees);
    activation_swaps_the_trees(old, new, back, between);
    if first.request() is Finished {
        assert(activated(between, old, new).archived =~= trees.archived);
    }
}

/// A new state makes the tree that was blitted for it the live one, and archives the tree that
/// was under the state it belongs to, however the run went, if only it went well. The live tree
/// then says that it belongs to the state that was recorded.
pub proof fn new_state_goes_live(old: Option<state::Id>, replies: Seq<Reply>, trees: Trees)
    requires
        trees.idle(),
    ensures
        ({
            let (run, now) = journey(super::step::stateful_script(old), replies, trees);
            run.request() is Finished ==> is_state_tree(now.live, run.recorded, replies) && now
                == renewed(trees, now.live, old)
        }),
{
    let stage = lemma_renewing(old, replies, trees);
    let (run, now) = journey(super::step::stateful_script(old), replies, trees);
    if run.request() is Finished {
        lemma_moves_still(seq![]);
        assert(run.pending =~= seq![]);
        assert(left_at(stage, old).len() == 0);
        lemma_stage_live(stage, run.recorded, old, replies);
    }
}

/// A live tree is that of the state that was recorded, and a stage at which no move is left has
/// made all of them.
proof fn lemma_stage_live(
    stage: Stage,
    recorded: Option<state::State>,
    old: Option<state::Id>,
    replies: Seq<Reply>,
)
    requires
        known(stage, recorded, old, replies),
        left_at(stage, old).len() == 0 || is_live(stage),
    ensures
        is_live(stage),
        stage matches Stage::Live(id, root, k) && is_state_tree(
            state_tree(root, id),
            recorded,
            replies,
        ),
        left_at(stage, old).len() == 0 ==> stage->Live_2 == live_moves(stage->Live_0, old).len(),
{
    match stage {
        Stage::Live(id, root, k) => {
            let i = choose|i: int| 0 <= i < replies.len() && replies[i] == Reply::Tree(root);
            assert(built_from(state_tree(root, id), id, replies[i]));
        },
        Stage::Blit(id, root, i) => {
            assert(left_at(stage, old).len() > 0);
        },
        _ => {},
    }
}

/// A new state that breaks off before the swap leaves the live tree and every archived one as
/// they were. From the swap on, the live tree is the one that was blitted for the state that was
/// recorded, and says so; the old one is in staging or archived; and the trees of other states
/// stay as they are.
pub proof fn new_state_loses_nothing(
    old: Option<state::Id>,
    replies: Seq<Reply>,
    trees: Trees,
    other: state::Id,
)
    requires
        trees.idle(),
    ensures
        ({
            let script = super::step::stateful_script(old);
            let (run, now) = journey(script, replies, trees);
            if exchanged(script, replies, trees) {
                &&& is_state_tree(now.live, run.recorded, replies)
                &&& now.staged == trees.live || (old matches Some(old) && now.archived.contains_key(
                    old,
                ) && now.archived[old] == trees.live)
                &&& old != Some(other) ==> {
                    &&& now.archived.contains_key(other) == trees.archived.contains_key(other)
                    &&& now.archived[other] == trees.archived[other]
                }
            } else {
                now.live == trees.live && now.archived == trees.archived
            }
        }),
{
    let stage = lemma_renewing(old, replies, trees);
    let run = journey(super::step::stateful_script(old), replies, trees).0;
    if is_live(stage) {
        lemma_stage_live(stage, run.recorded, old, replies);
    } else if let Stage::Blit(_, root, i) = stage {
        lemma_laid_keeps(super::blit::blit_steps(Base::Staging, root).take(i), trees);
    }
}

/// A blit leaves the live tree and the archived ones.
proof fn lemma_laid_keeps(steps: Seq<BlitStep>, trees: Trees)
    ensures
        laid_all(steps, trees).live == trees.live,
        laid_all(steps, trees).archived == trees.archived,
    decreases steps.len(),
{
    if steps.len() > 0 {
        lemma_laid_keeps(steps.drop_last(), trees);
    }
}

/// A new state can be undone: activating the state that was live before brings its tree back,
/// and archives the new one under the state that it was recorded as.
pub proof fn new_state_can_be_undone(
    old: state::Id,
    new: state::Id,
    there: Seq<Reply>,
    back: Seq<Reply>,
    trees: Trees,
)
    requires
        new != old,
        !trees.archived.contains_key(old),
        trees.idle(),
    ensures
        ({
            let (first, between) = journey(super::step::stateful_script(Some(old)), there, trees);
            let (second, now) = journey(
                super::step::activate_script(false, old, new),
                back,
                between,
            );
            first.request() is Finished && second.request() is Finished ==> {
                &&& now.live == trees.live
                &&& now.archived == trees.archived.insert(new, between.live)
                &&& is_state_tree(between.live, first.recorded, there)
            }
        }),
{
    let (first, between) = journey(super::step::stateful_script(Some(old)), there, trees);
    new_state_goes_live(Some(old), there, trees);
    activation_swaps_the_trees(old, new, back, between);
    if first.request() is Finished {
        assert(activated(between, old, new).archived =~= trees.archived.insert(new, between.live));
    }
}

} // verus!
