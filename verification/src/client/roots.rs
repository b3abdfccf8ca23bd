//! What setting up a root leaves there.

use super::place::{Base, Contents, Location, Node, RootLink};
use super::run::{Progress, Request};
use super::step::{Action, Query, Reply, Step};
use crate::state;
use vstd::prelude::*;

verus! {

/// What is found at a place.
pub enum Found {
    /// A symbolic link, by what it points to.
    Link(Seq<char>),
    /// A file that the client wrote.
    File(Contents),
    /// Any other file.
    Plain,
    Directory,
}

/// What is where. What blits and triggers put there is left out.
pub type Disk = Map<Location, Found>;

/// The directory that a place lies in, where that is not the base.
pub open spec fn parent(location: Location) -> Option<Location> {
    match location.node {
        Node::UsrLib | Node::StateId => Some(super::step::at(location.base, Node::Usr)),
        Node::OsRelease => Some(super::step::at(location.base, Node::UsrLib)),
        _ => None,
    }
}

/// Whether a place is the given one or lies below it.
pub open spec fn is_under(location: Location, top: Location) -> bool {
    location.base == top.base && (location.node == top.node || top.node is Itself || (top.node
        is Usr && (location.node is UsrLib || location.node is OsRelease || location.node
        is StateId)))
}

/// The place below `from` that corresponds to `location` below `to`.
pub open spec fn moved_from(location: Location, from: Location, to: Location) -> Location {
    Location {
        base: from.base,
        node: if location.node == to.node {
            from.node
        } else {
            location.node
        },
    }
}

/// The disk once the first place and all below it was moved to the second.
pub open spec fn renamed(from: Location, to: Location, disk: Disk) -> Disk {
    Map::new(
        |location: Location|
            if is_under(location, to) {
                disk.contains_key(moved_from(location, from, to))
            } else {
                !is_under(location, from) && disk.contains_key(location)
            },
        |location: Location|
            if is_under(location, to) {
                disk[moved_from(location, from, to)]
            } else {
                disk[location]
            },
    )
}

/// The disk once two places, and all below them, were swapped.
pub open spec fn swapped(a: Location, b: Location, disk: Disk) -> Disk {
    Map::new(
        |location: Location|
            if is_under(location, a) {
                disk.contains_key(moved_from(location, b, a))
            } else if is_under(location, b) {
                disk.contains_key(moved_from(location, a, b))
            } else {
                disk.contains_key(location)
            },
        |location: Location|
            if is_under(location, a) {
                disk[moved_from(location, b, a)]
            } else if is_under(location, b) {
                disk[moved_from(location, a, b)]
            } else {
                disk[location]
            },
    )
}

/// The disk with a directory at a place where nothing was.
pub open spec fn with_directory(disk: Disk, location: Location) -> Disk {
    if disk.contains_key(location) {
        disk
    } else {
        disk.insert(location, Found::Directory)
    }
}

/// The disk once an action was performed.
pub open spec fn disk_after(action: Action, disk: Disk) -> Disk {
    match action {
        Action::CreateDir(location) => disk.insert(location, Found::Directory),
        Action::CreateDirAll(location) => match parent(location) {
            Some(parent) => with_directory(with_directory(disk, parent), location),
            None => with_directory(disk, location),
        },
        Action::RemoveFile(location) => disk.remove(location),
        Action::Symlink(link, location) => disk.insert(location, Found::Link(link.spec_source())),
        Action::Rename(from, to) => renamed(from, to, disk),
        Action::Exchange(a, b) => swapped(a, b, disk),
        Action::Write(location, contents) => disk.insert(location, Found::File(contents)),
        _ => disk,
    }
}

/// Whether the directory that a place lies in is there.
pub open spec fn has_parent(location: Location, disk: Disk) -> bool {
    parent(location) matches Some(parent) ==> disk.contains_key(parent) && disk[parent]
        is Directory
}

/// Whether a place holds a directory or nothing.
pub open spec fn may_be_directory(location: Location, disk: Disk) -> bool {
    disk.contains_key(location) ==> disk[location] is Directory
}

/// Whether a place holds no directory.
pub open spec fn may_be_file(location: Location, disk: Disk) -> bool {
    disk.contains_key(location) ==> !(disk[location] is Directory)
}

/// Whether nothing on the disk stands against the action. A directory is only made where its
/// parent is there, unless it is made with all its parents.
pub open spec fn can(action: Action, disk: Disk) -> bool {
    match action {
        Action::CreateDir(location) => !disk.contains_key(location) && has_parent(location, disk),
        Action::CreateDirAll(location) => {
            &&& may_be_directory(location, disk)
            &&& parent(location) matches Some(parent) ==> may_be_directory(parent, disk)
        },
        Action::RemoveFile(location) => disk.contains_key(location) && !(disk[location]
            is Directory),
        Action::Symlink(_, location) => !disk.contains_key(location) && has_parent(location, disk),
        Action::Rename(from, to) => disk.contains_key(from) && (disk.contains_key(to) ==> (
        disk[from] is Directory) == (disk[to] is Directory)),
        Action::Write(location, _) => has_parent(location, disk) && may_be_file(location, disk),
        _ => true,
    }
}

/// Whether an action works within a base directory.
pub open spec fn works_in(action: Action, base: Base) -> bool {
    match action {
        Action::CreateDir(location)
        | Action::CreateDirAll(location)
        | Action::RemoveFile(location)
        | Action::Symlink(_, location)
        | Action::Write(location, _) => location.base == base,
        Action::Rename(from, to) => from.base == base && to.base == base,
        _ => false,
    }
}

/// Whether `reply` is true of the disk, as far as the base directory is concerned. A link at the
/// top of a root may lead nowhere; then it counts as missing when asked whether something is
/// there. No staged name holds such a link. An action is only done where nothing stands against
/// it.
pub open spec fn is_true(run: Progress, reply: Reply, disk: Disk, base: Base) -> bool {
    match (run.request(), reply) {
        (Request::Exists(location), Reply::Flag(there)) => location.base == base ==> {
            &&& there ==> disk.contains_key(location)
            &&& !there && disk.contains_key(location) ==> location.node is Link
                && disk[location] is Link
        },
        (Request::IsSymlink(location), Reply::Flag(symlink)) => location.base == base ==> symlink
            == (disk.contains_key(location) && disk[location] is Link),
        (Request::ReadLink(location), Reply::Link(source)) => location.base == base
            ==> disk.contains_key(location) && disk[location] == Found::Link(source@),
        (Request::Perform(action), Reply::Done) => works_in(*action, base) ==> can(*action, disk),
        _ => true,
    }
}

/// How far a script is, and what became of the disk, after it was given `replies`.
pub open spec fn set_up(script: Seq<Step>, replies: Seq<Reply>, disk: Disk) -> (Progress, Disk)
    decreases replies.len(),
{
    if replies.len() == 0 {
        (Progress::start(script), disk)
    } else {
        let (run, disk) = set_up(script, replies.drop_last(), disk);
        (run.next(replies.last()), disk_touched(run, replies.last(), disk))
    }
}

/// The disk once the open request was answered with `reply`.
pub open spec fn disk_touched(run: Progress, reply: Reply, disk: Disk) -> Disk {
    if run.failure is None && run.pending.len() > 0 && run.pending[0] is Do
        && super::step::answers(run.pending[0]->Do_0, reply) {
        disk_after(run.pending[0]->Do_0, disk)
    } else {
        disk
    }
}

/// Whether all of `replies` were true of a base directory when they were given.
pub open spec fn all_true(script: Seq<Step>, replies: Seq<Reply>, disk: Disk, base: Base) -> bool
    decreases replies.len(),
{
    replies.len() > 0 ==> {
        let (run, now) = set_up(script, replies.drop_last(), disk);
        &&& all_true(script, replies.drop_last(), disk, base)
        &&& is_true(run, replies.last(), now, base)
    }
}

/// Whether none of `replies` reports a failure.
pub open spec fn none_failed(replies: Seq<Reply>) -> bool {
    forall|i: int| 0 <= i < replies.len() ==> !(#[trigger] replies[i] is Failed)
}

/// Whether a link is right and its staged name is free.
pub open spec fn link_is_made(disk: Disk, base: Base, link: RootLink) -> bool {
    let target = super::step::at(base, Node::Link(link));
    &&& disk.contains_key(target)
    &&& disk[target] == Found::Link(link.spec_source())
    &&& !disk.contains_key(super::step::at(base, Node::StagedLink(link)))
}

/// Whether there is a directory.
pub open spec fn is_directory(disk: Disk, location: Location) -> bool {
    disk.contains_key(location) && disk[location] is Directory
}

/// Whether a root has all its links and its release information.
pub open spec fn root_is_made(disk: Disk, base: Base, state: Option<state::Id>) -> bool {
    let release = super::step::at(base, Node::OsRelease);
    &&& forall|link: RootLink| #[trigger] link_is_made(disk, base, link)
    &&& is_directory(disk, super::step::at(base, Node::Usr))
    &&& is_directory(disk, super::step::at(base, Node::UsrLib))
    &&& disk.contains_key(release)
    &&& disk[release] == Found::File(Contents::OsRelease(state))
}

/// Whether a root can be set up: no directory stands where a link or a file goes, and no file
/// where a directory goes. A root where none of them is there yet, not even `usr`, will do.
pub open spec fn workable(disk: Disk, base: Base) -> bool {
    &&& forall|link: RootLink| #[trigger] link_is_workable(disk, base, link)
    &&& may_be_directory(super::step::at(base, Node::Usr), disk)
    &&& may_be_directory(super::step::at(base, Node::UsrLib), disk)
    &&& may_be_file(super::step::at(base, Node::OsRelease), disk)
}

/// Whether no directory stands where a link goes, nor at its staged name.
pub open spec fn link_is_workable(disk: Disk, base: Base, link: RootLink) -> bool {
    &&& may_be_file(super::step::at(base, Node::Link(link)), disk)
    &&& may_be_file(super::step::at(base, Node::StagedLink(link)), disk)
}

/// Whether setting up a root is about the place.
pub open spec fn concerns(base: Base, location: Location) -> bool {
    location.base == base && (location.node is Link || location.node is StagedLink
        || location.node is Usr || location.node is UsrLib || location.node is OsRelease)
}

/// Whether two disks agree on a place.
pub open spec fn same_at(a: Disk, b: Disk, location: Location) -> bool {
    &&& a.contains_key(location) == b.contains_key(location)
    &&& a.contains_key(location) ==> a[location] == b[location]
}

/// Whether two disks agree on all places that setting up a root is not about.
pub open spec fn same_elsewhere(a: Disk, b: Disk, base: Base) -> bool {
    forall|location: Location| !concerns(base, location) ==> #[trigger] same_at(a, b, location)
}

// ---------------------------------------------------------------------------
// Proofs
// ---------------------------------------------------------------------------

spec fn link_at(k: int) -> RootLink {
    if k == 0 {
        RootLink::Sbin
    } else if k == 1 {
        RootLink::Bin
    } else if k == 2 {
        RootLink::Lib
    } else if k == 3 {
        RootLink::Lib64
    } else {
        RootLink::Lib32
    }
}

/// The step at `5 * k + j` of the script that sets a root up.
proof fn lemma_link_step(base: Base, state: Option<state::Id>, k: int, j: int)
    requires
        0 <= k < 5,
        0 <= j < 5,
    ensures
        super::step::root_script(base, state)[5 * k + j] == super::step::link_script(
            base,
            link_at(k),
        )[j],
{
    let a = super::step::link_script(base, RootLink::Sbin);
    let b = super::step::link_script(base, RootLink::Bin);
    let c = super::step::link_script(base, RootLink::Lib);
    let d = super::step::link_script(base, RootLink::Lib64);
    let e = super::step::link_script(base, RootLink::Lib32);
    let links = a + b + c + d + e;
    assert(super::step::root_script(base, state)[5 * k + j] == links[5 * k + j]);
}

/// Whether a step is a question, or an action that nothing follows from, within a base.
spec fn plain_step(step: Step, base: Base) -> bool {
    match step {
        Step::Do(action) => works_in(action, base),
        Step::When(Query::Exists(location), _, _) => location.base == base,
        Step::When(Query::LinksTo(location, _), _, _) => location.base == base,
        _ => false,
    }
}

proof fn lemma_root_script_plain(base: Base, state: Option<state::Id>)
    ensures
        super::step::root_script(base, state).len() == 27,
        forall|i: int|
            0 <= i < 27 ==> plain_step(#[trigger] super::step::root_script(base, state)[i], base),
{
    let script = super::step::root_script(base, state);
    assert forall|i: int| 0 <= i < 27 implies plain_step(#[trigger] script[i], base) by {
        if i < 25 {
            lemma_link_step(base, state, i / 5, i % 5);
        }
    }
}

/// What one reply makes of the disk when `step` is next, and how many steps it takes.
spec fn step_taken(step: Step, taken: int, now: Disk, after: Disk) -> bool {
    match step {
        Step::Do(action) => taken == 1 && can(action, now) && after == disk_after(action, now),
        Step::When(Query::Exists(location), expected, count) => {
            &&& after == now
            &&& taken == 1 || taken == 1 + count
            &&& count > 0 && !(location.node is Link) ==> (taken == 1) == (now.contains_key(
                location,
            ) == expected)
        },
        Step::When(Query::LinksTo(location, link), expected, count) => {
            &&& after == now
            &&& taken == 1 || taken == 1 + count
            &&& taken != 1 && !expected ==> now.contains_key(location) && now[location]
                == Found::Link(link.spec_source())
        },
        _ => false,
    }
}

/// One reply to a script that stands at a plain step.
proof fn lemma_plain_step(
    script: Seq<Step>,
    n: int,
    run: Progress,
    reply: Reply,
    disk: Disk,
    base: Base,
) -> (taken: int)
    requires
        super::trees::all_tame(script),
        0 <= n < script.len(),
        plain_step(script[n], base),
        script[n] matches Step::When(_, _, count) ==> n + 1 + count <= script.len(),
        run.failure is None,
        run.pending == script.skip(n),
        is_true(run, reply, disk, base),
    ensures
        ({
            let next = run.next(reply);
            let now = disk_touched(run, reply, disk);
            &&& !(reply is Failed) ==> next.failure is None
            &&& next.recorded == run.recorded
            &&& next.failure is None ==> {
                &&& 0 <= taken <= script.len() - n
                &&& next.pending == script.skip(n + taken)
                &&& taken == 0 ==> now == disk
                &&& taken != 0 ==> step_taken(script[n], taken, disk, now)
            }
        }),
{
    assert(run.pending[0] == script[n]);
    let next = run.next(reply);
    assert(script.skip(n).skip(1) =~= script.skip(n + 1));
    if n + 1 < script.len() {
        assert(super::trees::tame(script[n + 1]));
        assert(script.skip(n + 1)[0] == script[n + 1]);
    }
    match script[n] {
        Step::Do(action) => {
            assert(super::step::follow_up(action, reply) =~= seq![]);
            assert(super::step::follow_up(action, reply) + script.skip(n + 1) =~= script.skip(
                n + 1,
            ));
            if super::step::answers(action, reply) {
                1
            } else {
                0
            }
        },
        Step::When(_, _, count) => {
            assert(script.skip(n).skip(1 + count) =~= script.skip(n + 1 + count));
            if n + 1 + count < script.len() {
                assert(super::trees::tame(script[n + 1 + count]));
                assert(script.skip(n + 1 + count)[0] == script[n + 1 + count]);
            }
            script.len() - n - next.pending.len()
        },
    }
}

/// What is known of the disk when a root is set up and step `n` is next.
spec fn making(disk: Disk, base: Base, state: Option<state::Id>, n: int) -> bool {
    let k = n / 5;
    let j = n % 5;
    let staged = super::step::at(base, Node::StagedLink(link_at(k)));
    let release = super::step::at(base, Node::OsRelease);
    &&& forall|i: int| 0 <= i < k && i < 5 ==> link_is_made(disk, base, #[trigger] link_at(i))
    &&& n < 25 && j == 1 ==> disk.contains_key(staged)
    &&& n < 25 && (j == 2 || j == 3) ==> !disk.contains_key(staged)
    &&& n < 25 && j == 4 ==> disk.contains_key(staged) && disk[staged] == Found::Link(
        link_at(k).spec_source(),
    )
    &&& n >= 26 ==> is_directory(disk, super::step::at(base, Node::Usr)) && is_directory(
        disk,
        super::step::at(base, Node::UsrLib),
    )
    &&& n >= 27 ==> disk.contains_key(release) && disk[release] == Found::File(
        Contents::OsRelease(state),
    )
}

proof fn lemma_making_step(
    base: Base,
    state: Option<state::Id>,
    n: int,
    taken: int,
    now: Disk,
    after: Disk,
)
    requires
        0 <= n < 27,
        making(now, base, state, n),
        step_taken(super::step::root_script(base, state)[n], taken, now, after),
    ensures
        n + taken <= 27,
        making(after, base, state, n + taken),
        workable(now, base) ==> workable(after, base),
        same_elsewhere(after, now, base),
{
    let script = super::step::root_script(base, state);
    lemma_root_script_plain(base, state);
    if n < 25 {
        let k = n / 5;
        let j = n % 5;
        lemma_link_step(base, state, k, j);
        assert forall|i: int| 0 <= i < (n + taken) / 5 && i < 5 implies link_is_made(
            after,
            base,
            #[trigger] link_at(i),
        ) by {
            if i < k {
                assert(link_is_made(now, base, link_at(i)));
            }
        }
        if workable(now, base) {
            assert(link_is_workable(now, base, link_at(k)));
            assert forall|link: RootLink| #[trigger] link_is_workable(after, base, link) by {
                assert(link_is_workable(now, base, link));
            }
        }
    } else {
        assert forall|i: int| 0 <= i < 5 implies link_is_made(
            after,
            base,
            #[trigger] link_at(i),
        ) by {
            assert(link_is_made(now, base, link_at(i)));
        }
        if workable(now, base) {
            assert forall|link: RootLink| #[trigger] link_is_workable(after, base, link) by {
                assert(link_is_workable(now, base, link));
            }
        }
    }
}

/// One reply while a root is set up, with `rest` to do afterwards.
proof fn lemma_making_next(
    base: Base,
    state: Option<state::Id>,
    rest: Seq<Step>,
    n: int,
    run: Progress,
    reply: Reply,
    now: Disk,
) -> (next: int)
    requires
        0 <= n < 27,
        super::trees::all_tame(rest),
        making(now, base, state, n),
        run.failure is None,
        run.pending == (super::step::root_script(base, state) + rest).skip(n),
        is_true(run, reply, now, base),
    ensures
        !(reply is Failed) ==> run.next(reply).failure is None,
        run.next(reply).recorded == run.recorded,
        run.next(reply).failure is None ==> {
            &&& 0 <= next <= 27
            &&& run.next(reply).pending == (super::step::root_script(base, state) + rest).skip(next)
            &&& making(disk_touched(run, reply, now), base, state, next)
        },
        workable(now, base) ==> workable(disk_touched(run, reply, now), base),
        same_elsewhere(disk_touched(run, reply, now), now, base),
{
    let root = super::step::root_script(base, state);
    let script = root + rest;
    lemma_root_script_plain(base, state);
    super::trees::lemma_root_tame(base, state);
    assert(super::trees::all_tame(script));
    assert(script[n] == root[n]);
    assert(plain_step(root[n], base));
    if n < 25 {
        lemma_link_step(base, state, n / 5, n % 5);
    }
    let taken = lemma_plain_step(script, n, run, reply, now, base);
    if run.next(reply).failure is None && taken != 0 {
        lemma_making_step(base, state, n, taken, now, disk_touched(run, reply, now));
    }
    n + taken
}

proof fn lemma_making(base: Base, state: Option<state::Id>, replies: Seq<Reply>, disk: Disk) -> (n:
    int)
    requires
        all_true(super::step::root_script(base, state), replies, disk, base),
    ensures
        ({
            let script = super::step::root_script(base, state);
            let (run, now) = set_up(script, replies, disk);
            &&& none_failed(replies) ==> run.failure is None
            &&& run.failure is None ==> {
                &&& 0 <= n <= 27
                &&& run.pending == script.skip(n)
                &&& making(now, base, state, n)
            }
            &&& workable(disk, base) ==> workable(now, base)
            &&& same_elsewhere(now, disk, base)
        }),
    decreases replies.len(),
{
    let script = super::step::root_script(base, state);
    lemma_root_script_plain(base, state);
    if replies.len() == 0 {
        lemma_link_step(base, state, 0, 0);
        assert(script.skip(0) =~= script);
        0
    } else {
        let earlier = replies.drop_last();
        let n = lemma_making(base, state, earlier, disk);
        let (run, now) = set_up(script, earlier, disk);
        if none_failed(replies) {
            assert forall|i: int| 0 <= i < earlier.len() implies !(#[trigger] earlier[i]
                is Failed) by {
                assert(earlier[i] == replies[i]);
            }
            assert(!(replies[replies.len() - 1] is Failed));
        }
        if run.failure is None && n < 27 {
            let none = Seq::<Step>::empty();
            assert(script + none =~= script);
            let next = lemma_making_next(base, state, none, n, run, replies.last(), now);
            let after = disk_touched(run, replies.last(), now);
            assert forall|location: Location| !concerns(base, location) implies #[trigger] same_at(
                after,
                disk,
                location,
            ) by {
                assert(same_at(after, now, location));
                assert(same_at(now, disk, location));
            }
            next
        } else {
            n
        }
    }
}

/// What the disk is when a root that is made already is set up again and step `n` is next.
spec fn remade(disk: Disk, base: Base, n: int) -> Disk {
    let link = link_at(n / 5);
    if n < 25 && n % 5 == 4 {
        disk.insert(
            super::step::at(base, Node::StagedLink(link)),
            Found::Link(link.spec_source()),
        )
    } else {
        disk
    }
}

proof fn lemma_remaking(base: Base, state: Option<state::Id>, replies: Seq<Reply>, disk: Disk) -> (
    n: int)
    requires
        root_is_made(disk, base, state),
        all_true(super::step::root_script(base, state), replies, disk, base),
    ensures
        ({
            let script = super::step::root_script(base, state);
            let (run, now) = set_up(script, replies, disk);
            run.failure is None ==> {
                &&& 0 <= n <= 27
                &&& !(n < 25 && n % 5 == 1)
                &&& run.pending == script.skip(n)
                &&& now == remade(disk, base, n)
            }
        }),
    decreases replies.len(),
{
    let script = super::step::root_script(base, state);
    lemma_root_script_plain(base, state);
    super::trees::lemma_root_tame(base, state);
    if replies.len() == 0 {
        lemma_link_step(base, state, 0, 0);
        assert(script.skip(0) =~= script);
        0
    } else {
        let n = lemma_remaking(base, state, replies.drop_last(), disk);
        let (run, now) = set_up(script, replies.drop_last(), disk);
        let reply = replies.last();
        if run.failure is None && n < 27 {
            if n < 25 {
                lemma_link_step(base, state, n / 5, n % 5);
                assert(link_is_made(disk, base, link_at(n / 5)));
            }
            assert(plain_step(script[n], base));
            let taken = lemma_plain_step(script, n, run, reply, now, base);
            let after = disk_touched(run, reply, now);
            if run.next(reply).failure is None {
                if taken != 0 && (n < 25 && n % 5 == 4 || n >= 25) {
                    assert(after =~= disk);
                }
                assert(after == remade(disk, base, n + taken));
            }
            n + taken
        } else {
            n
        }
    }
}

// ---------------------------------------------------------------------------
// New states
// ---------------------------------------------------------------------------

/// What comes before the root of a new state is set up.
spec fn before_root(id: state::Id) -> Seq<Step> {
    seq![
        Step::Do(Action::QueryLayouts(Some(Base::Staging))),
        Step::Do(Action::CreateDirAll(super::step::at(Base::Staging, Node::Usr))),
        Step::Do(
            Action::Write(super::step::at(Base::Staging, Node::StateId), Contents::StateId(id)),
        ),
    ] + super::step::os_release_script(Base::Staging, Some(id)) + seq![
        Step::Do(
            Action::CollectTriggers(super::step::TriggerScope::Transaction, Some(id)),
        ),
    ] + super::step::promote_script(false)
}

/// What comes after the root of a new state was set up.
spec fn after_root(old: Option<state::Id>) -> Seq<Step> {
    let archive = match old {
        Some(old) => super::step::archive_script(false, old),
        None => seq![],
    };
    archive + seq![Step::Do(Action::CollectTriggers(super::step::TriggerScope::System, None))]
}

proof fn lemma_after_record_split(id: state::Id, old: Option<state::Id>)
    ensures
        super::step::after_record_script(id, old) == before_root(id) + (super::step::root_script(
            Base::Root,
            Some(id),
        ) + after_root(old)),
        super::trees::guarded(before_root(id)),
        super::trees::all_tame(before_root(id)),
        super::trees::all_tame(after_root(old)),
        before_root(id).len() > 0,
{
    let stage = before_root(id).take(3);
    let release = super::step::os_release_script(Base::Staging, Some(id));
    let triggers = seq![
        Step::Do(
            Action::CollectTriggers(super::step::TriggerScope::Transaction, Some(id)),
        ),
    ];
    let promote = super::step::promote_script(false);
    assert(before_root(id) =~= stage + release + triggers + promote);
    super::trees::lemma_guarded_concat(stage, release);
    super::trees::lemma_guarded_concat(stage + release, triggers);
    super::trees::lemma_guarded_concat(stage + release + triggers, promote);
    assert(super::step::after_record_script(id, old) =~= before_root(id) + (
    super::step::root_script(Base::Root, Some(id)) + after_root(old)));
}

/// Whether a step leaves the root alone, and all that follows from it too.
spec fn spares_root(step: Step) -> bool {
    match step {
        Step::When(_, _, _) => true,
        Step::Do(action) => match action {
            Action::CreateDirAll(location) => !(location.base is Root),
            Action::Rename(from, to) => !(from.base is Root) && !(to.base is Root),
            Action::CollectTriggers(_, isolated) => isolated is None,
            Action::ExecuteTrigger(_, _) => true,
            _ => false,
        },
    }
}

spec fn all_spare_root(steps: Seq<Step>) -> bool {
    forall|i: int| 0 <= i < steps.len() ==> spares_root(#[trigger] steps[i])
}

proof fn lemma_spare_next(run: Progress, reply: Reply, now: Disk, state: Option<state::Id>)
    requires
        run.failure is None,
        all_spare_root(run.pending),
        root_is_made(now, Base::Root, state),
    ensures
        all_spare_root(run.next(reply).pending),
        run.next(reply).recorded == run.recorded,
        root_is_made(disk_touched(run, reply, now), Base::Root, state),
{
    let after = disk_touched(run, reply, now);
    if run.pending.len() > 0 {
        assert(spares_root(run.pending[0]));
        assert forall|node: Node| #[trigger] same_at(
            after,
            now,
            super::step::at(Base::Root, node),
        ) by {}
        assert forall|link: RootLink| #[trigger] link_is_made(after, Base::Root, link) by {
            assert(link_is_made(now, Base::Root, link));
            assert(same_at(after, now, super::step::at(Base::Root, Node::Link(link))));
            assert(same_at(after, now, super::step::at(Base::Root, Node::StagedLink(link))));
        }
        assert(same_at(after, now, super::step::at(Base::Root, Node::Usr)));
        assert(same_at(after, now, super::step::at(Base::Root, Node::UsrLib)));
        assert(same_at(after, now, super::step::at(Base::Root, Node::OsRelease)));
    }
}

/// How far a new state is with its root.
enum Stage {
    /// It is to be recorded.
    Record,
    /// These steps are left before the root is set up.
    Before(state::Id, Seq<Step>),
    /// The root is being set up, and so many steps of that are done.
    Setting(state::Id, int),
    /// The root is set up.
    Ready(state::Id),
}

spec fn stands_at(
    stage: Stage,
    run: Progress,
    now: Disk,
    old: Option<state::Id>,
) -> bool {
    let is = |id: state::Id| run.recorded is Some && run.recorded->0.id == id;
    let rest = |id: state::Id|
        super::step::root_script(Base::Root, Some(id)) + after_root(old);
    match stage {
        Stage::Record => run.pending == super::step::stateful_script(old),
        Stage::Before(id, steps) => {
            &&& is(id)
            &&& steps.len() > 0
            &&& super::trees::guarded(steps)
            &&& super::trees::all_tame(steps)
            &&& run.pending == steps + rest(id)
        },
        Stage::Setting(id, n) => {
            &&& is(id)
            &&& 0 <= n < 27
            &&& making(now, Base::Root, Some(id), n)
            &&& run.pending == rest(id).skip(n)
        },
        Stage::Ready(id) => {
            &&& is(id)
            &&& root_is_made(now, Base::Root, Some(id))
            &&& all_spare_root(run.pending)
        },
    }
}

/// One reply before the root is set up.
proof fn lemma_before_next(
    steps: Seq<Step>,
    rest: Seq<Step>,
    run: Progress,
    reply: Reply,
) -> (left: Seq<Step>)
    requires
        run.failure is None,
        steps.len() > 0,
        super::trees::guarded(steps),
        super::trees::all_tame(steps),
        super::trees::all_tame(rest),
        run.pending == steps + rest,
    ensures
        run.next(reply).recorded == run.recorded,
        run.next(reply).failure is None ==> {
            &&& super::trees::guarded(left)
            &&& super::trees::all_tame(left)
            &&& run.next(reply).pending == left + rest
        },
{
    let head = steps[0];
    let next = run.next(reply);
    assert(run.pending[0] == head);
    assert(super::trees::tame(head));
    assert((steps + rest).skip(1) =~= steps.skip(1) + rest);
    super::trees::lemma_guarded_skip(steps, 1);
    match head {
        Step::Do(action) => {
            let follow = super::step::follow_up(action, reply);
            super::trees::lemma_follow_up_guarded(action, reply);
            super::trees::lemma_follow_up_tame(action, reply);
            super::trees::lemma_guarded_concat(follow, steps.skip(1));
            assert(follow + (steps.skip(1) + rest) =~= (follow + steps.skip(1)) + rest);
            if reply is Failed {
                steps.skip(1)
            } else if super::step::answers(action, reply) {
                follow + steps.skip(1)
            } else {
                steps
            }
        },
        Step::When(_, _, count) => {
            assert(super::trees::guards_still(steps, steps[0], 0));
            super::trees::lemma_guarded_skip(steps, 1 + count);
            assert((steps + rest).skip(1 + count) =~= steps.skip(1 + count) + rest);
            if next.pending == run.pending {
                steps
            } else if next.pending == steps.skip(1) + rest {
                steps.skip(1)
            } else {
                steps.skip(1 + count)
            }
        },
    }
}

proof fn lemma_recorded(
    run: Progress,
    reply: Reply,
    now: Disk,
    old: Option<state::Id>,
) -> (stage: Stage)
    requires
        run.failure is None,
        stands_at(Stage::Record, run, now, old),
    ensures
        ({
            let next = run.next(reply);
            next.failure is None ==> stands_at(stage, next, disk_touched(run, reply, now), old)
        }),
{
    if reply is Recorded {
        let id = reply->Recorded_0.id;
        lemma_after_record_split(id, old);
        assert(run.next(reply).pending =~= super::step::after_record_script(id, old));
        Stage::Before(id, before_root(id))
    } else {
        Stage::Record
    }
}

proof fn lemma_stands_before(
    id: state::Id,
    steps: Seq<Step>,
    run: Progress,
    reply: Reply,
    now: Disk,
    old: Option<state::Id>,
) -> (stage: Stage)
    requires
        run.failure is None,
        stands_at(Stage::Before(id, steps), run, now, old),
    ensures
        ({
            let next = run.next(reply);
            next.failure is None ==> stands_at(stage, next, disk_touched(run, reply, now), old)
        }),
{
    let root = super::step::root_script(Base::Root, Some(id));
    let rest = root + after_root(old);
    assert(super::trees::all_tame(rest)) by {
        lemma_after_record_split(id, old);
        super::trees::lemma_root_tame(Base::Root, Some(id));
    }
    let left = lemma_before_next(steps, rest, run, reply);
    if left.len() == 0 {
        assert(left + rest =~= rest.skip(0));
        Stage::Setting(id, 0)
    } else {
        Stage::Before(id, left)
    }
}

proof fn lemma_stands_setting(
    id: state::Id,
    n: int,
    run: Progress,
    reply: Reply,
    now: Disk,
    old: Option<state::Id>,
) -> (stage: Stage)
    requires
        run.failure is None,
        stands_at(Stage::Setting(id, n), run, now, old),
        is_true(run, reply, now, Base::Root),
    ensures
        ({
            let next = run.next(reply);
            next.failure is None ==> stands_at(stage, next, disk_touched(run, reply, now), old)
        }),
{
    let root = super::step::root_script(Base::Root, Some(id));
    assert(super::trees::all_tame(after_root(old))) by {
        lemma_after_record_split(id, old);
    }
    let next = lemma_making_next(Base::Root, Some(id), after_root(old), n, run, reply, now);
    if run.next(reply).failure is None && next == 27 {
        lemma_made(disk_touched(run, reply, now), Base::Root, Some(id));
        assert((root + after_root(old)).skip(27) =~= after_root(old)) by {
            lemma_root_script_plain(Base::Root, Some(id));
        }
        assert(all_spare_root(after_root(old)));
        Stage::Ready(id)
    } else {
        Stage::Setting(id, next)
    }
}

proof fn lemma_stands(old: Option<state::Id>, replies: Seq<Reply>, disk: Disk) -> (stage: Stage)
    requires
        all_true(super::step::stateful_script(old), replies, disk, Base::Root),
    ensures
        ({
            let (run, now) = set_up(super::step::stateful_script(old), replies, disk);
            run.failure is None ==> stands_at(stage, run, now, old)
        }),
    decreases replies.len(),
{
    let script = super::step::stateful_script(old);
    if replies.len() == 0 {
        Stage::Record
    } else {
        let before = lemma_stands(old, replies.drop_last(), disk);
        let (run, now) = set_up(script, replies.drop_last(), disk);
        let reply = replies.last();
        if run.failure is Some {
            before
        } else {
            match before {
                Stage::Record => lemma_recorded(run, reply, now, old),
                Stage::Before(id, steps) => lemma_stands_before(id, steps, run, reply, now, old),
                Stage::Setting(id, n) => lemma_stands_setting(id, n, run, reply, now, old),
                Stage::Ready(id) => {
                    lemma_spare_next(run, reply, now, Some(id));
                    before
                },
            }
        }
    }
}

proof fn lemma_made(disk: Disk, base: Base, state: Option<state::Id>)
    requires
        making(disk, base, state, 27),
    ensures
        root_is_made(disk, base, state),
{
    assert forall|link: RootLink| #[trigger] link_is_made(disk, base, link) by {
        let i: int = match link {
            RootLink::Sbin => 0,
            RootLink::Bin => 1,
            RootLink::Lib => 2,
            RootLink::Lib64 => 3,
            RootLink::Lib32 => 4,
        };
        assert(link_is_made(disk, base, link_at(i)));
    }
}

// ---------------------------------------------------------------------------
// Laws
// ---------------------------------------------------------------------------

/// Nothing on the disk ever stands against an action that setting up a root asks for: wrong
/// links and plain files are replaced, and directories that are missing are made.
pub proof fn every_action_can_be_done(
    base: Base,
    state: Option<state::Id>,
    replies: Seq<Reply>,
    disk: Disk,
)
    requires
        workable(disk, base),
        all_true(super::step::root_script(base, state), replies, disk, base),
    ensures
        ({
            let (run, now) = set_up(super::step::root_script(base, state), replies, disk);
            run.request() matches Request::Perform(action) ==> can(*action, now)
        }),
{
    let n = lemma_making(base, state, replies, disk);
    let script = super::step::root_script(base, state);
    let (run, now) = set_up(script, replies, disk);
    lemma_root_script_plain(base, state);
    if run.failure is None && n < 27 {
        assert(run.pending[0] == script[n]);
        if n < 25 {
            lemma_link_step(base, state, n / 5, n % 5);
            assert(link_is_workable(now, base, link_at(n / 5)));
        }
    }
}

/// Where none of its calls fails, setting up a root ends well. Then the root has all its links,
/// none of them under its staged name, and its release information, and everything else is as it
/// was.
pub proof fn set_up_roots_are_made(
    base: Base,
    state: Option<state::Id>,
    replies: Seq<Reply>,
    disk: Disk,
)
    requires
        all_true(super::step::root_script(base, state), replies, disk, base),
        none_failed(replies),
        set_up(super::step::root_script(base, state), replies, disk).0.is_done(),
    ensures
        ({
            let (run, now) = set_up(super::step::root_script(base, state), replies, disk);
            &&& run.request() is Finished
            &&& root_is_made(now, base, state)
            &&& same_elsewhere(now, disk, base)
        }),
{
    let n = lemma_making(base, state, replies, disk);
    lemma_root_script_plain(base, state);
    lemma_made(set_up(super::step::root_script(base, state), replies, disk).1, base, state);
}

/// Setting a root up a second time ends well where none of its calls fails, and changes nothing,
/// even where its links lead nowhere.
pub proof fn setting_up_again_changes_nothing(
    base: Base,
    state: Option<state::Id>,
    first: Seq<Reply>,
    second: Seq<Reply>,
    disk: Disk,
)
    requires
        ({
            let script = super::step::root_script(base, state);
            let (run, made) = set_up(script, first, disk);
            &&& all_true(script, first, disk, base)
            &&& run.request() is Finished
            &&& all_true(script, second, made, base)
            &&& none_failed(second)
            &&& set_up(script, second, made).0.is_done()
        }),
    ensures
        ({
            let script = super::step::root_script(base, state);
            let made = set_up(script, first, disk).1;
            let (again, now) = set_up(script, second, made);
            again.request() is Finished && now == made
        }),
{
    let made = set_up(super::step::root_script(base, state), first, disk).1;
    lemma_root_script_plain(base, state);
    let n = lemma_making(base, state, first, disk);
    lemma_made(made, base, state);
    let m = lemma_making(base, state, second, made);
    let n = lemma_remaking(base, state, second, made);
}

/// A new state that ends well leaves a root that is set up for the state that was recorded.
pub proof fn new_state_sets_its_root_up(
    old: Option<state::Id>,
    replies: Seq<Reply>,
    disk: Disk,
)
    requires
        all_true(super::step::stateful_script(old), replies, disk, Base::Root),
        set_up(super::step::stateful_script(old), replies, disk).0.request() is Finished,
    ensures
        ({
            let (run, now) = set_up(super::step::stateful_script(old), replies, disk);
            run.recorded matches Some(state) && root_is_made(now, Base::Root, Some(state.id))
        }),
{
    let stage = lemma_stands(old, replies, disk);
    let (run, now) = set_up(super::step::stateful_script(old), replies, disk);
    match stage {
        Stage::Setting(id, n) => {
            lemma_root_script_plain(Base::Root, Some(id));
            assert(run.pending.len() > 0);
        },
        _ => {},
    }
}

} // verus!
