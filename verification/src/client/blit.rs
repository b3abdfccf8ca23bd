//! Blitting: the steps that put a tree of pending files on the filesystem.

use super::pending::PendingFile;
use super::place::Base;
use crate::layout::Entry;
use crate::text::hex_padded_text;
use vstd::prelude::*;
use vstd::string::*;

verus! {

/// A node of the tree to blit, by its name within its parent.
#[derive(Debug, PartialEq, Eq)]
pub enum Element {
    Directory(String, PendingFile, Vec<Element>),
    Child(String, PendingFile),
}

/// One step of a blit. Names are relative to the directory that was entered last.
#[derive(Debug, PartialEq, Eq)]
pub enum BlitStep {
    /// Open the directory that holds the assets.
    OpenCache,
    /// Remove what the target directory holds from an earlier blit.
    RemoveTarget(Base),
    /// Make the target directory with a mode; that it fails is of no account.
    MakeTarget(Base, u32),
    /// Open the target directory, and enter it.
    OpenTarget(Base),
    /// Leave the target directory, and close it.
    CloseTarget,
    /// Count one more element as done.
    Tick,
    /// Open a directory by its name, and enter it.
    Enter(String),
    /// Leave the directory entered last, and close it.
    Leave,
    /// Link the asset with the digest under a name.
    Link(String, u128),
    /// Set the mode of a name.
    SetMode(String, u32),
    /// Make a symbolic link under a name to a source.
    Symlink(String, String),
    /// Make a directory under a name with a mode.
    MakeDir(String, u32),
}

/// The permission bits of a mode: set-user-ID, set-group-ID, sticky, and read, write and
/// execute for owner, group and others.
pub open spec fn permissions(mode: u32) -> u32 {
    mode & 0o7777
}

/// Calls `nix::sys::stat::Mode::from_bits_truncate` and hands back the bits of the result.
/// Claims that it keeps exactly the bits that some flag of `Mode` names, which on Linux are the
/// lowest twelve.
#[verifier::external_body]
fn mode_from_bits_truncate(mode: u32) -> (bits: u32)
    ensures
        bits == permissions(mode),
{
    nix::sys::stat::Mode::from_bits_truncate(mode).bits()
}

/// Where the asset with the digest is kept, below the directory of assets: three levels of
/// directories by the first six digits, or none for short digests.
pub open spec fn asset_path(digest: nat) -> Seq<char> {
    let hash = crate::text::hex_padded(digest);
    if hash.len() >= 10 {
        hash.subrange(0, 2) + "/"@ + hash.subrange(2, 4) + "/"@ + hash.subrange(4, 6) + "/"@ + hash
    } else {
        hash
    }
}

/// Where the asset with the digest is kept, below the directory of assets.
pub fn asset_path_text(digest: u128) -> (path: String)
    ensures
        path@ == asset_path(digest as nat),
{
    let hash = hex_padded_text(digest);
    if hash.as_str().unicode_len() >= 10 {
        let mut path = hash.as_str().substring_char(0, 2).to_string();
        path.append("/");
        path.append(hash.as_str().substring_char(2, 4));
        path.append("/");
        path.append(hash.as_str().substring_char(4, 6));
        path.append("/");
        path.append(hash.as_str());
        path
    } else {
        hash
    }
}

/// Assets with different digests are kept at different paths.
pub proof fn asset_path_injective(a: nat, b: nat)
    requires
        asset_path(a) == asset_path(b),
    ensures
        a == b,
{
    reveal_strlit("/");
    let x = crate::text::hex_padded(a);
    let y = crate::text::hex_padded(b);
    let p = asset_path(a);
    if x.len() >= 10 {
        assert(x =~= p.subrange(9, p.len() as int));
    }
    if y.len() >= 10 {
        assert(y =~= p.subrange(9, p.len() as int));
    }
    crate::text::hex_padded_injective(a, b);
}

/// An asset lies, under its whole digest, in directories named by the first three pairs of
/// digits; a digest of fewer than ten digits lies at the top.
pub proof fn assets_lie_under_their_digest(digest: nat)
    ensures
        ({
            let hash = crate::text::hex_padded(digest);
            let path = asset_path(digest);
            &&& hash.len() < 10 ==> path == hash
            &&& hash.len() >= 10 ==> {
                &&& path.len() == hash.len() + 9
                &&& path[0] == hash[0] && path[1] == hash[1] && path[2] == '/'
                &&& path[3] == hash[2] && path[4] == hash[3] && path[5] == '/'
                &&& path[6] == hash[4] && path[7] == hash[5] && path[8] == '/'
                &&& path.skip(9) == hash
            }
        }),
{
    reveal_strlit("/");
    let hash = crate::text::hex_padded(digest);
    if hash.len() >= 10 {
        assert(asset_path(digest).skip(9) =~= hash);
    }
}

/// Whether the blit knows how to make the node; devices, fifos and sockets it does not.
pub open spec fn blittable_item(item: PendingFile) -> bool {
    item.layout.entry is Regular || item.layout.entry is Symlink || item.layout.entry is Directory
}

/// Whether the blit knows how to make the node and all below it.
pub open spec fn blittable(element: Element) -> bool
    decreases element,
{
    match element {
        Element::Directory(_, item, children) => blittable_item(item) && all_blittable(children@),
        Element::Child(_, item) => blittable_item(item),
    }
}

/// Whether the blit knows how to make every one of the nodes and all below them.
pub open spec fn all_blittable(children: Seq<Element>) -> bool
    decreases children,
{
    if children.len() == 0 {
        true
    } else {
        all_blittable(children.drop_last()) && blittable(children.last())
    }
}

/// The steps that make the node of `item` under `name`.
pub open spec fn item_steps(name: String, item: PendingFile) -> Seq<BlitStep> {
    match item.layout.entry {
        Entry::Regular(digest, _) => seq![
            BlitStep::Link(name, digest),
            BlitStep::SetMode(name, permissions(item.layout.mode)),
        ],
        Entry::Symlink(source, _) => seq![BlitStep::Symlink(name, source)],
        Entry::Directory(_) => seq![BlitStep::MakeDir(name, permissions(item.layout.mode))],
        _ => seq![],
    }
}

/// The steps that make an element: itself first, then, within it, what it holds.
pub open spec fn element_steps(element: Element) -> Seq<BlitStep>
    decreases element,
{
    match element {
        Element::Directory(name, item, children) => seq![BlitStep::Tick] + item_steps(name, item)
            + seq![BlitStep::Enter(name)] + children_steps(children@) + seq![BlitStep::Leave],
        Element::Child(name, item) => seq![BlitStep::Tick] + item_steps(name, item),
    }
}

/// The steps that make elements one after the other.
pub open spec fn children_steps(children: Seq<Element>) -> Seq<BlitStep>
    decreases children,
{
    if children.len() == 0 {
        seq![]
    } else {
        children_steps(children.drop_last()) + element_steps(children.last())
    }
}

/// The steps that blit a tree to `target`: what was there goes first, and the root directory
/// of the tree is the target itself.
pub open spec fn blit_steps(target: Base, root: Option<Element>) -> Seq<BlitStep> {
    let clear = seq![BlitStep::OpenCache, BlitStep::RemoveTarget(target)];
    let open = seq![BlitStep::MakeTarget(target, 0o755), BlitStep::OpenTarget(target)];
    match root {
        Some(Element::Directory(_, _, children)) => clear + open + children_steps(children@)
            + seq![BlitStep::CloseTarget],
        Some(Element::Child(_, _)) => clear + open + seq![BlitStep::CloseTarget],
        None => clear,
    }
}

/// Whether the blit of a tree knows how to make every node below the root.
pub open spec fn blittable_root(root: Option<Element>) -> bool {
    root matches Some(Element::Directory(_, _, children)) ==> all_blittable(children@)
}

fn push_item(steps: &mut Vec<BlitStep>, name: &String, item: &PendingFile)
    requires
        blittable_item(*item),
    ensures
        final(steps)@ == old(steps)@ + item_steps(*name, *item),
{
    match &item.layout.entry {
        Entry::Regular(digest, _) => {
            steps.push(BlitStep::Link(name.clone(), *digest));
            steps.push(BlitStep::SetMode(name.clone(), mode_from_bits_truncate(item.layout.mode)));
        },
        Entry::Symlink(source, _) => {
            steps.push(BlitStep::Symlink(name.clone(), source.clone()));
        },
        _ => {
            steps.push(BlitStep::MakeDir(name.clone(), mode_from_bits_truncate(item.layout.mode)));
        },
    }
}

fn push_element(steps: &mut Vec<BlitStep>, element: &Element)
    requires
        blittable(*element),
    ensures
        final(steps)@ == old(steps)@ + element_steps(*element),
    decreases element,
{
    steps.push(BlitStep::Tick);
    match element {
        Element::Directory(name, item, children) => {
            push_item(steps, name, item);
            steps.push(BlitStep::Enter(name.clone()));
            push_children(steps, children);
            steps.push(BlitStep::Leave);
        },
        Element::Child(name, item) => {
            push_item(steps, name, item);
        },
    }
}

fn push_children(steps: &mut Vec<BlitStep>, children: &Vec<Element>)
    requires
        all_blittable(children@),
    ensures
        final(steps)@ == old(steps)@ + children_steps(children@),
    decreases children,
{
    let mut i: usize = 0;
    assert(children@.take(0) =~= seq![]);
    while i < children.len()
        invariant
            i <= children@.len(),
            all_blittable(children@),
            steps@ == old(steps)@ + children_steps(children@.take(i as int)),
        decreases children@.len() - i,
    {
        proof {
            lemma_all_blittable(children@, i as int);
            assert(children@.take(i + 1).drop_last() =~= children@.take(i as int));
        }
        push_element(steps, &children[i]);
        i = i + 1;
    }
    assert(children@.take(i as int) =~= children@);
}

proof fn lemma_all_blittable(children: Seq<Element>, i: int)
    requires
        all_blittable(children),
        0 <= i < children.len(),
    ensures
        blittable(children[i]),
    decreases children.len(),
{
    if i < children.len() - 1 {
        lemma_all_blittable(children.drop_last(), i);
    }
}

impl PendingFile {
    /// Whether the blit knows how to make the node.
    pub fn is_blittable(&self) -> (known: bool)
        ensures
            known == blittable_item(*self),
    {
        match &self.layout.entry {
            Entry::Regular(_, _) => true,
            Entry::Symlink(_, _) => true,
            Entry::Directory(_) => true,
            _ => false,
        }
    }
}

impl Element {
    /// Whether the blit knows how to make the node and all below it.
    pub fn is_blittable(&self) -> (known: bool)
        ensures
            known == blittable(*self),
        decreases self,
    {
        match self {
            Element::Directory(_, item, children) => {
                item.is_blittable() && Self::are_blittable(children)
            },
            Element::Child(_, item) => item.is_blittable(),
        }
    }

    /// Whether the blit knows how to make every one of the nodes and all below them.
    pub fn are_blittable(children: &Vec<Element>) -> (known: bool)
        ensures
            known == all_blittable(children@),
        decreases children,
    {
        let mut i: usize = 0;
        assert(children@.take(0) =~= seq![]);
        while i < children.len()
            invariant
                i <= children@.len(),
                all_blittable(children@.take(i as int)),
            decreases children@.len() - i,
        {
            proof {
                assert(children@.take(i + 1).drop_last() =~= children@.take(i as int));
            }
            if !children[i].is_blittable() {
                proof {
                    if all_blittable(children@) {
                        lemma_all_blittable(children@, i as int);
                    }
                }
                return false;
            }
            i = i + 1;
        }
        assert(children@.take(i as int) =~= children@);
        true
    }
}

/// Whether the blit of a tree knows how to make every node below the root.
pub fn is_blittable_root(root: &Option<Element>) -> (known: bool)
    ensures
        known == blittable_root(*root),
{
    match root {
        Some(Element::Directory(_, _, children)) => Element::are_blittable(children),
        _ => true,
    }
}

/// The steps that blit a tree to `target`.
pub fn blit_plan(target: Base, root: &Option<Element>) -> (steps: Vec<BlitStep>)
    requires
        blittable_root(*root),
    ensures
        steps@ == blit_steps(target, *root),
{
    let mut steps: Vec<BlitStep> = Vec::new();
    steps.push(BlitStep::OpenCache);
    steps.push(BlitStep::RemoveTarget(target));
    if let Some(element) = root {
        let mode = mode_from_bits_truncate(0o755);
        assert(0o755u32 & 0o7777 == 0o755) by (bit_vector);
        steps.push(BlitStep::MakeTarget(target, mode));
        steps.push(BlitStep::OpenTarget(target));
        if let Element::Directory(_, _, children) = element {
            push_children(&mut steps, children);
        }
        steps.push(BlitStep::CloseTarget);
    }
    steps
}

// ---------------------------------------------------------------------------
// What a blit amounts to
// ---------------------------------------------------------------------------

/// A step together with the directory it applies to, by the names that lead there.
pub type Placed = (Seq<String>, BlitStep);

/// Follows the directories that `steps` enter and leave, starting from `at`: the steps that
/// change something, each with the directory it applies to, and the directory at the end.
pub open spec fn replay(steps: Seq<BlitStep>, at: Seq<String>) -> (Seq<Placed>, Seq<String>)
    decreases steps.len(),
{
    if steps.len() == 0 {
        (seq![], at)
    } else {
        let (done, here) = replay(steps.drop_last(), at);
        match steps.last() {
            BlitStep::Tick => (done, here),
            BlitStep::Enter(name) => (done, here.push(name)),
            BlitStep::Leave => (done, here.drop_last()),
            step => (done.push((here, step)), here),
        }
    }
}

/// What a tree asks for: each of its nodes, in the directory that the tree has it in.
pub open spec fn listing(element: Element, at: Seq<String>) -> Seq<Placed>
    decreases element,
{
    match element {
        Element::Directory(name, item, children) => placed(item_steps(name, item), at)
            + listing_all(children@, at.push(name)),
        Element::Child(name, item) => placed(item_steps(name, item), at),
    }
}

/// What trees ask for, one after the other.
pub open spec fn listing_all(children: Seq<Element>, at: Seq<String>) -> Seq<Placed>
    decreases children,
{
    if children.len() == 0 {
        seq![]
    } else {
        listing_all(children.drop_last(), at) + listing(children.last(), at)
    }
}

/// All of `steps` in the directory `at`.
pub open spec fn placed(steps: Seq<BlitStep>, at: Seq<String>) -> Seq<Placed> {
    steps.map_values(|step: BlitStep| (at, step))
}

/// How many nodes a tree has.
pub open spec fn size(element: Element) -> nat
    decreases element,
{
    match element {
        Element::Directory(_, _, children) => 1 + size_all(children@),
        Element::Child(_, _) => 1,
    }
}

/// How many nodes trees have together.
pub open spec fn size_all(children: Seq<Element>) -> nat
    decreases children,
{
    if children.len() == 0 {
        0
    } else {
        size_all(children.drop_last()) + size(children.last())
    }
}

/// How often `steps` count an element as done.
pub open spec fn ticks(steps: Seq<BlitStep>) -> nat {
    steps.filter(|step: BlitStep| step is Tick).len()
}

proof fn lemma_replay_concat(a: Seq<BlitStep>, b: Seq<BlitStep>, at: Seq<String>)
    ensures
        ({
            let (x, mid) = replay(a, at);
            let (y, end) = replay(b, mid);
            replay(a + b, at) == (x + y, end)
        }),
    decreases b.len(),
{
    let (x, mid) = replay(a, at);
    if b.len() == 0 {
        assert(a + b =~= a);
        assert(x + seq![] =~= x);
    } else {
        lemma_replay_concat(a, b.drop_last(), at);
        let (y, here) = replay(b.drop_last(), mid);
        assert((a + b).drop_last() =~= a + b.drop_last());
        assert((a + b).last() == b.last());
        let (z, end) = replay(b, mid);
        assert(replay(a + b, at).0 =~= x + z);
    }
}

proof fn lemma_replay_plain(steps: Seq<BlitStep>, at: Seq<String>)
    requires
        forall|i: int|
            0 <= i < steps.len() ==> !(#[trigger] steps[i] is Tick || steps[i] is Enter
                || steps[i] is Leave),
    ensures
        replay(steps, at) == (placed(steps, at), at),
    decreases steps.len(),
{
    if steps.len() > 0 {
        lemma_replay_plain(steps.drop_last(), at);
        assert(steps.last() == steps[steps.len() - 1]);
        assert(placed(steps.drop_last(), at).push((at, steps.last())) =~= placed(steps, at));
    } else {
        assert(placed(steps, at) =~= seq![]);
    }
}

proof fn lemma_replay_element(element: Element, at: Seq<String>)
    ensures
        replay(element_steps(element), at) == (listing(element, at), at),
    decreases element,
{
    let tick = seq![BlitStep::Tick];
    assert(replay(tick, at) == (Seq::<Placed>::empty(), at)) by {
        reveal_with_fuel(replay, 2);
        assert(tick.drop_last() =~= seq![]);
    }
    match element {
        Element::Directory(name, item, children) => {
            let own = item_steps(name, item);
            let enter = seq![BlitStep::Enter(name)];
            let inner = children_steps(children@);
            let leave = seq![BlitStep::Leave];
            let within = at.push(name);
            lemma_replay_plain(own, at);
            lemma_replay_concat(tick, own, at);
            assert(replay(tick + own, at).0 =~= placed(own, at));
            assert(replay(enter, at) == (Seq::<Placed>::empty(), within)) by {
                reveal_with_fuel(replay, 2);
                assert(enter.drop_last() =~= seq![]);
            }
            lemma_replay_concat(tick + own, enter, at);
            assert(replay(tick + own + enter, at).0 =~= placed(own, at));
            lemma_replay_children(children@, within);
            lemma_replay_concat(tick + own + enter, inner, at);
            assert(replay(leave, within) == (Seq::<Placed>::empty(), at)) by {
                reveal_with_fuel(replay, 2);
                assert(leave.drop_last() =~= seq![]);
                assert(within.drop_last() =~= at);
            }
            lemma_replay_concat(tick + own + enter + inner, leave, at);
            assert(replay(element_steps(element), at).0 =~= listing(element, at));
        },
        Element::Child(name, item) => {
            let own = item_steps(name, item);
            lemma_replay_plain(own, at);
            lemma_replay_concat(tick, own, at);
            assert(replay(tick + own, at).0 =~= placed(own, at));
        },
    }
}

/// The steps that make elements amount to what the elements ask for.
pub proof fn lemma_replay_children(children: Seq<Element>, at: Seq<String>)
    ensures
        replay(children_steps(children), at) == (listing_all(children, at), at),
    decreases children,
{
    if children.len() > 0 {
        lemma_replay_children(children.drop_last(), at);
        lemma_replay_element(children.last(), at);
        lemma_replay_concat(
            children_steps(children.drop_last()),
            element_steps(children.last()),
            at,
        );
    }
}

/// A blit makes exactly the nodes of the tree, each in the directory that the tree has it in,
/// and leaves every directory that it enters.
pub proof fn blit_makes_the_tree(
    target: Base,
    name: String,
    item: PendingFile,
    children: Vec<Element>,
)
    ensures
        ({
            let top = Seq::<String>::empty();
            let steps = blit_steps(target, Some(Element::Directory(name, item, children)));
            let clear = seq![
                BlitStep::OpenCache,
                BlitStep::RemoveTarget(target),
                BlitStep::MakeTarget(target, 0o755),
                BlitStep::OpenTarget(target),
            ];
            replay(steps, top) == (
                placed(clear, top) + listing_all(children@, top) + placed(
                    seq![BlitStep::CloseTarget],
                    top,
                ),
                top,
            )
        }),
{
    let top = Seq::<String>::empty();
    let clear = seq![
        BlitStep::OpenCache,
        BlitStep::RemoveTarget(target),
        BlitStep::MakeTarget(target, 0o755),
        BlitStep::OpenTarget(target),
    ];
    let close = seq![BlitStep::CloseTarget];
    let inner = children_steps(children@);
    assert(blit_steps(target, Some(Element::Directory(name, item, children))) =~= clear + inner
        + close);
    lemma_replay_plain(clear, top);
    lemma_replay_children(children@, top);
    lemma_replay_plain(close, top);
    lemma_replay_concat(clear, inner, top);
    lemma_replay_concat(clear + inner, close, top);
}

/// What a blit of the tree leaves in its target.
pub open spec fn blitted(root: Option<Element>) -> Seq<Placed> {
    match root {
        Some(Element::Directory(_, _, children)) => listing_all(children@, Seq::empty()),
        _ => seq![],
    }
}

/// Whether a step works within the target of a blit.
pub open spec fn is_inner(step: BlitStep) -> bool {
    match step {
        BlitStep::Tick
        | BlitStep::Enter(_)
        | BlitStep::Leave
        | BlitStep::Link(_, _)
        | BlitStep::SetMode(_, _)
        | BlitStep::Symlink(_, _)
        | BlitStep::MakeDir(_, _) => true,
        _ => false,
    }
}

/// Whether all of `steps` work within the target of a blit.
pub open spec fn all_inner(steps: Seq<BlitStep>) -> bool {
    forall|i: int| 0 <= i < steps.len() ==> is_inner(#[trigger] steps[i])
}

proof fn lemma_element_inner(element: Element)
    ensures
        all_inner(element_steps(element)),
    decreases element,
{
    if let Element::Directory(_, _, children) = element {
        lemma_children_inner(children@);
    }
}

/// Elements are made within the target.
pub proof fn lemma_children_inner(children: Seq<Element>)
    ensures
        all_inner(children_steps(children)),
    decreases children,
{
    if children.len() > 0 {
        lemma_children_inner(children.drop_last());
        lemma_element_inner(children.last());
    }
}

proof fn lemma_ticks_concat(a: Seq<BlitStep>, b: Seq<BlitStep>)
    ensures
        ticks(a + b) == ticks(a) + ticks(b),
{
    let is_tick = |step: BlitStep| step is Tick;
    Seq::filter_distributes_over_add(a, b, is_tick);
}

proof fn lemma_ticks_none(steps: Seq<BlitStep>)
    requires
        forall|i: int| 0 <= i < steps.len() ==> !(#[trigger] steps[i] is Tick),
    ensures
        ticks(steps) == 0,
{
    let is_tick = |step: BlitStep| step is Tick;
    steps.lemma_all_neg_filter_empty(is_tick);
}

proof fn lemma_ticks_element(element: Element)
    ensures
        ticks(element_steps(element)) == size(element),
    decreases element,
{
    let tick = seq![BlitStep::Tick];
    assert(ticks(tick) == 1) by {
        let is_tick = |step: BlitStep| step is Tick;
        assert(tick =~= Seq::<BlitStep>::empty().push(BlitStep::Tick));
        Seq::<BlitStep>::empty().lemma_filter_push(BlitStep::Tick, is_tick);
        lemma_ticks_none(seq![]);
    }
    match element {
        Element::Directory(name, item, children) => {
            let own = item_steps(name, item);
            let enter = seq![BlitStep::Enter(name)];
            let inner = children_steps(children@);
            let leave = seq![BlitStep::Leave];
            lemma_ticks_none(own);
            lemma_ticks_none(enter);
            lemma_ticks_none(leave);
            lemma_ticks_children(children@);
            lemma_ticks_concat(tick, own);
            lemma_ticks_concat(tick + own, enter);
            lemma_ticks_concat(tick + own + enter, inner);
            lemma_ticks_concat(tick + own + enter + inner, leave);
        },
        Element::Child(name, item) => {
            let own = item_steps(name, item);
            lemma_ticks_none(own);
            lemma_ticks_concat(tick, own);
        },
    }
}

proof fn lemma_ticks_children(children: Seq<Element>)
    ensures
        ticks(children_steps(children)) == size_all(children),
    decreases children,
{
    if children.len() > 0 {
        lemma_ticks_children(children.drop_last());
        lemma_ticks_element(children.last());
        lemma_ticks_concat(
            children_steps(children.drop_last()),
            element_steps(children.last()),
        );
    } else {
        lemma_ticks_none(seq![]);
    }
}

/// A blit counts every node below the root as done exactly once.
pub proof fn blit_counts_every_node(
    target: Base,
    name: String,
    item: PendingFile,
    children: Vec<Element>,
)
    ensures
        ticks(blit_steps(target, Some(Element::Directory(name, item, children)))) == size_all(
            children@,
        ),
{
    let clear = seq![
        BlitStep::OpenCache,
        BlitStep::RemoveTarget(target),
        BlitStep::MakeTarget(target, 0o755),
        BlitStep::OpenTarget(target),
    ];
    let close = seq![BlitStep::CloseTarget];
    let inner = children_steps(children@);
    assert(blit_steps(target, Some(Element::Directory(name, item, children))) =~= clear + inner
        + close);
    lemma_ticks_none(clear);
    lemma_ticks_none(close);
    lemma_ticks_children(children@);
    lemma_ticks_concat(clear, inner);
    lemma_ticks_concat(clear + inner, close);
}

// ---------------------------------------------------------------------------
// What a blit makes of each node
// ---------------------------------------------------------------------------

/// A tree can be blitted exactly when no node of it is a device, a fifo or a socket.
pub proof fn only_special_files_stop_a_blit(
    name: String,
    item: PendingFile,
    children: Vec<Element>,
    list: Seq<Element>,
)
    ensures
        ({
            let special = item.layout.entry is CharacterDevice || item.layout.entry is BlockDevice
                || item.layout.entry is Fifo || item.layout.entry is Socket;
            &&& blittable(Element::Child(name, item)) <==> !special
            &&& blittable(Element::Directory(name, item, children)) <==> !special
                && all_blittable(children@)
            &&& blittable_root(Some(Element::Directory(name, item, children))) <==> all_blittable(
                children@,
            )
        }),
        blittable_root(None),
        blittable_root(Some(Element::Child(name, item))),
        all_blittable(list) <==> forall|k: int|
            0 <= k < list.len() ==> blittable(#[trigger] list[k]),
{
    lemma_each_blittable(list);
}

proof fn lemma_each_blittable(list: Seq<Element>)
    ensures
        all_blittable(list) <==> forall|k: int|
            0 <= k < list.len() ==> blittable(#[trigger] list[k]),
    decreases list.len(),
{
    if list.len() > 0 {
        let rest = list.drop_last();
        lemma_each_blittable(rest);
        assert(forall|k: int| 0 <= k < rest.len() ==> rest[k] == list[k]);
        if all_blittable(list) {
            assert forall|k: int| 0 <= k < list.len() implies blittable(#[trigger] list[k]) by {
                if k < rest.len() {
                    assert(blittable(rest[k]));
                }
            }
        } else if forall|k: int| 0 <= k < list.len() ==> blittable(#[trigger] list[k]) {
            assert(blittable(list[list.len() - 1]));
            assert forall|k: int| 0 <= k < rest.len() implies blittable(#[trigger] rest[k]) by {
                assert(blittable(list[k]));
            }
        }
    }
}

/// The steps for two lists of nodes are those for the one, then those for the other. A node is
/// counted and then made, by one or two steps that say what it is; a directory is then entered,
/// filled with what it holds, and left.
pub proof fn nodes_are_made_one_by_one(
    a: Seq<Element>,
    b: Seq<Element>,
    name: String,
    item: PendingFile,
    children: Vec<Element>,
)
    ensures
        children_steps(seq![]) == Seq::<BlitStep>::empty(),
        children_steps(a + b) == children_steps(a) + children_steps(b),
        children_steps(seq![Element::Directory(name, item, children)]) == children_steps(
            seq![Element::Child(name, item)],
        ) + seq![BlitStep::Enter(name)] + children_steps(children@) + seq![BlitStep::Leave],
        match item.layout.entry {
            Entry::Regular(digest, _) => children_steps(seq![Element::Child(name, item)]) == seq![
                BlitStep::Tick,
                BlitStep::Link(name, digest),
                BlitStep::SetMode(name, item.layout.mode & 0o7777),
            ],
            Entry::Symlink(source, _) => children_steps(seq![Element::Child(name, item)]) == seq![
                BlitStep::Tick,
                BlitStep::Symlink(name, source),
            ],
            Entry::Directory(_) => children_steps(seq![Element::Child(name, item)]) == seq![
                BlitStep::Tick,
                BlitStep::MakeDir(name, item.layout.mode & 0o7777),
            ],
            _ => children_steps(seq![Element::Child(name, item)]) == seq![BlitStep::Tick],
        },
{
    lemma_children_concat(a, b);
    lemma_children_single(Element::Directory(name, item, children));
    lemma_children_single(Element::Child(name, item));
}

proof fn lemma_children_single(element: Element)
    ensures
        children_steps(seq![element]) == element_steps(element),
{
    assert(seq![element].drop_last() =~= seq![]);
    assert(children_steps(seq![element].drop_last()) =~= seq![]);
    assert(seq![] + element_steps(element) =~= element_steps(element));
}

proof fn lemma_children_concat(a: Seq<Element>, b: Seq<Element>)
    ensures
        children_steps(a + b) == children_steps(a) + children_steps(b),
    decreases b.len(),
{
    if b.len() == 0 {
        assert(a + b =~= a);
        assert(children_steps(a) + children_steps(b) =~= children_steps(a));
    } else {
        lemma_children_concat(a, b.drop_last());
        assert((a + b).drop_last() =~= a + b.drop_last());
        assert(children_steps(a + b) =~= children_steps(a) + children_steps(b));
    }
}

/// A blit without a tree only clears its target. One of a tree makes the target anew, fills it
/// with what the root directory of the tree holds, and closes it.
pub proof fn blits_fill_a_cleared_target(
    target: Base,
    name: String,
    item: PendingFile,
    children: Vec<Element>,
)
    ensures
        blit_steps(target, None) == seq![BlitStep::OpenCache, BlitStep::RemoveTarget(target)],
        blit_steps(target, Some(Element::Child(name, item))) == seq![
            BlitStep::OpenCache,
            BlitStep::RemoveTarget(target),
            BlitStep::MakeTarget(target, 0o755),
            BlitStep::OpenTarget(target),
            BlitStep::CloseTarget,
        ],
        blit_steps(target, Some(Element::Directory(name, item, children))) == seq![
            BlitStep::OpenCache,
            BlitStep::RemoveTarget(target),
            BlitStep::MakeTarget(target, 0o755),
            BlitStep::OpenTarget(target),
        ] + children_steps(children@) + seq![BlitStep::CloseTarget],
{
}

/// Whether the trees have a node with the name and the item, at any depth.
pub open spec fn has_node(children: Seq<Element>, name: String, item: PendingFile) -> bool
    decreases children,
{
    if children.len() == 0 {
        false
    } else {
        ||| has_node(children.drop_last(), name, item)
        ||| match children.last() {
            Element::Directory(own, file, inner) => (own == name && file == item) || has_node(
                inner@,
                name,
                item,
            ),
            Element::Child(own, file) => own == name && file == item,
        }
    }
}

proof fn lemma_node_made(children: Seq<Element>, name: String, item: PendingFile) -> (at: int)
    requires
        has_node(children, name, item),
    ensures
        ({
            let steps = children_steps(children);
            let own = item_steps(name, item);
            &&& 1 <= at
            &&& at + own.len() <= steps.len()
            &&& steps[at - 1] is Tick
            &&& steps.subrange(at, at + own.len()) == own
        }),
    decreases children,
{
    let steps = children_steps(children);
    let own = item_steps(name, item);
    let before = children_steps(children.drop_last());
    if has_node(children.drop_last(), name, item) {
        let at = lemma_node_made(children.drop_last(), name, item);
        assert(steps.subrange(at, at + own.len()) =~= before.subrange(at, at + own.len()));
        at
    } else {
        let from = before.len() as int;
        let last = element_steps(children.last());
        match children.last() {
            Element::Directory(other, file, inner) => {
                if other == name && file == item {
                    assert(steps.subrange(from + 1, from + 1 + own.len()) =~= own);
                    from + 1
                } else {
                    let at = lemma_node_made(inner@, name, item);
                    let within = children_steps(inner@);
                    let shift = from + 2 + item_steps(other, file).len();
                    assert forall|j: int| 0 <= j < within.len() implies steps[shift + j]
                        == #[trigger] within[j] by {
                        assert(last[shift - from + j] == within[j]);
                    }
                    assert(steps.subrange(shift + at, shift + at + own.len())
                        =~= within.subrange(at, at + own.len()));
                    assert(steps[shift + (at - 1)] == within[at - 1]);
                    shift + at
                }
            },
            Element::Child(_, _) => {
                assert(steps.subrange(from + 1, from + 1 + own.len()) =~= own);
                from + 1
            },
        }
    }
}

/// Wherever the tree has a regular file, the blit counts it, links the asset with exactly the
/// file's digest under its name, and at once gives it the permission bits of the file's mode.
pub proof fn files_are_linked_by_their_digest(
    target: Base,
    root: Element,
    name: String,
    item: PendingFile,
    digest: u128,
    path: String,
)
    requires
        root is Directory,
        has_node(root->Directory_2@, name, item),
        item.layout.entry == Entry::Regular(digest, path),
    ensures
        ({
            let steps = blit_steps(target, Some(root));
            exists|at: int|
                {
                    &&& 1 <= at
                    &&& at + 1 < steps.len()
                    &&& steps[at - 1] is Tick
                    &&& #[trigger] steps[at] == BlitStep::Link(name, digest)
                    &&& steps[at + 1] == BlitStep::SetMode(name, item.layout.mode & 0o7777)
                }
        }),
{
    let inner = children_steps(root->Directory_2@);
    let steps = blit_steps(target, Some(root));
    let at = lemma_node_made(root->Directory_2@, name, item);
    let own = inner.subrange(at, at + 2);
    assert(own[0] == inner[at] && own[1] == inner[at + 1]);
    assert(forall|j: int| 0 <= j < inner.len() ==> steps[j + 4] == inner[j]);
    assert(steps[at + 4] == inner[at]);
    assert(steps[at + 5] == inner[at + 1]);
    assert(steps[at + 3] == inner[at - 1]);
}

/// Wherever the tree has a symbolic link, the blit counts it, and makes it under its name to
/// exactly what it points to.
pub proof fn links_are_made_to_their_source(
    target: Base,
    root: Element,
    name: String,
    item: PendingFile,
    source: String,
    path: String,
)
    requires
        root is Directory,
        has_node(root->Directory_2@, name, item),
        item.layout.entry == Entry::Symlink(source, path),
    ensures
        ({
            let steps = blit_steps(target, Some(root));
            exists|at: int|
                {
                    &&& 1 <= at < steps.len()
                    &&& steps[at - 1] is Tick
                    &&& #[trigger] steps[at] == BlitStep::Symlink(name, source)
                }
        }),
{
    let inner = children_steps(root->Directory_2@);
    let steps = blit_steps(target, Some(root));
    let at = lemma_node_made(root->Directory_2@, name, item);
    let own = inner.subrange(at, at + 1);
    assert(own[0] == inner[at]);
    assert(forall|j: int| 0 <= j < inner.len() ==> steps[j + 4] == inner[j]);
    assert(steps[at + 4] == inner[at]);
    assert(steps[at + 3] == inner[at - 1]);
}

/// Wherever the tree has a directory, the blit counts it, and makes it under its name with the
/// permission bits of its mode.
pub proof fn directories_are_made_with_their_mode(
    target: Base,
    root: Element,
    name: String,
    item: PendingFile,
    path: String,
)
    requires
        root is Directory,
        has_node(root->Directory_2@, name, item),
        item.layout.entry == Entry::Directory(path),
    ensures
        ({
            let steps = blit_steps(target, Some(root));
            exists|at: int|
                {
                    &&& 1 <= at < steps.len()
                    &&& steps[at - 1] is Tick
                    &&& #[trigger] steps[at] == BlitStep::MakeDir(name, item.layout.mode & 0o7777)
                }
        }),
{
    let inner = children_steps(root->Directory_2@);
    let steps = blit_steps(target, Some(root));
    let at = lemma_node_made(root->Directory_2@, name, item);
    let own = inner.subrange(at, at + 1);
    assert(own[0] == inner[at]);
    assert(forall|j: int| 0 <= j < inner.len() ==> steps[j + 4] == inner[j]);
    assert(steps[at + 4] == inner[at]);
    assert(steps[at + 3] == inner[at - 1]);
}

proof fn lemma_made_node(children: Seq<Element>, at: int) -> (node: (String, PendingFile))
    requires
        0 <= at < children_steps(children).len(),
        ({
            let step = children_steps(children)[at];
            step is Link || step is Symlink || step is MakeDir
        }),
    ensures
        has_node(children, node.0, node.1),
        ({
            let steps = children_steps(children);
            let own = item_steps(node.0, node.1);
            &&& own.len() > 0
            &&& at + own.len() <= steps.len()
            &&& steps.subrange(at, at + own.len()) == own
        }),
    decreases children,
{
    let steps = children_steps(children);
    let before = children_steps(children.drop_last());
    let from = before.len() as int;
    if at < from {
        assert(before[at] == steps[at]);
        let node = lemma_made_node(children.drop_last(), at);
        let own = item_steps(node.0, node.1);
        assert(steps.subrange(at, at + own.len()) =~= before.subrange(at, at + own.len()));
        node
    } else {
        let last = element_steps(children.last());
        assert(steps[at] == last[at - from]);
        match children.last() {
            Element::Directory(name, item, inner) => {
                let own = item_steps(name, item);
                let within = children_steps(inner@);
                let shift = from + 2 + own.len();
                if at < shift - 1 {
                    assert(last[at - from] == own[at - from - 1]);
                    assert(at == from + 1);
                    assert(steps.subrange(at, at + own.len()) =~= own);
                    (name, item)
                } else {
                    assert(shift <= at < shift + within.len());
                    assert forall|j: int| 0 <= j < within.len() implies steps[shift + j]
                        == #[trigger] within[j] by {
                        assert(last[shift - from + j] == within[j]);
                    }
                    assert(steps[shift + (at - shift)] == within[at - shift]);
                    let node = lemma_made_node(inner@, at - shift);
                    let deep = item_steps(node.0, node.1);
                    assert(steps.subrange(at, at + deep.len()) =~= within.subrange(
                        at - shift,
                        at - shift + deep.len(),
                    ));
                    node
                }
            },
            Element::Child(name, item) => {
                let own = item_steps(name, item);
                assert(last[at - from] == own[at - from - 1]);
                assert(at == from + 1);
                assert(steps.subrange(at, at + own.len()) =~= own);
                (name, item)
            },
        }
    }
}

/// A blit makes nothing that the tree does not ask for: what it links, under whatever name, is a
/// regular file of the tree with that name and digest, which gets the permission bits of its
/// mode; what it makes a symbolic link is one of the tree to the same source; and what it makes
/// a directory is one of the tree with the same permission bits.
pub proof fn nothing_else_is_made(target: Base, root: Element, at: int)
    requires
        root is Directory,
        0 <= at < blit_steps(target, Some(root)).len(),
    ensures
        ({
            let steps = blit_steps(target, Some(root));
            let children = root->Directory_2@;
            &&& steps[at] is Link ==> exists|item: PendingFile|
                {
                    &&& #[trigger] has_node(children, steps[at]->Link_0, item)
                    &&& item.layout.entry is Regular
                    &&& item.layout.entry->Regular_0 == steps[at]->Link_1
                    &&& at + 1 < steps.len()
                    &&& steps[at + 1] == BlitStep::SetMode(
                        steps[at]->Link_0,
                        item.layout.mode & 0o7777,
                    )
                }
            &&& steps[at] is Symlink ==> exists|item: PendingFile|
                {
                    &&& #[trigger] has_node(children, steps[at]->Symlink_0, item)
                    &&& item.layout.entry is Symlink
                    &&& item.layout.entry->Symlink_0 == steps[at]->Symlink_1
                }
            &&& steps[at] is MakeDir ==> exists|item: PendingFile|
                {
                    &&& #[trigger] has_node(children, steps[at]->MakeDir_0, item)
                    &&& item.layout.entry is Directory
                    &&& steps[at]->MakeDir_1 == item.layout.mode & 0o7777
                }
        }),
{
    let steps = blit_steps(target, Some(root));
    let children = root->Directory_2@;
    let inner = children_steps(children);
    let step = steps[at];
    if step is Link || step is Symlink || step is MakeDir {
        assert(4 <= at < 4 + inner.len());
        assert(steps[at] == inner[at - 4]);
        let (name, item) = lemma_made_node(children, at - 4);
        let own = item_steps(name, item);
        let made = inner.subrange(at - 4, at - 4 + own.len());
        assert(made == own);
        assert(made[0] == inner[at - 4]);
        assert(own[0] == step);
        match step {
            BlitStep::Link(_, _) => {
                assert(item.layout.entry is Regular);
                assert(made[1] == inner[at - 3]);
                assert(steps[at + 1] == inner[at - 3]);
                assert(has_node(children, steps[at]->Link_0, item));
            },
            BlitStep::Symlink(_, _) => {
                assert(item.layout.entry is Symlink);
                assert(has_node(children, steps[at]->Symlink_0, item));
            },
            _ => {
                assert(item.layout.entry is Directory);
                assert(has_node(children, steps[at]->MakeDir_0, item));
            },
        }
    }
}

} // verus!
