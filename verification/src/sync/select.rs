//! What a sync selects: which candidates it swaps in, what it changes, and how the packages of
//! the new state come to be selected.

use crate::package::{self, Package};
use crate::state::Selection;
use vstd::prelude::*;

verus! {

/// What becomes of an installed package.
#[derive(Debug, PartialEq, Eq)]
pub struct Choice {
    /// The package that takes its place, or its own id.
    pub id: package::Id,
    /// Whether the installed package was asked for by name.
    pub explicit: bool,
    /// Whether another package takes its place.
    pub updated: bool,
}

/// Whether some package of `list` has the id.
pub open spec fn has_id(list: Seq<Package>, id: Seq<char>) -> bool {
    exists|i: int| 0 <= i < list.len() && #[trigger] list[i].id@ == id
}

/// Whether `candidate` takes the place of `package`: it is not installed already, and, for
/// upgrades only, it is a later release.
pub open spec fn replaces(
    installed: Seq<Package>,
    upgrade_only: bool,
    package: Package,
    candidate: Package,
) -> bool {
    &&& !has_id(installed, candidate.id@)
    &&& upgrade_only ==> candidate.meta.source_release > package.meta.source_release
}

/// What becomes of `package`, of which the highest priority repository has `candidate`.
pub open spec fn choice(
    installed: Seq<Package>,
    upgrade_only: bool,
    package: Package,
    candidate: Option<Package>,
) -> Choice {
    match candidate {
        Some(candidate) => if replaces(installed, upgrade_only, package, candidate) {
            Choice { id: candidate.id, explicit: package.flags.explicit, updated: true }
        } else {
            Choice { id: package.id, explicit: package.flags.explicit, updated: false }
        },
        None => Choice { id: package.id, explicit: package.flags.explicit, updated: false },
    }
}

/// What becomes of each installed package.
pub open spec fn choices(
    installed: Seq<Package>,
    upgrade_only: bool,
    candidates: Seq<Option<Package>>,
) -> Seq<Choice> {
    Seq::new(
        installed.len(),
        |i: int| choice(installed, upgrade_only, installed[i], candidates[i]),
    )
}

/// The packages that were asked for by name.
pub open spec fn explicit_ids(choices: Seq<Choice>) -> Seq<package::Id> {
    choices.filter_map(
        |choice: Choice|
            if choice.explicit {
                Some(choice.id)
            } else {
                None
            },
    )
}

/// The packages that take the place of others.
pub open spec fn updated_ids(choices: Seq<Choice>) -> Seq<package::Id> {
    choices.filter_map(
        |choice: Choice|
            if choice.updated {
                Some(choice.id)
            } else {
                None
            },
    )
}

/// The packages to fetch: for a stateful client those that are not installed, for an ephemeral
/// one all.
pub open spec fn synced(
    finalized: Seq<Package>,
    installed: Seq<Package>,
    ephemeral: bool,
) -> Seq<Package> {
    finalized.filter(|package: Package| ephemeral || !has_id(installed, package.id@))
}

/// The installed packages of which no build is left.
pub open spec fn removed(installed: Seq<Package>, finalized: Seq<Package>) -> Seq<Package> {
    installed.filter(
        |package: Package| !crate::client::resolve::has_name(finalized, package.meta.name@),
    )
}

/// The id under which the selection of `package` is found in the previous state: that of the
/// installed package with its name, if there is one.
pub open spec fn lookup_id(installed: Seq<Package>, package: Package) -> package::Id {
    match crate::list::first_where(
        installed,
        |other: Package| other.meta.name@ == package.meta.name@,
    ) {
        Some(other) => other.id,
        None => package.id,
    }
}

/// How `package` is selected in the new state: as it was in the previous one, or else as a
/// package that another one pulled in.
pub open spec fn selection(
    package: Package,
    installed: Seq<Package>,
    previous: Seq<Selection>,
) -> Selection {
    let id = lookup_id(installed, package);
    match crate::list::first_where(previous, |old: Selection| old.package@ == id@) {
        Some(old) => Selection { package: package.id, ..old },
        None => Selection { package: package.id, explicit: false, reason: None },
    }
}

/// How each package is selected in the new state.
pub open spec fn selections(
    finalized: Seq<Package>,
    installed: Seq<Package>,
    previous: Seq<Selection>,
) -> Seq<Selection> {
    finalized.map_values(|package: Package| selection(package, installed, previous))
}

fn contains_id(list: &Vec<Package>, id: &package::Id) -> (found: bool)
    ensures
        found == has_id(list@, id@),
{
    let mut i: usize = 0;
    while i < list.len()
        invariant
            i <= list@.len(),
            forall|j: int| 0 <= j < i ==> #[trigger] list@[j].id@ != id@,
        decreases list@.len() - i,
    {
        if list[i].id == *id {
            assert(list@[i as int].id@ == id@);
            return true;
        }
        i = i + 1;
    }
    false
}

fn contains_name(list: &Vec<Package>, name: &package::Name) -> (found: bool)
    ensures
        found == crate::client::resolve::has_name(list@, name@),
{
    let mut i: usize = 0;
    while i < list.len()
        invariant
            i <= list@.len(),
            forall|j: int| 0 <= j < i ==> #[trigger] list@[j].meta.name@ != name@,
        decreases list@.len() - i,
    {
        if list[i].meta.name == *name {
            assert(list@[i as int].meta.name@ == name@);
            return true;
        }
        i = i + 1;
    }
    false
}

/// Swaps each installed package for its candidate, where that is to take its place. A candidate
/// is the first available package with the name.
pub fn choose_packages(
    installed: &Vec<Package>,
    upgrade_only: bool,
    candidates: &Vec<Option<Package>>,
) -> (chosen: Vec<Choice>)
    requires
        candidates@.len() == installed@.len(),
    ensures
        chosen@ == choices(installed@, upgrade_only, candidates@),
{
    let mut chosen: Vec<Choice> = Vec::new();
    let ghost whole = choices(installed@, upgrade_only, candidates@);
    let mut i: usize = 0;
    while i < installed.len()
        invariant
            i <= installed@.len(),
            candidates@.len() == installed@.len(),
            whole == choices(installed@, upgrade_only, candidates@),
            chosen@ == whole.take(i as int),
        decreases installed@.len() - i,
    {
        let package = &installed[i];
        let explicit = package.flags.explicit;
        let mut choice = Choice { id: package.id.clone(), explicit, updated: false };
        if let Some(candidate) = &candidates[i] {
            let upgrade_check = if upgrade_only {
                candidate.meta.source_release > package.meta.source_release
            } else {
                true
            };
            if !contains_id(installed, &candidate.id) && upgrade_check {
                choice = Choice { id: candidate.id.clone(), explicit, updated: true };
            }
        }
        assert(choice == whole[i as int]);
        chosen.push(choice);
        i = i + 1;
        assert(chosen@ =~= whole.take(i as int));
    }
    assert(chosen@ =~= whole);
    chosen
}

/// The packages that were asked for by name.
pub fn explicit_packages(chosen: &Vec<Choice>) -> (ids: Vec<package::Id>)
    ensures
        ids@ == explicit_ids(chosen@),
{
    let mut ids: Vec<package::Id> = Vec::new();
    let mut i: usize = 0;
    let ghost pick = |choice: Choice|
        if choice.explicit {
            Some(choice.id)
        } else {
            None
        };
    assert(chosen@.take(0) =~= seq![]);
    while i < chosen.len()
        invariant
            i <= chosen@.len(),
            pick == (|choice: Choice|
                if choice.explicit {
                    Some(choice.id)
                } else {
                    None
                }),
            ids@ == chosen@.take(i as int).filter_map(pick),
        decreases chosen@.len() - i,
    {
        proof {
            chosen@.lemma_filter_map_take_succ(pick, i as int);
        }
        if chosen[i].explicit {
            ids.push(chosen[i].id.clone());
        }
        i = i + 1;
        assert(ids@ =~= chosen@.take(i as int).filter_map(pick));
    }
    assert(chosen@.take(i as int) =~= chosen@);
    ids
}

/// The packages that take the place of others.
pub fn updated_packages(chosen: &Vec<Choice>) -> (ids: Vec<package::Id>)
    ensures
        ids@ == updated_ids(chosen@),
{
    let mut ids: Vec<package::Id> = Vec::new();
    let mut i: usize = 0;
    let ghost pick = |choice: Choice|
        if choice.updated {
            Some(choice.id)
        } else {
            None
        };
    assert(chosen@.take(0) =~= seq![]);
    while i < chosen.len()
        invariant
            i <= chosen@.len(),
            pick == (|choice: Choice|
                if choice.updated {
                    Some(choice.id)
                } else {
                    None
                }),
            ids@ == chosen@.take(i as int).filter_map(pick),
        decreases chosen@.len() - i,
    {
        proof {
            chosen@.lemma_filter_map_take_succ(pick, i as int);
        }
        if chosen[i].updated {
            ids.push(chosen[i].id.clone());
        }
        i = i + 1;
        assert(ids@ =~= chosen@.take(i as int).filter_map(pick));
    }
    assert(chosen@.take(i as int) =~= chosen@);
    ids
}

/// The packages to fetch.
pub fn synced_packages(
    finalized: &Vec<Package>,
    installed: &Vec<Package>,
    ephemeral: bool,
) -> (packages: Vec<Package>)
    ensures
        packages@ == synced(finalized@, installed@, ephemeral),
{
    let mut packages: Vec<Package> = Vec::new();
    let mut i: usize = 0;
    let ghost wanted = |package: Package| ephemeral || !has_id(installed@, package.id@);
    proof {
        assert(finalized@.take(0) =~= seq![]);
        reveal(Seq::filter);
    }
    while i < finalized.len()
        invariant
            i <= finalized@.len(),
            wanted == (|package: Package| ephemeral || !has_id(installed@, package.id@)),
            packages@ == finalized@.take(i as int).filter(wanted),
        decreases finalized@.len() - i,
    {
        proof {
            assert(finalized@.take(i + 1) =~= finalized@.take(i as int).push(
                finalized@[i as int],
            ));
            finalized@.take(i as int).lemma_filter_push(finalized@[i as int], wanted);
        }
        if ephemeral || !contains_id(installed, &finalized[i].id) {
            packages.push(finalized[i].clone());
        }
        i = i + 1;
    }
    assert(finalized@.take(i as int) =~= finalized@);
    packages
}

/// The installed packages of which no build is left.
pub fn removed_packages(installed: &Vec<Package>, finalized: &Vec<Package>) -> (packages: Vec<
    Package,
>)
    ensures
        packages@ == removed(installed@, finalized@),
{
    let mut packages: Vec<Package> = Vec::new();
    let mut i: usize = 0;
    let ghost gone = |package: Package|
        !crate::client::resolve::has_name(finalized@, package.meta.name@);
    proof {
        assert(installed@.take(0) =~= seq![]);
        reveal(Seq::filter);
    }
    while i < installed.len()
        invariant
            i <= installed@.len(),
            gone == (|package: Package|
                !crate::client::resolve::has_name(finalized@, package.meta.name@)),
            packages@ == installed@.take(i as int).filter(gone),
        decreases installed@.len() - i,
    {
        proof {
            assert(installed@.take(i + 1) =~= installed@.take(i as int).push(
                installed@[i as int],
            ));
            installed@.take(i as int).lemma_filter_push(installed@[i as int], gone);
        }
        if !contains_name(finalized, &installed[i].meta.name) {
            packages.push(installed[i].clone());
        }
        i = i + 1;
    }
    assert(installed@.take(i as int) =~= installed@);
    packages
}

fn find_lookup_id(installed: &Vec<Package>, package: &Package) -> (id: package::Id)
    ensures
        id == lookup_id(installed@, *package),
{
    let ghost named = |other: Package| other.meta.name@ == package.meta.name@;
    let mut i: usize = 0;
    while i < installed.len()
        invariant
            i <= installed@.len(),
            named == (|other: Package| other.meta.name@ == package.meta.name@),
            forall|j: int| 0 <= j < i ==> !named(#[trigger] installed@[j]),
        decreases installed@.len() - i,
    {
        if installed[i].meta.name == package.meta.name {
            proof {
                crate::list::lemma_first_where_skip(installed@, named, i as int);
            }
            return installed[i].id.clone();
        }
        i = i + 1;
    }
    proof {
        crate::list::lemma_first_where_skip(installed@, named, i as int);
    }
    package.id.clone()
}

fn select_package(
    package: &Package,
    installed: &Vec<Package>,
    previous: &Vec<Selection>,
) -> (selected: Selection)
    ensures
        selected == selection(*package, installed@, previous@),
{
    let id = find_lookup_id(installed, package);
    let ghost known = |old: Selection| old.package@ == id@;
    let mut i: usize = 0;
    while i < previous.len()
        invariant
            i <= previous@.len(),
            id == lookup_id(installed@, *package),
            known == (|old: Selection| old.package@ == id@),
            forall|j: int| 0 <= j < i ==> !known(#[trigger] previous@[j]),
        decreases previous@.len() - i,
    {
        if previous[i].package == id {
            proof {
                crate::list::lemma_first_where_skip(previous@, known, i as int);
            }
            let old = previous[i].clone();
            return Selection {
                package: package.id.clone(),
                explicit: old.explicit,
                reason: old.reason,
            };
        }
        i = i + 1;
    }
    proof {
        crate::list::lemma_first_where_skip(previous@, known, i as int);
    }
    Selection { package: package.id.clone(), explicit: false, reason: None }
}

/// How each package is selected in the new state.
pub fn new_selections(
    finalized: &Vec<Package>,
    installed: &Vec<Package>,
    previous: &Vec<Selection>,
) -> (selected: Vec<Selection>)
    ensures
        selected@ == selections(finalized@, installed@, previous@),
{
    let mut selected: Vec<Selection> = Vec::new();
    let ghost whole = selections(finalized@, installed@, previous@);
    let mut i: usize = 0;
    while i < finalized.len()
        invariant
            i <= finalized@.len(),
            whole == selections(finalized@, installed@, previous@),
            selected@ == whole.take(i as int),
        decreases finalized@.len() - i,
    {
        selected.push(select_package(&finalized[i], installed, previous));
        i = i + 1;
        assert(selected@ =~= whole.take(i as int));
    }
    assert(selected@ =~= whole);
    selected
}

// ---------------------------------------------------------------------------
// What holds of the selection
// ---------------------------------------------------------------------------

/// A package that is swapped is swapped for its candidate, which is not installed already, and
/// which, for upgrades only, is a later release. Any other package stays what it is. Whether a
/// package was asked for by name carries over.
pub proof fn swaps_are_sound(
    installed: Seq<Package>,
    upgrade_only: bool,
    candidates: Seq<Option<Package>>,
    i: int,
)
    requires
        candidates.len() == installed.len(),
        0 <= i < installed.len(),
    ensures
        ({
            let choice = choices(installed, upgrade_only, candidates)[i];
            &&& choice.explicit == installed[i].flags.explicit
            &&& !choice.updated ==> choice.id == installed[i].id
            &&& choice.updated ==> {
                &&& candidates[i] is Some
                &&& choice.id == candidates[i]->0.id
                &&& !has_id(installed, choice.id@)
                &&& upgrade_only ==> candidates[i]->0.meta.source_release
                    > installed[i].meta.source_release
            }
        }),
{
}

/// An installed package is swapped exactly when there is a candidate, no installed package has
/// the candidate's id, and, for upgrades only, the candidate is a later release. Nothing else
/// keeps a candidate out: not whether the package was asked for by name, nor what other packages
/// are swapped. What takes the place is the candidate.
pub proof fn fitting_candidates_are_swapped_in(
    installed: Seq<Package>,
    upgrade_only: bool,
    candidates: Seq<Option<Package>>,
    i: int,
)
    requires
        candidates.len() == installed.len(),
        0 <= i < installed.len(),
    ensures
        choices(installed, upgrade_only, candidates).len() == installed.len(),
        ({
            let choice = choices(installed, upgrade_only, candidates)[i];
            match candidates[i] {
                Some(candidate) => {
                    let there = exists|j: int|
                        0 <= j < installed.len() && (#[trigger] installed[j]).id@ == candidate.id@;
                    let later = candidate.meta.source_release > installed[i].meta.source_release;
                    &&& choice.updated <==> !there && (upgrade_only ==> later)
                    &&& choice.updated ==> choice.id == candidate.id
                    &&& !choice.updated ==> choice.id == installed[i].id
                },
                None => !choice.updated && choice.id == installed[i].id,
            }
        }),
        choices(installed, upgrade_only, candidates)[i].explicit == installed[i].flags.explicit,
{
}

/// The ids asked for by name, and those that take the place of others, come in the order of the
/// packages, each as often as it occurs: one more choice at the end adds its id at the end, if
/// it is flagged so, and changes nothing else.
pub proof fn ids_come_in_order(all: Seq<Choice>, last: Choice)
    ensures
        explicit_ids(seq![]) == Seq::<package::Id>::empty(),
        last.explicit ==> explicit_ids(all.push(last)) == explicit_ids(all).push(last.id),
        !last.explicit ==> explicit_ids(all.push(last)) == explicit_ids(all),
        updated_ids(seq![]) == Seq::<package::Id>::empty(),
        last.updated ==> updated_ids(all.push(last)) == updated_ids(all).push(last.id),
        !last.updated ==> updated_ids(all.push(last)) == updated_ids(all),
{
    assert(all.push(last).drop_last() =~= all);
}

/// What is fetched comes in the order of the new packages: one more package at the end is
/// fetched last if the client is ephemeral or no installed package has its id, and else changes
/// nothing.
pub proof fn fetched_packages_come_in_order(
    finalized: Seq<Package>,
    last: Package,
    installed: Seq<Package>,
    ephemeral: bool,
)
    ensures
        synced(seq![], installed, ephemeral) == Seq::<Package>::empty(),
        ({
            let there = exists|j: int|
                0 <= j < installed.len() && (#[trigger] installed[j]).id@ == last.id@;
            let before = synced(finalized, installed, ephemeral);
            synced(finalized.push(last), installed, ephemeral) == (if ephemeral || !there {
                before.push(last)
            } else {
                before
            })
        }),
{
    reveal(Seq::filter);
    assert(finalized.push(last).drop_last() =~= finalized);
}

/// What is removed comes in the order of the installed packages: one more package at the end is
/// removed last if no new package has its name, and else changes nothing.
pub proof fn removed_packages_come_in_order(
    installed: Seq<Package>,
    last: Package,
    finalized: Seq<Package>,
)
    ensures
        removed(seq![], finalized) == Seq::<Package>::empty(),
        ({
            let left = exists|j: int|
                0 <= j < finalized.len() && (#[trigger] finalized[j]).meta.name@
                    == last.meta.name@;
            let before = removed(installed, finalized);
            removed(installed.push(last), finalized) == (if left {
                before
            } else {
                before.push(last)
            })
        }),
{
    reveal(Seq::filter);
    assert(installed.push(last).drop_last() =~= installed);
}

/// Where every candidate is installed already, or there is none, nothing is swapped, and the
/// packages asked for by name are those installed so.
pub proof fn up_to_date_swaps_nothing(
    installed: Seq<Package>,
    upgrade_only: bool,
    candidates: Seq<Option<Package>>,
)
    requires
        candidates.len() == installed.len(),
        forall|i: int|
            0 <= i < candidates.len() ==> (#[trigger] candidates[i] matches Some(candidate)
                ==> has_id(installed, candidate.id@)),
    ensures
        updated_ids(choices(installed, upgrade_only, candidates)) == Seq::<package::Id>::empty(),
        explicit_ids(choices(installed, upgrade_only, candidates)) == installed.filter_map(
            |package: Package|
                if package.flags.explicit {
                    Some(package.id)
                } else {
                    None
                },
        ),
{
    let all = choices(installed, upgrade_only, candidates);
    assert forall|i: int| 0 <= i < all.len() implies !(#[trigger] all[i]).updated && all[i].id
        == installed[i].id && all[i].explicit == installed[i].flags.explicit by {
        assert(candidates[i] matches Some(candidate) ==> has_id(installed, candidate.id@));
    }
    lemma_no_updates(all);
    lemma_explicit_agree(all, installed);
}

proof fn lemma_no_updates(all: Seq<Choice>)
    requires
        forall|i: int| 0 <= i < all.len() ==> !(#[trigger] all[i]).updated,
    ensures
        updated_ids(all) == Seq::<package::Id>::empty(),
    decreases all.len(),
{
    if all.len() > 0 {
        assert(!all[all.len() - 1].updated);
        assert forall|i: int| 0 <= i < all.drop_last().len() implies !(
        #[trigger] all.drop_last()[i]).updated by {
            assert(all.drop_last()[i] == all[i]);
        }
        lemma_no_updates(all.drop_last());
    }
}

proof fn lemma_explicit_agree(all: Seq<Choice>, installed: Seq<Package>)
    requires
        all.len() == installed.len(),
        forall|i: int|
            0 <= i < all.len() ==> (#[trigger] all[i]).id == installed[i].id && all[i].explicit
                == installed[i].flags.explicit,
    ensures
        explicit_ids(all) == installed.filter_map(
            |package: Package|
                if package.flags.explicit {
                    Some(package.id)
                } else {
                    None
                },
        ),
    decreases all.len(),
{
    if all.len() > 0 {
        let last = all.len() - 1;
        assert(all[last].id == installed[last].id);
        assert forall|i: int| 0 <= i < all.drop_last().len() implies (
        #[trigger] all.drop_last()[i]).id == installed.drop_last()[i].id
            && all.drop_last()[i].explicit == installed.drop_last()[i].flags.explicit by {
            assert(all.drop_last()[i] == all[i]);
        }
        lemma_explicit_agree(all.drop_last(), installed.drop_last());
    }
}

/// A stateful sync fetches exactly the packages of the new state that are not installed; an
/// ephemeral one fetches all of them.
pub proof fn synced_is_what_is_not_there(
    finalized: Seq<Package>,
    installed: Seq<Package>,
    package: Package,
)
    ensures
        synced(finalized, installed, true) == finalized,
        synced(finalized, installed, false).contains(package) <==> finalized.contains(package)
            && !has_id(installed, package.id@),
{
    let wanted = |ephemeral: bool|
        |package: Package| ephemeral || !has_id(installed, package.id@);
    lemma_filter_all(finalized, wanted(true));
    lemma_filter_membership(finalized, wanted(false), package);
}

/// A sync removes exactly the installed packages whose name the new state does not have.
pub proof fn removed_is_what_has_no_build_left(
    installed: Seq<Package>,
    finalized: Seq<Package>,
    package: Package,
)
    ensures
        removed(installed, finalized).contains(package) <==> installed.contains(package)
            && !crate::client::resolve::has_name(finalized, package.meta.name@),
{
    let gone = |package: Package|
        !crate::client::resolve::has_name(finalized, package.meta.name@);
    lemma_filter_membership(installed, gone, package);
}

/// A stateful sync to packages that are all installed, and that have every installed name, has
/// nothing to do.
pub proof fn in_sync_changes_nothing(finalized: Seq<Package>, installed: Seq<Package>)
    requires
        forall|i: int|
            0 <= i < finalized.len() ==> has_id(installed, (#[trigger] finalized[i]).id@),
        forall|i: int|
            0 <= i < installed.len() ==> crate::client::resolve::has_name(
                finalized,
                (#[trigger] installed[i]).meta.name@,
            ),
    ensures
        synced(finalized, installed, false).len() == 0,
        removed(installed, finalized).len() == 0,
{
    if synced(finalized, installed, false).len() > 0 {
        let package = synced(finalized, installed, false)[0];
        assert(synced(finalized, installed, false).contains(package));
        synced_is_what_is_not_there(finalized, installed, package);
    }
    if removed(installed, finalized).len() > 0 {
        let package = removed(installed, finalized)[0];
        assert(removed(installed, finalized).contains(package));
        removed_is_what_has_no_build_left(installed, finalized, package);
    }
}

proof fn lemma_filter_all(list: Seq<Package>, wanted: spec_fn(Package) -> bool)
    requires
        forall|package: Package| #[trigger] wanted(package),
    ensures
        list.filter(wanted) == list,
    decreases list.len(),
{
    reveal(Seq::filter);
    if list.len() > 0 {
        lemma_filter_all(list.drop_last(), wanted);
        assert(list.drop_last().push(list.last()) =~= list);
    }
}

proof fn lemma_filter_membership(
    list: Seq<Package>,
    wanted: spec_fn(Package) -> bool,
    package: Package,
)
    ensures
        list.filter(wanted).contains(package) <==> list.contains(package) && wanted(package),
    decreases list.len(),
{
    reveal(Seq::filter);
    if list.len() > 0 {
        let rest = list.drop_last();
        lemma_filter_membership(rest, wanted, package);
        assert(list =~= rest.push(list.last()));
        if list.contains(package) {
            let i = choose|i: int| 0 <= i < list.len() && list[i] == package;
            if i < rest.len() {
                assert(rest[i] == package);
            }
        }
        if rest.contains(package) {
            let i = choose|i: int| 0 <= i < rest.len() && rest[i] == package;
            assert(list[i] == package);
        }
        let kept = rest.filter(wanted);
        if wanted(list.last()) {
            assert(kept.push(list.last())[kept.len() as int] == list.last());
            if kept.contains(package) {
                let i = choose|i: int| 0 <= i < kept.len() && kept[i] == package;
                assert(kept.push(list.last())[i] == package);
            }
        }
        assert(list[list.len() - 1] == list.last());
    }
}

/// The new state selects its packages one by one. A package keeps the flag and the reason that
/// the previous state had for the installed package of its name; where that has no selection,
/// the package counts as pulled in by another one.
pub proof fn selections_carry_over(
    finalized: Seq<Package>,
    installed: Seq<Package>,
    previous: Seq<Selection>,
    i: int,
)
    requires
        0 <= i < finalized.len(),
    ensures
        selections(finalized, installed, previous).len() == finalized.len(),
        ({
            let new = selections(finalized, installed, previous)[i];
            let id = lookup_id(installed, finalized[i]);
            &&& new.package == finalized[i].id
            &&& (forall|k: int| 0 <= k < previous.len() ==> (#[trigger] previous[k]).package@ != id@)
                ==> !new.explicit && new.reason is None
            &&& (exists|k: int| 0 <= k < previous.len() && (#[trigger] previous[k]).package@ == id@)
                ==> exists|k: int|
                0 <= k < previous.len() && (#[trigger] previous[k]).package@ == id@ && new.explicit
                    == previous[k].explicit && new.reason == previous[k].reason
        }),
{
    let id = lookup_id(installed, finalized[i]);
    let known = |old: Selection| old.package@ == id@;
    crate::list::lemma_first_where(previous, known);
    match crate::list::first_where(previous, known) {
        Some(old) => {
            let k = choose|k: int| 0 <= k < previous.len() && previous[k] == old;
            assert(known(previous[k]));
        },
        None => {
            assert forall|k: int| 0 <= k < previous.len() implies (
            #[trigger] previous[k]).package@ != id@ by {
                assert(!known(previous[k]));
            }
        },
    }
}

/// An installed package that is the only one of its name and stays in the new state keeps its
/// selection unchanged.
pub proof fn unchanged_package_keeps_its_selection(
    package: Package,
    installed: Seq<Package>,
    previous: Seq<Selection>,
    k: int,
)
    requires
        installed.contains(package),
        forall|i: int|
            0 <= i < installed.len() ==> ((#[trigger] installed[i]).meta.name@
                == package.meta.name@ ==> installed[i] == package),
        0 <= k < previous.len(),
        previous[k].package == package.id,
        forall|j: int| 0 <= j < k ==> (#[trigger] previous[j]).package@ != package.id@,
    ensures
        selection(package, installed, previous) == previous[k],
{
    let named = |other: Package| other.meta.name@ == package.meta.name@;
    crate::list::lemma_first_where(installed, named);
    let at = choose|at: int| 0 <= at < installed.len() && installed[at] == package;
    assert(named(installed[at]));
    assert(lookup_id(installed, package) == package.id);
    let known = |old: Selection| old.package@ == package.id@;
    crate::list::lemma_first_where_skip(previous, known, k);
}

/// A package is selected by its own id. Its flag and its reason are those of the first previous
/// selection of the first installed package with its name, or of itself where none is installed;
/// where there is no such selection, it was not asked for by name and has no reason. Here `at`
/// and `known` are where those are found, or the lengths of the lists where they are not.
pub proof fn selections_follow_the_first_match(
    package: Package,
    installed: Seq<Package>,
    previous: Seq<Selection>,
    at: int,
    known: int,
)
    requires
        0 <= at <= installed.len(),
        forall|j: int|
            0 <= j < at ==> (#[trigger] installed[j]).meta.name@ != package.meta.name@,
        at < installed.len() ==> installed[at].meta.name@ == package.meta.name@,
        ({
            let id = if at < installed.len() {
                installed[at].id@
            } else {
                package.id@
            };
            &&& 0 <= known <= previous.len()
            &&& forall|j: int| 0 <= j < known ==> (#[trigger] previous[j]).package@ != id
            &&& known < previous.len() ==> previous[known].package@ == id
        }),
    ensures
        ({
            let new = selection(package, installed, previous);
            &&& new.package == package.id
            &&& known < previous.len() ==> new.explicit == previous[known].explicit && new.reason
                == previous[known].reason
            &&& known == previous.len() ==> !new.explicit && new.reason is None
        }),
{
    let named = |other: Package| other.meta.name@ == package.meta.name@;
    crate::list::lemma_first_where_skip(installed, named, at);
    let id = lookup_id(installed, package);
    let matches_id = |old: Selection| old.package@ == id@;
    crate::list::lemma_first_where_skip(previous, matches_id, known);
}

} // verus!
