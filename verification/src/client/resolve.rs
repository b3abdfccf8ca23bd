//! Resolving packages: one for each name, sorted by name.

use super::error::Error;
use crate::package::{self, Package};
use crate::text::Rank;
use vstd::prelude::*;

verus! {

/// Whether `list` is sorted by name with no name twice.
pub open spec fn sorted_by_name(list: Seq<Package>) -> bool {
    forall|i: int, j: int|
        0 <= i < j < list.len() ==> crate::text::name_before(
            #[trigger] list[i].meta.name@,
            #[trigger] list[j].meta.name@,
        )
}

/// Whether `package` is the first of its name in `found`.
pub open spec fn first_of_name(found: Seq<Package>, package: Package) -> bool {
    exists|k: int|
        0 <= k < found.len() && #[trigger] found[k] == package && forall|j: int|
            0 <= j < k ==> #[trigger] found[j].meta.name@ != package.meta.name@
}

/// Whether some package of `list` has the name.
pub open spec fn has_name(list: Seq<Package>, name: Seq<char>) -> bool {
    exists|i: int| 0 <= i < list.len() && #[trigger] list[i].meta.name@ == name
}

/// Whether `list` is `found` sorted by name, with the first package found for each name and no
/// other.
pub open spec fn resolves(found: Seq<Package>, list: Seq<Package>) -> bool {
    &&& sorted_by_name(list)
    &&& forall|i: int| 0 <= i < list.len() ==> first_of_name(found, #[trigger] list[i])
    &&& forall|k: int|
        0 <= k < found.len() ==> has_name(list, (#[trigger] found[k]).meta.name@)
}

/// What the registry found for each of the ids asked for, where it found something for all.
pub open spec fn found_packages(lookups: Seq<(package::Id, Option<Package>)>) -> Seq<Package> {
    lookups.map_values(|lookup: (package::Id, Option<Package>)| lookup.1->0)
}

/// The first id that the registry found nothing for.
pub open spec fn missing(lookups: Seq<(package::Id, Option<Package>)>) -> Option<package::Id> {
    match crate::list::first_where(
        lookups,
        |lookup: (package::Id, Option<Package>)| lookup.1 is None,
    ) {
        Some(lookup) => Some(lookup.0),
        None => None,
    }
}

/// The packages found, sorted by name, with the first one of each name only.
pub open spec fn resolution(found: Seq<Package>) -> Seq<Package> {
    choose|list: Seq<Package>| resolves(found, list)
}

/// What resolving leads to.
pub open spec fn resolved(
    lookups: Seq<(package::Id, Option<Package>)>,
    packages: Result<Vec<Package>, Error>,
) -> bool {
    match missing(lookups) {
        Some(id) => packages == Err::<Vec<Package>, Error>(Error::MissingMetadata(id)),
        None => {
            &&& packages is Ok
            &&& packages->Ok_0@ == resolution(found_packages(lookups))
            &&& resolves(found_packages(lookups), packages->Ok_0@)
        },
    }
}

/// Where `package` goes in `list`: at its place by name, unless the name is taken.
fn insert_by_name(list: &mut Vec<Package>, package: &Package, Ghost(found): Ghost<Seq<Package>>)
    requires
        resolves(found, old(list)@),
    ensures
        resolves(found.push(*package), final(list)@),
{
    let ghost before = list@;
    let mut i: usize = 0;
    while i < list.len()
        invariant
            i <= list@.len(),
            list@ == before,
            sorted_by_name(before),
            forall|j: int|
                0 <= j < i ==> crate::text::name_before(
                    #[trigger] before[j].meta.name@,
                    package.meta.name@,
                ),
        ensures
            i < list@.len() ==> crate::text::name_before(
                package.meta.name@,
                before[i as int].meta.name@,
            ) || before[i as int].meta.name@ == package.meta.name@,
        decreases list@.len() - i,
    {
        let rank = list[i].meta.name.rank(&package.meta.name);
        if rank != Rank::Before {
            break;
        }
        i = i + 1;
    }
    let taken = i < list.len() && list[i].meta.name == package.meta.name;
    if !taken {
        list.insert(i, package.clone());
    }
    proof {
        lemma_insert_by_name(found, before, *package, i as int);
    }
}

proof fn lemma_insert_by_name(
    found: Seq<Package>,
    before: Seq<Package>,
    package: Package,
    i: int,
)
    requires
        resolves(found, before),
        0 <= i <= before.len(),
        forall|j: int|
            0 <= j < i ==> crate::text::name_before(
                #[trigger] before[j].meta.name@,
                package.meta.name@,
            ),
        i < before.len() ==> crate::text::name_before(package.meta.name@, before[i].meta.name@)
            || before[i].meta.name@ == package.meta.name@,
    ensures
        i < before.len() && before[i].meta.name@ == package.meta.name@ ==> resolves(
            found.push(package),
            before,
        ),
        !(i < before.len() && before[i].meta.name@ == package.meta.name@) ==> resolves(
            found.push(package),
            before.insert(i, package),
        ),
{
    let all = found.push(package);
    let name = package.meta.name@;
    assert forall|j: int| 0 <= j < before.len() implies first_of_name(
        all,
        #[trigger] before[j],
    ) by {
        assert(first_of_name(found, before[j]));
        let k = choose|k: int|
            0 <= k < found.len() && #[trigger] found[k] == before[j] && forall|m: int|
                0 <= m < k ==> #[trigger] found[m].meta.name@ != before[j].meta.name@;
        assert(all[k] == before[j]);
        assert forall|m: int| 0 <= m < k implies #[trigger] all[m].meta.name@
            != before[j].meta.name@ by {
            assert(all[m] == found[m]);
        }
    }
    if i < before.len() && before[i].meta.name@ == name {
        assert forall|k: int| 0 <= k < all.len() implies has_name(
            before,
            (#[trigger] all[k]).meta.name@,
        ) by {
            if k < found.len() {
                assert(all[k] == found[k]);
            }
        }
    } else {
        let list = before.insert(i, package);
        assert forall|j: int| i <= j < before.len() implies crate::text::name_before(
            name,
            #[trigger] before[j].meta.name@,
        ) by {
            if j > i {
                crate::text::name_order_is_total(name, before[i].meta.name@, before[j].meta.name@);
            }
        }
        assert forall|a: int, b: int| 0 <= a < b < list.len() implies crate::text::name_before(
            #[trigger] list[a].meta.name@,
            #[trigger] list[b].meta.name@,
        ) by {
            let x = if a < i {
                a
            } else {
                a - 1
            };
            let y = if b < i {
                b
            } else {
                b - 1
            };
            if a != i {
                assert(list[a] == before[x]);
            }
            if b != i {
                assert(list[b] == before[y]);
            }
        }
        assert(first_of_name(all, package)) by {
            assert(all[found.len() as int] == package);
            assert forall|m: int| 0 <= m < found.len() implies #[trigger] all[m].meta.name@
                != name by {
                assert(all[m] == found[m]);
                assert(has_name(before, found[m].meta.name@));
                let p = choose|p: int|
                    0 <= p < before.len() && #[trigger] before[p].meta.name@
                        == found[m].meta.name@;
                crate::text::name_order_is_total(name, before[p].meta.name@, name);
                crate::text::name_order_is_total(before[p].meta.name@, name, name);
            }
        }
        assert forall|j: int| 0 <= j < list.len() implies first_of_name(
            all,
            #[trigger] list[j],
        ) by {
            if j < i {
                assert(list[j] == before[j]);
            } else if j > i {
                assert(list[j] == before[j - 1]);
            }
        }
        assert forall|k: int| 0 <= k < all.len() implies has_name(
            list,
            (#[trigger] all[k]).meta.name@,
        ) by {
            if k < found.len() {
                assert(all[k] == found[k]);
                assert(has_name(before, found[k].meta.name@));
                let p = choose|p: int|
                    0 <= p < before.len() && #[trigger] before[p].meta.name@
                        == found[k].meta.name@;
                if p < i {
                    assert(list[p] == before[p]);
                } else {
                    assert(list[p + 1] == before[p]);
                }
            } else {
                assert(list[i] == package);
            }
        }
    }
}

/// Takes what the registry found first for each id, sorted by name and with the first package
/// of each name only. Fails for the first id that nothing was found for.
pub fn resolve(lookups: &Vec<(package::Id, Option<Package>)>) -> (packages: Result<
    Vec<Package>,
    Error,
>)
    ensures
        resolved(lookups@, packages),
{
    let mut list: Vec<Package> = Vec::new();
    let mut i: usize = 0;
    let ghost found = found_packages(lookups@);
    assert(found.take(0) =~= seq![]);
    while i < lookups.len()
        invariant
            i <= lookups@.len(),
            found == found_packages(lookups@),
            forall|j: int| 0 <= j < i ==> (#[trigger] lookups@[j]).1 is Some,
            resolves(found.take(i as int), list@),
        decreases lookups@.len() - i,
    {
        match &lookups[i].1 {
            Some(package) => {
                insert_by_name(&mut list, package, Ghost(found.take(i as int)));
                assert(found.take(i + 1) =~= found.take(i as int).push(*package));
            },
            None => {
                proof {
                    crate::list::lemma_first_where_skip(
                        lookups@,
                        |lookup: (package::Id, Option<Package>)| lookup.1 is None,
                        i as int,
                    );
                }
                return Err(Error::MissingMetadata(lookups[i].0.clone()));
            },
        }
        i = i + 1;
    }
    assert(found.take(i as int) =~= found);
    proof {
        crate::list::lemma_first_where_skip(
            lookups@,
            |lookup: (package::Id, Option<Package>)| lookup.1 is None,
            i as int,
        );
        resolution_is_unique(found, list@, resolution(found));
    }
    Ok(list)
}

/// Any packages can be resolved.
pub proof fn resolution_exists(found: Seq<Package>)
    ensures
        resolves(found, resolution(found)),
{
    lemma_some_resolution(found);
}

proof fn lemma_some_resolution(found: Seq<Package>)
    ensures
        exists|list: Seq<Package>| resolves(found, list),
    decreases found.len(),
{
    if found.len() == 0 {
        assert(resolves(found, seq![]));
    } else {
        lemma_some_resolution(found.drop_last());
        let before = choose|list: Seq<Package>| resolves(found.drop_last(), list);
        let package = found.last();
        let i = lemma_place(before, package.meta.name@, before.len() as int);
        lemma_insert_by_name(found.drop_last(), before, package, i);
        assert(found.drop_last().push(package) =~= found);
        if i < before.len() && before[i].meta.name@ == package.meta.name@ {
            assert(resolves(found, before));
        } else {
            assert(resolves(found, before.insert(i, package)));
        }
    }
}

/// Among the first `n` packages of a sorted list, the place where a name goes.
proof fn lemma_place(list: Seq<Package>, name: Seq<char>, n: int) -> (i: int)
    requires
        sorted_by_name(list),
        0 <= n <= list.len(),
        n < list.len() ==> crate::text::name_before(name, list[n].meta.name@)
            || list[n].meta.name@ == name,
    ensures
        0 <= i <= list.len(),
        forall|j: int|
            0 <= j < i ==> crate::text::name_before(#[trigger] list[j].meta.name@, name),
        i < list.len() ==> crate::text::name_before(name, list[i].meta.name@)
            || list[i].meta.name@ == name,
    decreases n,
{
    if n == 0 {
        0
    } else if crate::text::name_before(list[n - 1].meta.name@, name) {
        assert forall|j: int| 0 <= j < n implies crate::text::name_before(
            #[trigger] list[j].meta.name@,
            name,
        ) by {
            if j < n - 1 {
                crate::text::name_order_is_total(
                    list[j].meta.name@,
                    list[n - 1].meta.name@,
                    name,
                );
            }
        }
        n
    } else {
        crate::text::name_order_is_total(list[n - 1].meta.name@, name, name);
        lemma_place(list, name, n - 1)
    }
}

/// What is resolved from given packages is determined by them.
pub proof fn resolution_is_unique(found: Seq<Package>, a: Seq<Package>, b: Seq<Package>)
    requires
        resolves(found, a),
        resolves(found, b),
    ensures
        a == b,
{
    lemma_prefix_agrees(found, a, b, a.len() as int);
    lemma_prefix_agrees(found, b, a, b.len() as int);
    assert(a.take(a.len() as int) =~= a);
    assert(b.take(b.len() as int) =~= b);
}

/// The first `n` packages of one resolution are those of the other.
proof fn lemma_prefix_agrees(found: Seq<Package>, a: Seq<Package>, b: Seq<Package>, n: int)
    requires
        resolves(found, a),
        resolves(found, b),
        0 <= n <= a.len(),
    ensures
        n <= b.len(),
        a.take(n) == b.take(n),
    decreases n,
{
    if n > 0 {
        let k = n - 1;
        lemma_prefix_agrees(found, a, b, k);
        // The name of `a[k]` is somewhere in `b`, and not among the first `k`.
        let q = lemma_name_is_elsewhere(found, a, b, k);
        assert(q >= k) by {
            if q < k {
                assert(a.take(k)[q] == b.take(k)[q]);
                assert(a[q].meta.name@ == a[k].meta.name@);
                crate::text::name_order_is_total(a[q].meta.name@, a[k].meta.name@, a[k].meta.name@);
            }
        }
        if q > k {
            // The name of `b[k]` comes before, and is in `a`, so it is among the first `k`.
            let p = lemma_name_is_elsewhere(found, b, a, k);
            if p < k {
                assert(a.take(k)[p] == b.take(k)[p]);
                assert(b[p].meta.name@ == b[k].meta.name@);
                crate::text::name_order_is_total(b[p].meta.name@, b[k].meta.name@, b[k].meta.name@);
            } else {
                crate::text::name_order_is_total(b[k].meta.name@, b[q].meta.name@, b[k].meta.name@);
                if p > k {
                    crate::text::name_order_is_total(a[k].meta.name@, a[p].meta.name@, a[k].meta.name@);
                }
            }
            assert(false);
        }
        lemma_first_is_unique(found, a[k], b[k]);
        assert(a.take(n) =~= a.take(k).push(a[k]));
        assert(b.take(n) =~= b.take(k).push(b[k]));
    }
}

proof fn lemma_name_is_elsewhere(
    found: Seq<Package>,
    a: Seq<Package>,
    b: Seq<Package>,
    k: int,
) -> (q: int)
    requires
        resolves(found, a),
        resolves(found, b),
        0 <= k < a.len(),
    ensures
        0 <= q < b.len(),
        b[q].meta.name@ == a[k].meta.name@,
{
    assert(first_of_name(found, a[k]));
    let m = choose|m: int|
        0 <= m < found.len() && #[trigger] found[m] == a[k] && forall|j: int|
            0 <= j < m ==> #[trigger] found[j].meta.name@ != a[k].meta.name@;
    assert(has_name(b, found[m].meta.name@));
    choose|q: int| 0 <= q < b.len() && #[trigger] b[q].meta.name@ == found[m].meta.name@
}

proof fn lemma_first_is_unique(found: Seq<Package>, x: Package, y: Package)
    requires
        first_of_name(found, x),
        first_of_name(found, y),
        x.meta.name@ == y.meta.name@,
    ensures
        x == y,
{
    let m = choose|m: int|
        0 <= m < found.len() && #[trigger] found[m] == x && forall|j: int|
            0 <= j < m ==> #[trigger] found[j].meta.name@ != x.meta.name@;
    let n = choose|n: int|
        0 <= n < found.len() && #[trigger] found[n] == y && forall|j: int|
            0 <= j < n ==> #[trigger] found[j].meta.name@ != y.meta.name@;
    if m < n {
        assert(found[m].meta.name@ != y.meta.name@);
    } else if n < m {
        assert(found[n].meta.name@ != x.meta.name@);
    }
}

/// Resolving what has been resolved changes nothing.
pub proof fn resolution_is_idempotent(found: Seq<Package>, list: Seq<Package>)
    requires
        resolves(found, list),
    ensures
        resolves(list, list),
{
    assert forall|i: int| 0 <= i < list.len() implies first_of_name(list, #[trigger] list[i]) by {
        assert forall|j: int| 0 <= j < i implies #[trigger] list[j].meta.name@
            != list[i].meta.name@ by {
            crate::text::name_order_is_total(list[j].meta.name@, list[i].meta.name@, list[i].meta.name@);
        }
    }
}

/// Whether packages of the same name are the same package.
pub open spec fn names_tell_packages_apart(found: Seq<Package>) -> bool {
    forall|i: int, j: int|
        0 <= i < found.len() && 0 <= j < found.len() && (#[trigger] found[i]).meta.name@ == (
        #[trigger] found[j]).meta.name@ ==> found[i] == found[j]
}

/// Where names tell packages apart, neither the order in which packages are asked for nor how
/// often one is asked for makes a difference.
pub proof fn order_and_repetition_do_not_matter(
    a: Seq<(package::Id, Option<Package>)>,
    b: Seq<(package::Id, Option<Package>)>,
)
    requires
        forall|lookup: (package::Id, Option<Package>)|
            #[trigger] a.contains(lookup) <==> b.contains(lookup),
        missing(a) is None ==> names_tell_packages_apart(found_packages(a)),
    ensures
        missing(a) is None <==> missing(b) is None,
        missing(a) is None ==> resolution(found_packages(a)) == resolution(found_packages(b)),
{
    let unknown = |lookup: (package::Id, Option<Package>)| lookup.1 is None;
    crate::list::lemma_first_where(a, unknown);
    crate::list::lemma_first_where(b, unknown);
    if missing(a) is Some {
        let lookup = crate::list::first_where(a, unknown)->0;
        assert(a.contains(lookup) && b.contains(lookup));
        let i = choose|i: int| 0 <= i < b.len() && b[i] == lookup;
        assert(unknown(b[i]));
    }
    if missing(b) is Some {
        let lookup = crate::list::first_where(b, unknown)->0;
        assert(a.contains(lookup));
        let i = choose|i: int| 0 <= i < a.len() && a[i] == lookup;
        assert(unknown(a[i]));
    }
    if missing(a) is None {
        let x = found_packages(a);
        let y = found_packages(b);
        let list = resolution(x);
        resolution_exists(x);
        resolution_exists(y);
        assert forall|i: int| 0 <= i < x.len() implies y.contains(#[trigger] x[i]) by {
            assert(a.contains(a[i]));
            let j = choose|j: int| 0 <= j < b.len() && b[j] == a[i];
            assert(y[j] == x[i]);
        }
        assert forall|j: int| 0 <= j < y.len() implies x.contains(#[trigger] y[j]) by {
            assert(b.contains(b[j]));
            assert(a.contains(b[j]));
            let i = choose|i: int| 0 <= i < a.len() && a[i] == b[j];
            assert(x[i] == y[j]);
        }
        assert forall|i: int| 0 <= i < list.len() implies first_of_name(y, #[trigger] list[i]) by {
            let package = list[i];
            assert(first_of_name(x, package));
            let k = choose|k: int| 0 <= k < x.len() && #[trigger] x[k] == package;
            assert(y.contains(x[k]));
            let at = choose|at: int| 0 <= at < y.len() && y[at] == package;
            let first = lemma_first_with_name(y, package.meta.name@, at);
            assert(x.contains(y[first]));
            let l = choose|l: int| 0 <= l < x.len() && x[l] == y[first];
            assert(x[l].meta.name@ == x[k].meta.name@);
            assert(y[first] == package);
        }
        assert forall|j: int| 0 <= j < y.len() implies has_name(
            list,
            (#[trigger] y[j]).meta.name@,
        ) by {
            assert(x.contains(y[j]));
            let i = choose|i: int| 0 <= i < x.len() && x[i] == y[j];
            assert(has_name(list, x[i].meta.name@));
        }
        assert(resolves(y, list));
        resolution_is_unique(y, list, resolution(y));
    }
}

/// The first package with the name of the one at `at`.
proof fn lemma_first_with_name(found: Seq<Package>, name: Seq<char>, at: int) -> (first: int)
    requires
        0 <= at < found.len(),
        found[at].meta.name@ == name,
    ensures
        0 <= first <= at,
        found[first].meta.name@ == name,
        forall|j: int| 0 <= j < first ==> (#[trigger] found[j]).meta.name@ != name,
    decreases at,
{
    if exists|j: int| 0 <= j < at && (#[trigger] found[j]).meta.name@ == name {
        let j = choose|j: int| 0 <= j < at && (#[trigger] found[j]).meta.name@ == name;
        lemma_first_with_name(found, name, j)
    } else {
        at
    }
}

/// Resolving fails exactly when nothing was found for some id, and names the first such id.
pub proof fn the_first_missing_package_is_named(
    lookups: Seq<(package::Id, Option<Package>)>,
    packages: Result<Vec<Package>, Error>,
    k: int,
)
    requires
        resolved(lookups, packages),
        0 <= k <= lookups.len(),
        forall|j: int| 0 <= j < k ==> (#[trigger] lookups[j]).1 is Some,
        k < lookups.len() ==> lookups[k].1 is None,
    ensures
        k < lookups.len() ==> packages == Err::<Vec<Package>, Error>(
            Error::MissingMetadata(lookups[k].0),
        ),
        k == lookups.len() ==> packages is Ok,
{
    let unknown = |lookup: (package::Id, Option<Package>)| lookup.1 is None;
    crate::list::lemma_first_where_skip(lookups, unknown, k);
}

/// What is resolved is what was found: every package is the first that was found under its name,
/// every name that was found is there, and the names come strictly in order.
pub proof fn resolving_keeps_the_first_of_each_name(
    lookups: Seq<(package::Id, Option<Package>)>,
    packages: Result<Vec<Package>, Error>,
)
    requires
        resolved(lookups, packages),
        forall|j: int| 0 <= j < lookups.len() ==> (#[trigger] lookups[j]).1 is Some,
    ensures
        packages is Ok,
        ({
            let list = packages->Ok_0@;
            &&& forall|i: int, j: int|
                0 <= i < j < list.len() ==> crate::text::name_before(
                    (#[trigger] list[i]).meta.name@,
                    (#[trigger] list[j]).meta.name@,
                )
            &&& forall|i: int|
                0 <= i < list.len() ==> exists|k: int|
                    {
                        &&& 0 <= k < lookups.len()
                        &&& (#[trigger] lookups[k]).1 == Some(#[trigger] list[i])
                        &&& forall|j: int|
                            0 <= j < k ==> (#[trigger] lookups[j]).1->0.meta.name@
                                != list[i].meta.name@
                    }
            &&& forall|k: int|
                0 <= k < lookups.len() ==> exists|i: int|
                    0 <= i < list.len() && (#[trigger] list[i]).meta.name@ == (
                    #[trigger] lookups[k]).1->0.meta.name@
        }),
{
    the_first_missing_package_is_named(lookups, packages, lookups.len() as int);
    let unknown = |lookup: (package::Id, Option<Package>)| lookup.1 is None;
    crate::list::lemma_first_where_skip(lookups, unknown, lookups.len() as int);
    let list = packages->Ok_0@;
    let found = found_packages(lookups);
    assert(resolves(found, list));
    assert forall|i: int| 0 <= i < list.len() implies exists|k: int|
        {
            &&& 0 <= k < lookups.len()
            &&& (#[trigger] lookups[k]).1 == Some(#[trigger] list[i])
            &&& forall|j: int|
                0 <= j < k ==> (#[trigger] lookups[j]).1->0.meta.name@ != list[i].meta.name@
        } by {
        assert(first_of_name(found, list[i]));
        let k = choose|k: int|
            0 <= k < found.len() && #[trigger] found[k] == list[i] && forall|j: int|
                0 <= j < k ==> #[trigger] found[j].meta.name@ != list[i].meta.name@;
        assert(lookups[k].1 == Some(list[i]));
        assert forall|j: int| 0 <= j < k implies (#[trigger] lookups[j]).1->0.meta.name@
            != list[i].meta.name@ by {
            assert(found[j].meta.name@ != list[i].meta.name@);
        }
    }
    assert forall|k: int| 0 <= k < lookups.len() implies exists|i: int|
        0 <= i < list.len() && (#[trigger] list[i]).meta.name@ == (
        #[trigger] lookups[k]).1->0.meta.name@ by {
        assert(has_name(list, found[k].meta.name@));
    }
}

} // verus!
