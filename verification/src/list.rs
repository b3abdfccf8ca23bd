//! Searching lists.

use vstd::prelude::*;

verus! {

/// The first element that has a property, if there is one.
pub open spec fn first_where<A>(list: Seq<A>, property: spec_fn(A) -> bool) -> Option<A>
    decreases list.len(),
{
    if list.len() == 0 {
        None
    } else if property(list[0]) {
        Some(list[0])
    } else {
        first_where(list.drop_first(), property)
    }
}

/// Elements without the property do not matter to where the first one with it is.
pub proof fn lemma_first_where_skip<A>(list: Seq<A>, property: spec_fn(A) -> bool, i: int)
    requires
        0 <= i <= list.len(),
        forall|j: int| 0 <= j < i ==> !property(#[trigger] list[j]),
    ensures
        first_where(list, property) == first_where(list.skip(i), property),
        i < list.len() && property(list[i]) ==> first_where(list, property) == Some(list[i]),
        i == list.len() ==> first_where(list, property) is None,
    decreases i,
{
    if i == 0 {
        assert(list.skip(0) =~= list);
    } else {
        assert(!property(list[0]));
        assert forall|j: int| 0 <= j < i - 1 implies !property(
            #[trigger] list.drop_first()[j],
        ) by {
            assert(list.drop_first()[j] == list[j + 1]);
        }
        lemma_first_where_skip(list.drop_first(), property, i - 1);
        assert(list.drop_first().skip(i - 1) =~= list.skip(i));
    }
}

/// The first element with a property is in the list, and has it; and where some element has it,
/// there is a first one.
pub proof fn lemma_first_where<A>(list: Seq<A>, property: spec_fn(A) -> bool)
    ensures
        first_where(list, property) matches Some(found) ==> property(found) && list.contains(found),
        first_where(list, property) is None ==> forall|i: int|
            0 <= i < list.len() ==> !property(#[trigger] list[i]),
    decreases list.len(),
{
    if list.len() > 0 {
        let rest = list.drop_first();
        lemma_first_where(rest, property);
        assert forall|i: int| 0 <= i < rest.len() implies list.contains(#[trigger] rest[i]) by {
            assert(rest[i] == list[i + 1]);
        }
        if first_where(list, property) is None {
            assert forall|i: int| 0 <= i < list.len() implies !property(#[trigger] list[i]) by {
                if i > 0 {
                    assert(list[i] == rest[i - 1]);
                }
            }
        }
    }
}

} // verus!
