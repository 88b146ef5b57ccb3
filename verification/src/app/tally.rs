//! Counting the components that a walk reached, and the ones that it keeps.

use vstd::prelude::*;

use crate::app::mounted::{distinct, MountedComponent};
use crate::component::Component;

verus! {

/// How many of `components` the walk with the given number reached.
pub open spec fn reached_count<ComponentT: Component>(
    components: Seq<MountedComponent<ComponentT>>,
    generation: usize,
) -> nat
    decreases components.len(),
{
    if components.len() == 0 {
        0
    } else {
        reached_count(components.drop_last(), generation) + if components.last().reached
            == generation {
            1nat
        } else {
            0nat
        }
    }
}

/// The components that the walk with the given number walked, in their
/// order: the ones that are kept when the others are dropped.
pub open spec fn kept<ComponentT: Component>(
    components: Seq<MountedComponent<ComponentT>>,
    generation: usize,
) -> Seq<MountedComponent<ComponentT>>
    decreases components.len(),
{
    if components.len() == 0 {
        components
    } else if components.last().generation == generation {
        kept(components.drop_last(), generation).push(components.last())
    } else {
        kept(components.drop_last(), generation)
    }
}

/// A component that is added counts if it was reached.
pub proof fn lemma_count_push<ComponentT: Component>(
    components: Seq<MountedComponent<ComponentT>>,
    added: MountedComponent<ComponentT>,
    generation: usize,
)
    ensures
        reached_count(components.push(added), generation) == reached_count(
            components,
            generation,
        ) + if added.reached == generation {
            1nat
        } else {
            0nat
        },
{
    assert(components.push(added).drop_last() =~= components);
}

/// Tables in which the same components were reached count the same.
pub proof fn lemma_count_same<ComponentT: Component>(
    first: Seq<MountedComponent<ComponentT>>,
    second: Seq<MountedComponent<ComponentT>>,
    generation: usize,
)
    requires
        first.len() == second.len(),
        forall|j: int|
            0 <= j < first.len() ==> ((#[trigger] first[j]).reached == generation) == (second[j].reached
                == generation),
    ensures
        reached_count(first, generation) == reached_count(second, generation),
    decreases first.len(),
{
    if first.len() > 0 {
        assert(first.last() == first[first.len() - 1]);
        assert forall|j: int| 0 <= j < first.drop_last().len() implies ((
        #[trigger] first.drop_last()[j]).reached == generation) == (second.drop_last()[j].reached
            == generation) by {
            assert(first.drop_last()[j] == first[j]);
        }
        lemma_count_same(first.drop_last(), second.drop_last(), generation);
    }
}

/// Where two tables differ in whether a component was reached at one place
/// only, their counts differ by that component.
pub proof fn lemma_count_flip<ComponentT: Component>(
    first: Seq<MountedComponent<ComponentT>>,
    second: Seq<MountedComponent<ComponentT>>,
    generation: usize,
    i: int,
)
    requires
        first.len() == second.len(),
        0 <= i < first.len(),
        forall|j: int|
            0 <= j < first.len() && j != i ==> ((#[trigger] first[j]).reached == generation) == (
            second[j].reached == generation),
    ensures
        reached_count(second, generation) + if first[i].reached == generation {
            1nat
        } else {
            0nat
        } == reached_count(first, generation) + if second[i].reached == generation {
            1nat
        } else {
            0nat
        },
    decreases first.len(),
{
    let last = first.len() - 1;
    assert(first.last() == first[last]);
    assert(second.last() == second[last]);
    if i == last {
        assert forall|j: int| 0 <= j < first.drop_last().len() implies ((
        #[trigger] first.drop_last()[j]).reached == generation) == (second.drop_last()[j].reached
            == generation) by {
            assert(first.drop_last()[j] == first[j]);
        }
        lemma_count_same(first.drop_last(), second.drop_last(), generation);
    } else {
        assert forall|j: int| 0 <= j < first.drop_last().len() && j != i implies ((
        #[trigger] first.drop_last()[j]).reached == generation) == (second.drop_last()[j].reached
            == generation) by {
            assert(first.drop_last()[j] == first[j]);
        }
        assert(first.drop_last()[i] == first[i]);
        assert(second.drop_last()[i] == second[i]);
        lemma_count_flip(first.drop_last(), second.drop_last(), generation, i);
    }
}

/// A table in which no component was reached counts nothing.
pub proof fn lemma_count_none<ComponentT: Component>(
    components: Seq<MountedComponent<ComponentT>>,
    generation: usize,
)
    requires
        forall|j: int| 0 <= j < components.len() ==> (#[trigger] components[j]).reached != generation,
    ensures
        reached_count(components, generation) == 0,
    decreases components.len(),
{
    if components.len() > 0 {
        assert(components.last() == components[components.len() - 1]);
        assert forall|j: int| 0 <= j < components.drop_last().len() implies (
        #[trigger] components.drop_last()[j]).reached != generation by {
            assert(components.drop_last()[j] == components[j]);
        }
        lemma_count_none(components.drop_last(), generation);
    }
}

/// Where the components that were reached are the ones that were walked,
/// as many are kept as were reached.
pub proof fn lemma_kept_count<ComponentT: Component>(
    components: Seq<MountedComponent<ComponentT>>,
    generation: usize,
)
    requires
        forall|j: int|
            0 <= j < components.len() ==> ((#[trigger] components[j]).generation == generation) == (
            components[j].reached == generation),
    ensures
        kept(components, generation).len() == reached_count(components, generation),
    decreases components.len(),
{
    if components.len() > 0 {
        assert(components.last() == components[components.len() - 1]);
        assert forall|j: int| 0 <= j < components.drop_last().len() implies ((
        #[trigger] components.drop_last()[j]).generation == generation) == (
        components.drop_last()[j].reached == generation) by {
            assert(components.drop_last()[j] == components[j]);
        }
        lemma_kept_count(components.drop_last(), generation);
    }
}

/// The components that are kept are components of the table that were
/// walked, and every such component is kept.
pub proof fn lemma_kept_members<ComponentT: Component>(
    components: Seq<MountedComponent<ComponentT>>,
    generation: usize,
)
    ensures
        kept(components, generation).len() <= components.len(),
        forall|j: int|
            0 <= j < kept(components, generation).len() ==> (#[trigger] kept(
                components,
                generation,
            )[j]).generation == generation && components.contains(kept(components, generation)[j]),
        forall|i: int|
            0 <= i < components.len() && (#[trigger] components[i]).generation == generation ==> kept(
                components,
                generation,
            ).contains(components[i]),
    decreases components.len(),
{
    if components.len() > 0 {
        let rest = components.drop_last();
        let last = components.last();
        lemma_kept_members(rest, generation);
        let all = kept(components, generation);
        assert forall|j: int| 0 <= j < all.len() implies (#[trigger] all[j]).generation
            == generation && components.contains(all[j]) by {
            if j < kept(rest, generation).len() {
                assert(all[j] == kept(rest, generation)[j]);
                assert(rest.contains(all[j]));
                let at = choose|at: int| 0 <= at < rest.len() && rest[at] == all[j];
                assert(components[at] == all[j]);
            } else {
                assert(all[j] == last);
                assert(components[components.len() - 1] == last);
            }
        }
        assert forall|i: int|
            0 <= i < components.len() && (#[trigger] components[i]).generation
                == generation implies all.contains(components[i]) by {
            if i < rest.len() {
                assert(rest[i] == components[i]);
                assert(kept(rest, generation).contains(rest[i]));
                let at = choose|at: int|
                    0 <= at < kept(rest, generation).len() && kept(rest, generation)[at] == rest[i];
                assert(all[at] == components[i]);
            } else {
                assert(all[all.len() - 1] == components[i]);
            }
        }
    }
}

/// Of two tables put together, the components of each are kept in turn.
pub proof fn lemma_kept_add<ComponentT: Component>(
    first: Seq<MountedComponent<ComponentT>>,
    second: Seq<MountedComponent<ComponentT>>,
    generation: usize,
)
    ensures
        kept(first + second, generation) == kept(first, generation) + kept(second, generation),
    decreases second.len(),
{
    if second.len() == 0 {
        assert(first + second =~= first);
        assert(kept(first, generation) + kept(second, generation) =~= kept(first, generation));
    } else {
        assert((first + second).drop_last() =~= first + second.drop_last());
        assert((first + second).last() == second.last());
        lemma_kept_add(first, second.drop_last(), generation);
        assert(kept(first + second, generation) =~= kept(first, generation) + kept(
            second,
            generation,
        ));
    }
}

/// A table of components that were all walked is kept whole.
pub proof fn lemma_kept_all<ComponentT: Component>(
    components: Seq<MountedComponent<ComponentT>>,
    generation: usize,
)
    requires
        forall|j: int|
            0 <= j < components.len() ==> (#[trigger] components[j]).generation == generation,
    ensures
        kept(components, generation) == components,
    decreases components.len(),
{
    if components.len() > 0 {
        assert(components.last() == components[components.len() - 1]);
        assert forall|j: int| 0 <= j < components.drop_last().len() implies (
        #[trigger] components.drop_last()[j]).generation == generation by {
            assert(components.drop_last()[j] == components[j]);
        }
        lemma_kept_all(components.drop_last(), generation);
        assert(components.drop_last().push(components.last()) =~= components);
    }
}

/// The components that are kept go by different identities where those of
/// the table do.
pub proof fn lemma_kept_distinct<ComponentT: Component>(
    components: Seq<MountedComponent<ComponentT>>,
    generation: usize,
)
    requires
        distinct(components),
    ensures
        distinct(kept(components, generation)),
    decreases components.len(),
{
    if components.len() > 0 {
        let rest = components.drop_last();
        let last = components.last();
        assert forall|a: int, b: int| 0 <= a < b < rest.len() implies (#[trigger] rest[a]).id != (
        #[trigger] rest[b]).id by {
            assert(rest[a] == components[a] && rest[b] == components[b]);
        }
        lemma_kept_distinct(rest, generation);
        lemma_kept_members(rest, generation);
        let all = kept(components, generation);
        assert forall|a: int, b: int| 0 <= a < b < all.len() implies (#[trigger] all[a]).id != (
        #[trigger] all[b]).id by {
            if b < kept(rest, generation).len() {
                assert(all[a] == kept(rest, generation)[a]);
                assert(all[b] == kept(rest, generation)[b]);
            } else {
                assert(all[b] == last);
                assert(all[a] == kept(rest, generation)[a]);
                assert(rest.contains(all[a]));
                let at = choose|at: int| 0 <= at < rest.len() && rest[at] == all[a];
                assert(components[at].id != components[components.len() - 1].id);
            }
        }
    }
}

} // verus!
