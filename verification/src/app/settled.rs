//! Trees that are settled: a walk finds them as they are.

use vstd::prelude::*;

use crate::app::mounted::MountedComponent;
use crate::component::Component;
use crate::component::layout::{Laid, laid_out, Layout};
use crate::component::template::ComponentId;
use crate::terminal::Rect;
use crate::terminal::canvas::Canvas;

verus! {

/// Whether the component that goes by `id` is mounted and has the region
/// `frame`.
pub open spec fn placed<ComponentT: Component>(
    components: Seq<MountedComponent<ComponentT>>,
    id: ComponentId,
    frame: Rect,
) -> bool {
    exists|i: int|
        0 <= i < components.len() && (#[trigger] components[i]).id == id && components[i].frame
            == frame
}

/// Whether every component among the leaves `laid` is mounted and has the
/// region that the layout gives it.
pub open spec fn all_placed<'a, ComponentT: Component>(
    components: Seq<MountedComponent<ComponentT>>,
    laid: Seq<Laid<'a, ComponentT::Properties>>,
) -> bool {
    forall|k: int|
        0 <= k < laid.len() ==> match #[trigger] laid[k] {
            Laid::Component { id, frame, .. } => placed(components, id, frame),
            Laid::Canvas { .. } => true,
        }
}

/// Whether the component at `i` is at rest: it was rendered, has not asked
/// to be rendered since, and every component that it shows is mounted and
/// has the region that it gives it.
pub open spec fn at_rest<ComponentT: Component>(
    components: Seq<MountedComponent<ComponentT>>,
    i: int,
) -> bool {
    &&& components[i].layout is Some
    &&& !components[i].should_render
    &&& all_placed(
        components,
        laid_out(&components[i].layout->Some_0.0, components[i].frame, components[i].id.id),
    )
}

/// Whether the tree is settled: every component that the root shows is
/// mounted and has the region that the root gives it, and every mounted
/// component is at rest. This is how a walk leaves a tree in which no two
/// components go by the same identity, until a component is told something
/// that makes it ask to be rendered.
pub open spec fn settled<ComponentT: Component>(
    root: Layout<ComponentT::Properties>,
    frame: Rect,
    components: Seq<MountedComponent<ComponentT>>,
) -> bool {
    &&& all_placed(components, laid_out(&root.0, frame, 0))
    &&& forall|i: int| 0 <= i < components.len() ==> at_rest(components, i)
}

/// Whether `after` is the component `before`, but for its bindings and for
/// the walk that last reached it.
pub open spec fn rested<ComponentT: Component>(
    before: MountedComponent<ComponentT>,
    after: MountedComponent<ComponentT>,
) -> bool {
    &&& after.id == before.id
    &&& after.component == before.component
    &&& after.frame == before.frame
    &&& after.should_render == before.should_render
    &&& after.layout == before.layout
}

/// Whether `after` is one of the components of `before`, but for its
/// bindings and for the walk that last reached it.
pub open spec fn rested_from<ComponentT: Component>(
    before: Seq<MountedComponent<ComponentT>>,
    after: MountedComponent<ComponentT>,
) -> bool {
    exists|i: int| 0 <= i < before.len() && rested(#[trigger] before[i], after)
}

/// Whether `after` holds the components of `before`, each at its place and
/// the same but for its bindings and for the walk that last reached it.
pub open spec fn calm<ComponentT: Component>(
    before: Seq<MountedComponent<ComponentT>>,
    after: Seq<MountedComponent<ComponentT>>,
) -> bool {
    &&& before.len() == after.len()
    &&& forall|i: int| 0 <= i < before.len() ==> rested(before[i], #[trigger] after[i])
}

/// Whether `after` holds components of the identities and regions of those
/// of `before`, each at its place.
pub open spec fn same_places<ComponentT: Component>(
    before: Seq<MountedComponent<ComponentT>>,
    after: Seq<MountedComponent<ComponentT>>,
) -> bool {
    &&& before.len() == after.len()
    &&& forall|i: int|
        0 <= i < before.len() ==> (#[trigger] after[i]).id == before[i].id && after[i].frame
            == before[i].frame
}

/// Components that are mounted in their regions stay so while the table
/// holds components of the same identities and regions.
pub proof fn lemma_places_kept<'a, ComponentT: Component>(
    before: Seq<MountedComponent<ComponentT>>,
    after: Seq<MountedComponent<ComponentT>>,
    laid: Seq<Laid<'a, ComponentT::Properties>>,
)
    requires
        same_places(before, after),
        all_placed(before, laid),
    ensures
        all_placed(after, laid),
{
    assert forall|k: int| 0 <= k < laid.len() implies match #[trigger] laid[k] {
        Laid::Component { id, frame, .. } => placed(after, id, frame),
        Laid::Canvas { .. } => true,
    } by {
        match laid[k] {
            Laid::Component { id, frame, .. } => {
                assert(placed(before, id, frame));
                let i = choose|i: int|
                    0 <= i < before.len() && (#[trigger] before[i]).id == id && before[i].frame
                        == frame;
                assert(after[i].id == id && after[i].frame == frame);
            },
            Laid::Canvas { .. } => {},
        }
    }
}

/// A tree that is settled stays so while its components stay the same but
/// for their bindings and for the walks that reached them.
pub proof fn lemma_settled_kept<ComponentT: Component>(
    root: Layout<ComponentT::Properties>,
    frame: Rect,
    before: Seq<MountedComponent<ComponentT>>,
    after: Seq<MountedComponent<ComponentT>>,
)
    requires
        settled(root, frame, before),
        calm(before, after),
    ensures
        settled(root, frame, after),
{
    assert(same_places(before, after)) by {
        assert forall|i: int| 0 <= i < before.len() implies (#[trigger] after[i]).id
            == before[i].id && after[i].frame == before[i].frame by {
            assert(rested(before[i], after[i]));
        }
    }
    lemma_places_kept(before, after, laid_out(&root.0, frame, 0));
    assert forall|i: int| 0 <= i < after.len() implies at_rest(after, i) by {
        assert(at_rest(before, i));
        assert(rested(before[i], after[i]));
        lemma_places_kept(
            before,
            after,
            laid_out(&before[i].layout->Some_0.0, before[i].frame, before[i].id.id),
        );
    }
}

/// Whether the component that goes by `id` is among the leaves `laid`.
pub open spec fn shows<'a, P>(laid: Seq<Laid<'a, P>>, id: ComponentId) -> bool {
    exists|k: int|
        0 <= k < laid.len() && match #[trigger] laid[k] {
            Laid::Component { id: found, .. } => found == id,
            Laid::Canvas { .. } => false,
        }
}

/// Whether the root shows the component that goes by `id`, itself or
/// through at most `depth` components that show one another.
pub open spec fn shown_within<ComponentT: Component>(
    root: Layout<ComponentT::Properties>,
    frame: Rect,
    components: Seq<MountedComponent<ComponentT>>,
    id: ComponentId,
    depth: nat,
) -> bool
    decreases depth,
{
    if depth == 0 {
        shows(laid_out(&root.0, frame, 0), id)
    } else {
        ||| shown_within(root, frame, components, id, (depth - 1) as nat)
        ||| exists|i: int|
            0 <= i < components.len() && shown_within(
                root,
                frame,
                components,
                (#[trigger] components[i]).id,
                (depth - 1) as nat,
            ) && components[i].layout is Some && shows(
                laid_out(&components[i].layout->Some_0.0, components[i].frame, components[i].id.id),
                id,
            )
    }
}

/// Whether every mounted component is shown: by the root, or by a component
/// that is shown.
pub open spec fn rooted<ComponentT: Component>(
    root: Layout<ComponentT::Properties>,
    frame: Rect,
    components: Seq<MountedComponent<ComponentT>>,
) -> bool {
    forall|i: int|
        0 <= i < components.len() ==> exists|depth: nat|
            shown_within(root, frame, components, (#[trigger] components[i]).id, depth)
}

/// What is shown stays shown while the components stay the same but for
/// their bindings and for the walks that reached them.
pub proof fn lemma_shown_kept<ComponentT: Component>(
    root: Layout<ComponentT::Properties>,
    frame: Rect,
    before: Seq<MountedComponent<ComponentT>>,
    after: Seq<MountedComponent<ComponentT>>,
    id: ComponentId,
    depth: nat,
)
    requires
        calm(before, after),
        shown_within(root, frame, before, id, depth),
    ensures
        shown_within(root, frame, after, id, depth),
    decreases depth,
{
    if depth == 0 {
    } else if shown_within(root, frame, before, id, (depth - 1) as nat) {
        lemma_shown_kept(root, frame, before, after, id, (depth - 1) as nat);
    } else {
        let i = choose|i: int|
            0 <= i < before.len() && shown_within(
                root,
                frame,
                before,
                (#[trigger] before[i]).id,
                (depth - 1) as nat,
            ) && before[i].layout is Some && shows(
                laid_out(&before[i].layout->Some_0.0, before[i].frame, before[i].id.id),
                id,
            );
        lemma_shown_kept(root, frame, before, after, before[i].id, (depth - 1) as nat);
        assert(rested(before[i], after[i]));
        assert(shown_within(root, frame, after, after[i].id, (depth - 1) as nat));
    }
}

/// A tree in which every component is shown stays so while the components
/// stay the same but for their bindings and for the walks that reached them.
pub proof fn lemma_rooted_kept<ComponentT: Component>(
    root: Layout<ComponentT::Properties>,
    frame: Rect,
    before: Seq<MountedComponent<ComponentT>>,
    after: Seq<MountedComponent<ComponentT>>,
)
    requires
        calm(before, after),
        rooted(root, frame, before),
    ensures
        rooted(root, frame, after),
{
    assert forall|i: int| 0 <= i < after.len() implies exists|depth: nat|
        shown_within(root, frame, after, (#[trigger] after[i]).id, depth) by {
        assert(rested(before[i], after[i]));
        let depth = choose|depth: nat| shown_within(root, frame, before, before[i].id, depth);
        lemma_shown_kept(root, frame, before, after, before[i].id, depth);
    }
}

} // verus!
