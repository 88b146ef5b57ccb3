//! What a walk of the tree hands to the components that it reaches.

use vstd::prelude::*;

use crate::app::mounted::{
    distinct, is_mounted, lemma_mounted_at, mounted_at, MountedComponent, TickSubscription,
};
use crate::app::orderly::{seen, walked_through};
use crate::component::{Component, ShouldRender};
use crate::component::bindings::{Bindings, DynamicBindings};
use crate::component::layout::{Laid, laid_out, Layout};
use crate::component::template::ComponentId;
use crate::terminal::Rect;

verus! {

/// Whether `reached` is what a walk makes of the component of its identity
/// when it reaches it for a declaration with the given properties, in the
/// given region: a component that was mounted, in the table `before`, was
/// handed what is due to it, see [`MountedComponent::was_reached`]; one that
/// was not is new, see [`MountedComponent::was_mounted`].
pub open spec fn visited_from<ComponentT: Component>(
    before: Seq<MountedComponent<ComponentT>>,
    reached: MountedComponent<ComponentT>,
    properties: ComponentT::Properties,
    frame: Rect,
    parent_changed: bool,
    generation: usize,
) -> bool {
    if is_mounted(before, reached.id) {
        reached.was_reached(
            before[mounted_at(before, reached.id)],
            properties,
            frame,
            parent_changed,
            generation,
        )
    } else {
        reached.was_mounted(properties, frame, reached.id, generation)
    }
}

/// Whether the subscriptions hold what the component asks for when time
/// passes: the component was asked, and the message that it answered is
/// among them, or none is for the component if it answered with none.
pub open spec fn holds_tick<ComponentT: Component>(
    component: MountedComponent<ComponentT>,
    tickable: Seq<TickSubscription<ComponentT::Message>>,
) -> bool {
    exists|message: Option<ComponentT::Message>| #[trigger]
        component.component.ticks(message) && match message {
            Some(wanted) => tickable.contains(
                TickSubscription { component_id: component.id, message: wanted },
            ),
            None => forall|t: int|
                0 <= t < tickable.len() ==> (#[trigger] tickable[t]).component_id != component.id,
        }
}

/// Whether the component that goes by `id` is mounted in `after`, was not
/// reached when the table was `before`, and is what reaching it for the
/// declaration makes of it.
pub open spec fn leaf_visited<ComponentT: Component>(
    before: Seq<MountedComponent<ComponentT>>,
    after: Seq<MountedComponent<ComponentT>>,
    tickable: Seq<TickSubscription<ComponentT::Message>>,
    id: ComponentId,
    properties: ComponentT::Properties,
    frame: Rect,
    parent_changed: bool,
    generation: usize,
) -> bool {
    &&& is_mounted(after, id)
    &&& !seen(before, generation, id)
    &&& visited_from(
        before,
        after[mounted_at(after, id)],
        properties,
        frame,
        parent_changed,
        generation,
    )
    &&& holds_tick(after[mounted_at(after, id)], tickable)
}

/// Whether every component among the first `upto` leaves is what reaching
/// it for its declaration makes of it.
pub open spec fn leaves_visited<'a, ComponentT: Component>(
    before: Seq<MountedComponent<ComponentT>>,
    after: Seq<MountedComponent<ComponentT>>,
    tickable: Seq<TickSubscription<ComponentT::Message>>,
    laid: Seq<Laid<'a, ComponentT::Properties>>,
    upto: int,
    parent_changed: bool,
    generation: usize,
) -> bool {
    forall|k: int|
        0 <= k < upto && k < laid.len() ==> match #[trigger] laid[k] {
            Laid::Component { frame, id, template } => leaf_visited(
                before,
                after,
                tickable,
                id,
                template.properties,
                frame,
                parent_changed,
                generation,
            ),
            Laid::Canvas { .. } => true,
        }
}

/// A component that is reached for the first time is what reaching it makes
/// of it, and the components that were reached before stay as they are.
pub proof fn lemma_leaf_kept<ComponentT: Component>(
    before: Seq<MountedComponent<ComponentT>>,
    earlier: Seq<MountedComponent<ComponentT>>,
    after: Seq<MountedComponent<ComponentT>>,
    tickable: Seq<TickSubscription<ComponentT::Message>>,
    tickable_after: Seq<TickSubscription<ComponentT::Message>>,
    other: ComponentId,
    properties: ComponentT::Properties,
    frame: Rect,
    parent_changed: bool,
    generation: usize,
    id: ComponentId,
)
    requires
        leaf_visited(
            before,
            earlier,
            tickable,
            other,
            properties,
            frame,
            parent_changed,
            generation,
        ),
        distinct(earlier),
        distinct(after),
        earlier.len() <= after.len(),
        !seen(earlier, generation, id),
        forall|i: int| 0 <= i < earlier.len() ==> (#[trigger] after[i]).id == earlier[i].id,
        forall|i: int|
            0 <= i < earlier.len() && (#[trigger] earlier[i]).id != id ==> after[i] == earlier[i],
        tickable_after == tickable || (tickable_after.len() == tickable.len() + 1
            && tickable_after.drop_last() == tickable && tickable_after.last().component_id == id),
    ensures
        leaf_visited(
            before,
            after,
            tickable_after,
            other,
            properties,
            frame,
            parent_changed,
            generation,
        ),
{
    let at = mounted_at(earlier, other);
    let found = earlier[at];
    assert(found.id == other);
    // The component was reached, so it is not the one that is reached now.
    assert(found.reached == generation) by {
        if is_mounted(before, other) {
        } else {
        }
    }
    assert(other != id) by {
        if other == id {
            assert(seen(earlier, generation, id));
        }
    }
    assert(after[at] == found);
    lemma_mounted_at(after, at);
    let message = choose|message: Option<ComponentT::Message>| #[trigger]
        found.component.ticks(message) && match message {
            Some(wanted) => tickable.contains(
                TickSubscription { component_id: found.id, message: wanted },
            ),
            None => forall|t: int|
                0 <= t < tickable.len() ==> (#[trigger] tickable[t]).component_id != found.id,
        };
    match message {
        Some(wanted) => {
            let entry = TickSubscription { component_id: found.id, message: wanted };
            let t = choose|t: int| 0 <= t < tickable.len() && tickable[t] == entry;
            if tickable_after != tickable {
                assert(tickable_after.drop_last()[t] == tickable_after[t]);
            }
            assert(tickable_after[t] == entry);
        },
        None => {
            assert forall|t: int| 0 <= t < tickable_after.len() implies (
            #[trigger] tickable_after[t]).component_id != found.id by {
                if t < tickable.len() {
                    if tickable_after != tickable {
                        assert(tickable_after.drop_last()[t] == tickable_after[t]);
                    }
                    assert(tickable_after[t] == tickable[t]);
                }
            }
        },
    }
    assert(found.component.ticks(message));
    assert(holds_tick(after[mounted_at(after, other)], tickable_after));
}

/// A component that is reached for the first time by a walk is what
/// reaching it makes of the component that the table held before the walk.
pub proof fn lemma_leaf_new<ComponentT: Component>(
    before: Seq<MountedComponent<ComponentT>>,
    earlier: Seq<MountedComponent<ComponentT>>,
    after: Seq<MountedComponent<ComponentT>>,
    tickable: Seq<TickSubscription<ComponentT::Message>>,
    tickable_after: Seq<TickSubscription<ComponentT::Message>>,
    properties: ComponentT::Properties,
    frame: Rect,
    parent_changed: bool,
    generation: usize,
    id: ComponentId,
)
    requires
        distinct(before),
        distinct(earlier),
        distinct(after),
        before.len() <= earlier.len() <= after.len(),
        !seen(earlier, generation, id),
        !seen(before, generation, id),
        is_mounted(after, id),
        forall|i: int| 0 <= i < before.len() ==> (#[trigger] earlier[i]).id == before[i].id,
        forall|i: int|
            0 <= i < before.len() ==> #[trigger] earlier[i] == before[i] || seen(
                earlier,
                generation,
                before[i].id,
            ),
        forall|i: int|
            before.len() <= i < earlier.len() ==> (#[trigger] earlier[i]).reached == generation,
        forall|i: int| 0 <= i < earlier.len() ==> (#[trigger] after[i]).id == earlier[i].id,
        forall|t: int|
            0 <= t < tickable.len() ==> seen(earlier, generation, (#[trigger] tickable[t]).component_id),
        is_mounted(earlier, id) ==> after[mounted_at(after, id)].was_reached(
            earlier[mounted_at(after, id)],
            properties,
            frame,
            parent_changed,
            generation,
        ),
        !is_mounted(earlier, id) ==> after.last().id == id && after.last().was_mounted(
            properties,
            frame,
            id,
            generation,
        ),
        after[mounted_at(after, id)].was_asked(tickable, tickable_after),
    ensures
        leaf_visited(
            before,
            after,
            tickable_after,
            id,
            properties,
            frame,
            parent_changed,
            generation,
        ),
{
    let at = mounted_at(after, id);
    let found = after[at];
    assert(found.id == id);
    if is_mounted(before, id) {
        let from = mounted_at(before, id);
        assert(before[from].id == id);
        assert(earlier[from].id == id);
        assert(is_mounted(earlier, id));
        assert(after[from].id == id);
        lemma_mounted_at(after, from);
        assert(earlier[from] == before[from]) by {
            if seen(earlier, generation, before[from].id) {
            }
        }
    } else {
        if is_mounted(earlier, id) {
            let from = choose|from: int| 0 <= from < earlier.len() && (#[trigger] earlier[from]).id == id;
            if from < before.len() {
                assert(before[from].id == id);
            } else {
                assert(earlier[from].reached == generation);
                assert(seen(earlier, generation, id));
            }
        }
        lemma_mounted_at(after, after.len() - 1);
    }
    let message = choose|message: Option<ComponentT::Message>| #[trigger]
        found.component.ticks(message) && tickable_after == match message {
            Some(wanted) => tickable.push(
                TickSubscription { component_id: found.id, message: wanted },
            ),
            None => tickable,
        };
    match message {
        Some(wanted) => {
            let entry = TickSubscription { component_id: found.id, message: wanted };
            assert(tickable_after[tickable_after.len() - 1] == entry);
        },
        None => {
            assert forall|t: int| 0 <= t < tickable_after.len() implies (
            #[trigger] tickable_after[t]).component_id != found.id by {
                if tickable_after[t].component_id == id {
                    assert(seen(earlier, generation, tickable[t].component_id));
                }
            }
        },
    }
    assert(found.component.ticks(message));
    assert(holds_tick(found, tickable_after));
}

/// Reaching the component of one more leaf for the first time leaves the
/// components of the leaves before it as they are, and makes of this one
/// what reaching it makes of it.
pub proof fn lemma_leaves_step<'a, ComponentT: Component>(
    before: Seq<MountedComponent<ComponentT>>,
    earlier: Seq<MountedComponent<ComponentT>>,
    after: Seq<MountedComponent<ComponentT>>,
    tickable: Seq<TickSubscription<ComponentT::Message>>,
    tickable_after: Seq<TickSubscription<ComponentT::Message>>,
    laid: Seq<Laid<'a, ComponentT::Properties>>,
    k: int,
    parent_changed: bool,
    generation: usize,
)
    requires
        0 <= k < laid.len(),
        laid[k] is Component,
        leaves_visited(before, earlier, tickable, laid, k, parent_changed, generation),
        distinct(before),
        distinct(earlier),
        distinct(after),
        before.len() <= earlier.len() <= after.len(),
        !seen(earlier, generation, laid[k]->Component_id),
        !seen(before, generation, laid[k]->Component_id),
        is_mounted(after, laid[k]->Component_id),
        forall|i: int| 0 <= i < before.len() ==> (#[trigger] earlier[i]).id == before[i].id,
        forall|i: int|
            0 <= i < before.len() ==> #[trigger] earlier[i] == before[i] || seen(
                earlier,
                generation,
                before[i].id,
            ),
        forall|i: int|
            before.len() <= i < earlier.len() ==> (#[trigger] earlier[i]).reached == generation,
        forall|i: int| 0 <= i < earlier.len() ==> (#[trigger] after[i]).id == earlier[i].id,
        forall|i: int|
            0 <= i < earlier.len() && (#[trigger] earlier[i]).id != laid[k]->Component_id
                ==> after[i] == earlier[i],
        forall|t: int|
            0 <= t < tickable.len() ==> seen(earlier, generation, (#[trigger] tickable[t]).component_id),
        tickable_after == tickable || (tickable_after.len() == tickable.len() + 1
            && tickable_after.drop_last() == tickable && tickable_after.last().component_id
            == laid[k]->Component_id),
        is_mounted(earlier, laid[k]->Component_id) ==> after[mounted_at(
            after,
            laid[k]->Component_id,
        )].was_reached(
            earlier[mounted_at(after, laid[k]->Component_id)],
            laid[k]->Component_template.properties,
            laid[k]->Component_frame,
            parent_changed,
            generation,
        ),
        !is_mounted(earlier, laid[k]->Component_id) ==> after.last().id == laid[k]->Component_id
            && after.last().was_mounted(
            laid[k]->Component_template.properties,
            laid[k]->Component_frame,
            laid[k]->Component_id,
            generation,
        ),
        after[mounted_at(after, laid[k]->Component_id)].was_asked(tickable, tickable_after),
    ensures
        leaves_visited(before, after, tickable_after, laid, k + 1, parent_changed, generation),
{
    let id = laid[k]->Component_id;
    assert forall|j: int| 0 <= j < k + 1 && j < laid.len() implies match #[trigger] laid[j] {
        Laid::Component { frame, id, template } => leaf_visited(
            before,
            after,
            tickable_after,
            id,
            template.properties,
            frame,
            parent_changed,
            generation,
        ),
        Laid::Canvas { .. } => true,
    } by {
        match laid[j] {
            Laid::Component { frame, id: other, template } => {
                if j < k {
                    lemma_leaf_kept(
                        before,
                        earlier,
                        after,
                        tickable,
                        tickable_after,
                        other,
                        template.properties,
                        frame,
                        parent_changed,
                        generation,
                        id,
                    );
                } else {
                    lemma_leaf_new(
                        before,
                        earlier,
                        after,
                        tickable,
                        tickable_after,
                        template.properties,
                        frame,
                        parent_changed,
                        generation,
                        id,
                    );
                }
            },
            Laid::Canvas { .. } => {},
        }
    }
}

/// Whether the component asked to be rendered when it was taken up, having
/// shown something before: the components that it shows are then handed
/// the properties of their declarations.
pub open spec fn asked<ComponentT: Component>(reached: MountedComponent<ComponentT>) -> bool {
    reached.should_render && reached.layout is Some
}

/// Whether `after` is what taking the component `reached` up makes of it:
/// it holds what it shows, which is what it showed before, unless it asked
/// to be rendered or had shown nothing yet; then it was rendered, and
/// shows what its `view` gave. It no longer asks to be rendered.
pub open spec fn was_rendered<ComponentT: Component>(
    after: MountedComponent<ComponentT>,
    reached: MountedComponent<ComponentT>,
) -> bool {
    &&& after == (MountedComponent {
        generation: after.generation,
        reached: after.reached,
        should_render: false,
        layout: after.layout,
        ..reached
    })
    &&& after.layout is Some
    &&& if reached.should_render || reached.layout is None {
        reached.component.shows(after.layout->Some_0)
    } else {
        after.layout == reached.layout
    }
}

/// What a walk that reaches no component twice has done to the components.
///
/// `middle` holds each component as it was when the walk had reached it,
/// and `after` as it is in the end. Every component was taken up, see
/// [`was_rendered`]. Every component that the root shows was reached for
/// its declaration there, without being handed properties. Every component
/// that a component shows was reached for its declaration there, and
/// handed the properties if the declaring component asked to be rendered,
/// and only then. See [`leaf_visited`] for what reaching a component does.
pub open spec fn reconciled<ComponentT: Component>(
    root: Layout<ComponentT::Properties>,
    frame: Rect,
    before: Seq<MountedComponent<ComponentT>>,
    middle: Seq<MountedComponent<ComponentT>>,
    after: Seq<MountedComponent<ComponentT>>,
    tickable: Seq<TickSubscription<ComponentT::Message>>,
    generation: usize,
) -> bool {
    &&& forall|j: int|
        0 <= j < after.len() ==> is_mounted(middle, (#[trigger] after[j]).id) && was_rendered(
            after[j],
            middle[mounted_at(middle, after[j].id)],
        )
    &&& leaves_visited(
        before,
        middle,
        tickable,
        laid_out(&root.0, frame, 0),
        laid_out(&root.0, frame, 0).len() as int,
        false,
        generation,
    )
    &&& forall|j: int|
        0 <= j < after.len() ==> leaves_visited(
            before,
            middle,
            tickable,
            laid_out(&after[j].layout->Some_0.0, after[j].frame, (#[trigger] after[j]).id.id),
            laid_out(&after[j].layout->Some_0.0, after[j].frame, after[j].id.id).len() as int,
            asked(middle[mounted_at(middle, after[j].id)]),
            generation,
        )
}

/// What holds in the course of a walk that reaches no component twice:
/// `middle` holds each component as it was when the walk had reached it, or
/// as it is, if the walk has not reached it; a component that was not
/// reached is as it was before the walk; and the components that were
/// walked, and the root, have had the components that they show reached.
#[verifier::opaque]
pub open spec fn reconciling<ComponentT: Component>(
    root: Layout<ComponentT::Properties>,
    frame: Rect,
    before: Seq<MountedComponent<ComponentT>>,
    middle: Seq<MountedComponent<ComponentT>>,
    components: Seq<MountedComponent<ComponentT>>,
    tickable: Seq<TickSubscription<ComponentT::Message>>,
    generation: usize,
) -> bool {
    &&& middle.len() == components.len()
    &&& before.len() <= components.len()
    &&& forall|i: int|
        0 <= i < components.len() ==> (#[trigger] middle[i]).id == components[i].id && middle[i].reached
            == components[i].reached
    &&& forall|i: int|
        0 <= i < components.len() ==> if walked_through(#[trigger] components[i], generation) {
            was_rendered(components[i], middle[i])
        } else {
            components[i] == middle[i]
        }
    &&& forall|i: int|
        0 <= i < before.len() ==> (#[trigger] components[i]).id == before[i].id && (
        components[i].reached != generation ==> components[i] == before[i])
    &&& forall|i: int|
        before.len() <= i < components.len() ==> (#[trigger] components[i]).reached == generation
    &&& leaves_visited(
        before,
        middle,
        tickable,
        laid_out(&root.0, frame, 0),
        laid_out(&root.0, frame, 0).len() as int,
        false,
        generation,
    )
    &&& forall|j: int|
        0 <= j < components.len() && walked_through(#[trigger] components[j], generation)
            ==> leaves_visited(
            before,
            middle,
            tickable,
            laid_out(&components[j].layout->Some_0.0, components[j].frame, components[j].id.id),
            laid_out(
                &components[j].layout->Some_0.0,
                components[j].frame,
                components[j].id.id,
            ).len() as int,
            asked(middle[j]),
            generation,
        )
}

/// The components of leaves stay what reaching them made of them while the
/// walk reaches other components.
pub proof fn lemma_leaves_carried<'a, ComponentT: Component>(
    before: Seq<MountedComponent<ComponentT>>,
    middle: Seq<MountedComponent<ComponentT>>,
    later: Seq<MountedComponent<ComponentT>>,
    tickable: Seq<TickSubscription<ComponentT::Message>>,
    tickable_later: Seq<TickSubscription<ComponentT::Message>>,
    laid: Seq<Laid<'a, ComponentT::Properties>>,
    parent_changed: bool,
    generation: usize,
)
    requires
        leaves_visited(before, middle, tickable, laid, laid.len() as int, parent_changed, generation),
        distinct(middle),
        distinct(later),
        middle.len() <= later.len(),
        forall|q: int| 0 <= q < middle.len() ==> (#[trigger] later[q]).id == middle[q].id,
        forall|q: int|
            0 <= q < middle.len() && (#[trigger] middle[q]).reached == generation ==> later[q]
                == middle[q],
        tickable.len() <= tickable_later.len(),
        forall|t: int| 0 <= t < tickable.len() ==> #[trigger] tickable_later[t] == tickable[t],
        forall|t: int|
            tickable.len() <= t < tickable_later.len() ==> !seen(
                middle,
                generation,
                (#[trigger] tickable_later[t]).component_id,
            ),
    ensures
        leaves_visited(
            before,
            later,
            tickable_later,
            laid,
            laid.len() as int,
            parent_changed,
            generation,
        ),
{
    assert forall|k: int| 0 <= k < laid.len() implies match #[trigger] laid[k] {
        Laid::Component { frame, id, template } => leaf_visited(
            before,
            later,
            tickable_later,
            id,
            template.properties,
            frame,
            parent_changed,
            generation,
        ),
        Laid::Canvas { .. } => true,
    } by {
        match laid[k] {
            Laid::Component { frame, id, template } => {
                let at = mounted_at(middle, id);
                let found = middle[at];
                assert(found.id == id);
                assert(found.reached == generation) by {
                    if is_mounted(before, id) {
                    } else {
                    }
                }
                assert(later[at] == found);
                lemma_mounted_at(later, at);
                let message = choose|message: Option<ComponentT::Message>| #[trigger]
                    found.component.ticks(message) && match message {
                        Some(wanted) => tickable.contains(
                            TickSubscription { component_id: found.id, message: wanted },
                        ),
                        None => forall|t: int|
                            0 <= t < tickable.len() ==> (#[trigger] tickable[t]).component_id
                                != found.id,
                    };
                match message {
                    Some(wanted) => {
                        let entry = TickSubscription { component_id: found.id, message: wanted };
                        let t = choose|t: int| 0 <= t < tickable.len() && tickable[t] == entry;
                        assert(tickable_later[t] == entry);
                    },
                    None => {
                        assert forall|t: int| 0 <= t < tickable_later.len() implies (
                        #[trigger] tickable_later[t]).component_id != found.id by {
                            if t < tickable.len() {
                                assert(tickable_later[t] == tickable[t]);
                            } else {
                                if tickable_later[t].component_id == found.id {
                                    assert(seen(middle, generation, id));
                                }
                            }
                        }
                    },
                }
                assert(found.component.ticks(message));
                assert(holds_tick(later[mounted_at(later, id)], tickable_later));
            },
            Laid::Canvas { .. } => {},
        }
    }
}

/// The components of the leaves that a component shows, reached while the
/// table was `standing`, are what reaching them makes of the components
/// that the table held before the walk.
pub proof fn lemma_leaves_rebased<'a, ComponentT: Component>(
    before: Seq<MountedComponent<ComponentT>>,
    standing: Seq<MountedComponent<ComponentT>>,
    walked_on: Seq<MountedComponent<ComponentT>>,
    later: Seq<MountedComponent<ComponentT>>,
    tickable: Seq<TickSubscription<ComponentT::Message>>,
    laid: Seq<Laid<'a, ComponentT::Properties>>,
    parent_changed: bool,
    generation: usize,
)
    requires
        leaves_visited(
            standing,
            walked_on,
            tickable,
            laid,
            laid.len() as int,
            parent_changed,
            generation,
        ),
        distinct(before),
        distinct(standing),
        distinct(walked_on),
        distinct(later),
        before.len() <= standing.len() <= walked_on.len(),
        later.len() == walked_on.len(),
        forall|i: int| 0 <= i < before.len() ==> (#[trigger] before[i]).reached != generation,
        forall|i: int|
            0 <= i < before.len() ==> (#[trigger] standing[i]).id == before[i].id && (
            standing[i].reached != generation ==> standing[i] == before[i]),
        forall|i: int|
            before.len() <= i < standing.len() ==> (#[trigger] standing[i]).reached == generation,
        forall|q: int| 0 <= q < walked_on.len() ==> (#[trigger] later[q]).id == walked_on[q].id,
        forall|q: int|
            0 <= q < walked_on.len() && !(q < standing.len() && standing[q].reached == generation)
                ==> #[trigger] later[q] == walked_on[q],
        forall|q: int| 0 <= q < standing.len() ==> (#[trigger] walked_on[q]).id == standing[q].id,
    ensures
        leaves_visited(before, later, tickable, laid, laid.len() as int, parent_changed, generation),
{
    assert forall|k: int| 0 <= k < laid.len() implies match #[trigger] laid[k] {
        Laid::Component { frame, id, template } => leaf_visited(
            before,
            later,
            tickable,
            id,
            template.properties,
            frame,
            parent_changed,
            generation,
        ),
        Laid::Canvas { .. } => true,
    } by {
        match laid[k] {
            Laid::Component { frame, id, template } => {
                let at = mounted_at(walked_on, id);
                let found = walked_on[at];
                assert(found.id == id);
                if at < standing.len() && standing[at].reached == generation {
                    assert(standing[at].id == id);
                    assert(seen(standing, generation, id));
                }
                assert(later[at] == found);
                lemma_mounted_at(later, at);
                if seen(before, generation, id) {
                    let b = choose|b: int|
                        0 <= b < before.len() && (#[trigger] before[b]).id == id && before[b].reached
                            == generation;
                }
                if is_mounted(standing, id) {
                    let from = mounted_at(standing, id);
                    assert(standing[from].id == id);
                    if standing[from].reached == generation {
                        assert(seen(standing, generation, id));
                    }
                    assert(from < before.len());
                    assert(standing[from] == before[from]);
                    assert(before[from].id == id);
                    lemma_mounted_at(before, from);
                } else {
                    if is_mounted(before, id) {
                        let b = choose|b: int| 0 <= b < before.len() && (#[trigger] before[b]).id == id;
                        assert(standing[b].id == id);
                    }
                }
            },
            Laid::Canvas { .. } => {},
        }
    }
}

/// The components as they were when the walk had reached them, once what
/// one more component shows was gone through: the ones that were reached
/// before, as `middle` holds them, and the others as they are.
pub open spec fn merged_middle<ComponentT: Component>(
    middle: Seq<MountedComponent<ComponentT>>,
    standing: Seq<MountedComponent<ComponentT>>,
    walked_on: Seq<MountedComponent<ComponentT>>,
    generation: usize,
) -> Seq<MountedComponent<ComponentT>> {
    Seq::new(
        walked_on.len(),
        |q: int|
            if q < middle.len() && q < standing.len() && standing[q].reached == generation {
                middle[q]
            } else {
                walked_on[q]
            },
    )
}

/// A walk begins: the root was gone through.
pub proof fn lemma_reconcile_start<ComponentT: Component>(
    root: Layout<ComponentT::Properties>,
    frame: Rect,
    before: Seq<MountedComponent<ComponentT>>,
    components: Seq<MountedComponent<ComponentT>>,
    tickable: Seq<TickSubscription<ComponentT::Message>>,
    generation: usize,
)
    requires
        leaves_visited(
            before,
            components,
            tickable,
            laid_out(&root.0, frame, 0),
            laid_out(&root.0, frame, 0).len() as int,
            false,
            generation,
        ),
        distinct(components),
        before.len() <= components.len(),
        forall|i: int| 0 <= i < before.len() ==> (#[trigger] components[i]).id == before[i].id,
        forall|i: int|
            before.len() <= i < components.len() ==> (#[trigger] components[i]).reached == generation,
        forall|i: int|
            0 <= i < components.len() ==> !walked_through(#[trigger] components[i], generation),
        forall|i: int|
            0 <= i < before.len() ==> #[trigger] components[i] == before[i] || seen(
                components,
                generation,
                before[i].id,
            ),
    ensures
        reconciling(root, frame, before, components, components, tickable, generation),
{
    reveal(reconciling);
    assert forall|i: int| 0 <= i < before.len() implies (#[trigger] components[i]).id == before[i].id
        && (components[i].reached != generation ==> components[i] == before[i]) by {
        if components[i] != before[i] {
            let at = choose|at: int|
                0 <= at < components.len() && (#[trigger] components[at]).id == before[i].id
                    && components[at].reached == generation;
            if at < i {
                assert(components[at].id != components[i].id);
            } else if i < at {
                assert(components[i].id != components[at].id);
            }
        }
    }
}

/// A walk goes on: a component was taken up and what it shows gone through.
///
/// `earlier` is the table before the component at `i` was taken up,
/// `standing` the table when the component was rendered, `walked_on` the
/// table when what it shows was gone through, and `after` the table in the
/// end; `laid` are the leaves of what the component shows.
pub proof fn lemma_reconcile_step<'a, ComponentT: Component>(
    root: Layout<ComponentT::Properties>,
    frame: Rect,
    before: Seq<MountedComponent<ComponentT>>,
    middle: Seq<MountedComponent<ComponentT>>,
    earlier: Seq<MountedComponent<ComponentT>>,
    standing: Seq<MountedComponent<ComponentT>>,
    walked_on: Seq<MountedComponent<ComponentT>>,
    after: Seq<MountedComponent<ComponentT>>,
    tickable: Seq<TickSubscription<ComponentT::Message>>,
    tickable_after: Seq<TickSubscription<ComponentT::Message>>,
    laid: Seq<Laid<'a, ComponentT::Properties>>,
    generation: usize,
    i: int,
)
    requires
        reconciling(root, frame, before, middle, earlier, tickable, generation),
        distinct(before),
        distinct(earlier),
        distinct(standing),
        distinct(walked_on),
        distinct(after),
        forall|q: int| 0 <= q < before.len() ==> (#[trigger] before[q]).reached != generation,
        forall|q: int|
            0 <= q < earlier.len() && (#[trigger] earlier[q]).generation == generation
                ==> earlier[q].reached == generation,
        0 <= i < earlier.len(),
        earlier[i].reached == generation,
        !walked_through(earlier[i], generation),
        standing.len() == earlier.len(),
        forall|q: int| 0 <= q < earlier.len() && q != i ==> #[trigger] standing[q] == earlier[q],
        standing[i].id == earlier[i].id,
        standing[i].reached == generation,
        standing[i].generation == generation,
        standing.len() <= walked_on.len(),
        forall|q: int| 0 <= q < standing.len() ==> (#[trigger] walked_on[q]).id == standing[q].id,
        forall|q: int|
            0 <= q < standing.len() && (#[trigger] standing[q]).reached == generation
                ==> walked_on[q] == standing[q],
        forall|q: int|
            0 <= q < standing.len() ==> #[trigger] walked_on[q] == standing[q] || walked_on[q].reached
                == generation,
        forall|q: int|
            0 <= q < walked_on.len() ==> if q < standing.len() {
                (#[trigger] walked_on[q]).layout == standing[q].layout && walked_on[q].generation
                    == standing[q].generation
            } else {
                walked_on[q].layout is None && walked_on[q].reached == generation
            },
        leaves_visited(
            standing,
            walked_on,
            tickable_after,
            laid,
            laid.len() as int,
            asked(earlier[i]),
            generation,
        ),
        tickable.len() <= tickable_after.len(),
        forall|t: int| 0 <= t < tickable.len() ==> #[trigger] tickable_after[t] == tickable[t],
        forall|t: int|
            tickable.len() <= t < tickable_after.len() ==> !seen(
                standing,
                generation,
                (#[trigger] tickable_after[t]).component_id,
            ),
        after.len() == walked_on.len(),
        forall|q: int| 0 <= q < after.len() && q != i ==> #[trigger] after[q] == walked_on[q],
        after[i] == (MountedComponent { layout: after[i].layout, ..walked_on[i] }),
        was_rendered(after[i], earlier[i]),
        laid == laid_out(&after[i].layout->Some_0.0, after[i].frame, after[i].id.id),
    ensures
        reconciling(
            root,
            frame,
            before,
            merged_middle(middle, standing, walked_on, generation),
            after,
            tickable_after,
            generation,
        ),
{
    reveal(reconciling);
    let later = merged_middle(middle, standing, walked_on, generation);
    assert(earlier[i] == middle[i]);
    assert(walked_on[i] == standing[i]);
    assert forall|q: int|
        0 <= q < earlier.len() && q != i && standing[q].reached == generation implies #[trigger] after[q]
        == earlier[q] by {}
    assert forall|q: int| 0 <= q < after.len() implies (#[trigger] later[q]).id == after[q].id
        && later[q].reached == after[q].reached by {
        if q < standing.len() {
            assert(walked_on[q].id == standing[q].id);
        }
    }
    assert forall|q: int| 0 <= q < after.len() implies if walked_through(
        #[trigger] after[q],
        generation,
    ) {
        was_rendered(after[q], later[q])
    } else {
        after[q] == later[q]
    } by {
        if q != i {
            if q < standing.len() {
                assert(walked_on[q].layout == standing[q].layout);
                if standing[q].reached == generation {
                    assert(after[q] == earlier[q]);
                } else {
                    assert(earlier[q].generation != generation);
                }
            }
        }
    }
    assert forall|q: int| 0 <= q < before.len() implies (#[trigger] after[q]).id == before[q].id && (
    after[q].reached != generation ==> after[q] == before[q]) by {
        assert(earlier[q].id == before[q].id);
        assert(walked_on[q].id == standing[q].id);
        if q != i && after[q].reached != generation {
            assert(walked_on[q] == standing[q]);
        }
    }
    assert forall|q: int| before.len() <= q < after.len() implies (#[trigger] after[q]).reached
        == generation by {
        if q < standing.len() {
            if q != i {
                assert(earlier[q].reached == generation);
                assert(walked_on[q] == standing[q]);
            }
        }
    }
    // What was reached before stays as it was when it was reached.
    assert(distinct(middle)) by {
        assert forall|a: int, b: int| 0 <= a < b < middle.len() implies (#[trigger] middle[a]).id != (
        #[trigger] middle[b]).id by {
            assert(earlier[a].id != earlier[b].id);
        }
    }
    assert(distinct(later)) by {
        assert forall|a: int, b: int| 0 <= a < b < later.len() implies (#[trigger] later[a]).id != (
        #[trigger] later[b]).id by {
            assert(after[a].id != after[b].id);
        }
    }
    assert forall|q: int| 0 <= q < middle.len() implies (#[trigger] later[q]).id == middle[q].id by {
        assert(walked_on[q].id == standing[q].id);
    }
    assert forall|q: int|
        0 <= q < middle.len() && (#[trigger] middle[q]).reached == generation implies later[q]
        == middle[q] by {
        assert(earlier[q].reached == generation);
    }
    assert forall|t: int| tickable.len() <= t < tickable_after.len() implies !seen(
        middle,
        generation,
        (#[trigger] tickable_after[t]).component_id,
    ) by {
        if seen(middle, generation, tickable_after[t].component_id) {
            let at = choose|at: int|
                0 <= at < middle.len() && (#[trigger] middle[at]).id
                    == tickable_after[t].component_id && middle[at].reached == generation;
            assert(standing[at].id == middle[at].id && standing[at].reached == generation);
        }
    }
    lemma_leaves_carried(
        before,
        middle,
        later,
        tickable,
        tickable_after,
        laid_out(&root.0, frame, 0),
        false,
        generation,
    );
    assert forall|j: int|
        0 <= j < after.len() && walked_through(#[trigger] after[j], generation) implies leaves_visited(
        before,
        later,
        tickable_after,
        laid_out(&after[j].layout->Some_0.0, after[j].frame, after[j].id.id),
        laid_out(&after[j].layout->Some_0.0, after[j].frame, after[j].id.id).len() as int,
        asked(later[j]),
        generation,
    ) by {
        if j != i {
            assert(j < standing.len());
            assert(walked_on[j].layout == standing[j].layout);
            assert(walked_through(earlier[j], generation));
            assert(after[j] == earlier[j]);
            assert(later[j] == middle[j]);
            lemma_leaves_carried(
                before,
                middle,
                later,
                tickable,
                tickable_after,
                laid_out(&earlier[j].layout->Some_0.0, earlier[j].frame, earlier[j].id.id),
                asked(middle[j]),
                generation,
            );
        } else {
            assert(later[i] == middle[i]);
            assert forall|q: int|
                0 <= q < before.len() implies (#[trigger] standing[q]).id == before[q].id && (
            standing[q].reached != generation ==> standing[q] == before[q]) by {
                assert(earlier[q].id == before[q].id);
            }
            assert forall|q: int| before.len() <= q < standing.len() implies (
            #[trigger] standing[q]).reached == generation by {
                if q != i {
                    assert(earlier[q].reached == generation);
                }
            }
            assert forall|q: int|
                0 <= q < walked_on.len() && !(q < standing.len() && standing[q].reached
                    == generation) implies #[trigger] later[q] == walked_on[q] by {}
            lemma_leaves_rebased(
                before,
                standing,
                walked_on,
                later,
                tickable_after,
                laid,
                asked(earlier[i]),
                generation,
            );
        }
    }
}

/// A walk ends: every component that stays was reached and taken up.
pub proof fn lemma_reconcile_end<ComponentT: Component>(
    root: Layout<ComponentT::Properties>,
    frame: Rect,
    before: Seq<MountedComponent<ComponentT>>,
    middle: Seq<MountedComponent<ComponentT>>,
    reached: Seq<MountedComponent<ComponentT>>,
    after: Seq<MountedComponent<ComponentT>>,
    tickable: Seq<TickSubscription<ComponentT::Message>>,
    generation: usize,
)
    requires
        reconciling(root, frame, before, middle, reached, tickable, generation),
        distinct(reached),
        forall|j: int|
            0 <= j < after.len() ==> reached.contains(#[trigger] after[j]) && after[j].generation
                == generation && after[j].layout is Some,
    ensures
        reconciled(root, frame, before, middle, after, tickable, generation),
{
    reveal(reconciling);
    assert(distinct(middle)) by {
        assert forall|a: int, b: int| 0 <= a < b < middle.len() implies (#[trigger] middle[a]).id != (
        #[trigger] middle[b]).id by {
            assert(reached[a].id != reached[b].id);
        }
    }
    assert forall|j: int| 0 <= j < after.len() implies is_mounted(middle, (#[trigger] after[j]).id)
        && was_rendered(after[j], middle[mounted_at(middle, after[j].id)]) && leaves_visited(
        before,
        middle,
        tickable,
        laid_out(&after[j].layout->Some_0.0, after[j].frame, after[j].id.id),
        laid_out(&after[j].layout->Some_0.0, after[j].frame, after[j].id.id).len() as int,
        asked(middle[mounted_at(middle, after[j].id)]),
        generation,
    ) by {
        let r = choose|r: int| 0 <= r < reached.len() && reached[r] == after[j];
        assert(walked_through(reached[r], generation));
        assert(middle[r].id == after[j].id);
        lemma_mounted_at(middle, r);
    }
}

/// What a walk has done to the components holds of every table that
/// differs only in the walks that the components are marked with.
pub proof fn lemma_reconciled_same<ComponentT: Component>(
    root: Layout<ComponentT::Properties>,
    frame: Rect,
    before: Seq<MountedComponent<ComponentT>>,
    middle: Seq<MountedComponent<ComponentT>>,
    after: Seq<MountedComponent<ComponentT>>,
    other: Seq<MountedComponent<ComponentT>>,
    tickable: Seq<TickSubscription<ComponentT::Message>>,
    generation: usize,
)
    requires
        reconciled(root, frame, before, middle, after, tickable, generation),
        other.len() == after.len(),
        forall|j: int|
            0 <= j < after.len() ==> #[trigger] other[j] == (MountedComponent {
                generation: other[j].generation,
                reached: other[j].reached,
                ..after[j]
            }),
    ensures
        reconciled(root, frame, before, middle, other, tickable, generation),
{
    assert forall|j: int| 0 <= j < other.len() implies is_mounted(middle, (#[trigger] other[j]).id)
        && was_rendered(other[j], middle[mounted_at(middle, other[j].id)]) && leaves_visited(
        before,
        middle,
        tickable,
        laid_out(&other[j].layout->Some_0.0, other[j].frame, other[j].id.id),
        laid_out(&other[j].layout->Some_0.0, other[j].frame, other[j].id.id).len() as int,
        asked(middle[mounted_at(middle, other[j].id)]),
        generation,
    ) by {
        assert(other[j].id == after[j].id);
        assert(was_rendered(after[j], middle[mounted_at(middle, after[j].id)]));
    }
}

/// Whether a component has shown `layout`: it is what the `view` of a
/// component gave.
pub open spec fn was_shown<ComponentT: Component>(layout: Layout<ComponentT::Properties>) -> bool {
    exists|then: ComponentT| #[trigger] then.shows(layout)
}

/// Whether a component was made for the identity by `create`.
pub open spec fn was_created<ComponentT: Component>(id: ComponentId) -> bool {
    exists|properties: ComponentT::Properties, frame: Rect, first: ComponentT| #[trigger]
        ComponentT::created(properties, frame, id, first)
}

/// Whether a component was given the region by `resize`.
pub open spec fn was_given<ComponentT: Component>(frame: Rect) -> bool {
    exists|before: ComponentT, after: ComponentT, answer: ShouldRender| #[trigger]
        ComponentT::resized(before, frame, after, answer)
}

/// Whether the bindings are what the `bindings` of a component made.
pub open spec fn was_bound<ComponentT: Component>(bindings: DynamicBindings<ComponentT>) -> bool {
    exists|then: ComponentT, before: Bindings<ComponentT>| #[trigger]
        then.bound(before, Bindings { bindings })
}

/// Whether the message is what the `tick` of a component asked for.
pub open spec fn was_wanted<ComponentT: Component>(message: ComponentT::Message) -> bool {
    exists|then: ComponentT| #[trigger] then.ticks(Some(message))
}

/// Whether every message for the passing of time is what the `tick` of a
/// component asked for.
pub open spec fn all_wanted<ComponentT: Component>(
    tickable: Seq<TickSubscription<ComponentT::Message>>,
) -> bool {
    forall|t: int|
        0 <= t < tickable.len() ==> was_wanted::<ComponentT>((#[trigger] tickable[t]).message)
}

/// Whether the component `after` holds nothing but what it held as
/// `earlier`, or was not mounted then, and what its own functions gave in
/// the course of the walk with the given number: what it shows is what a
/// `view` gave; it was made by `create` if it is new; it was given the
/// region by `resize` if that is another one; and its bindings are what a
/// `bindings` made, if the walk has reached it.
pub open spec fn kept_or_told<ComponentT: Component>(
    earlier: Option<MountedComponent<ComponentT>>,
    after: MountedComponent<ComponentT>,
    generation: usize,
) -> bool {
    &&& after.layout matches Some(layout) ==> was_shown::<ComponentT>(layout) || (earlier matches Some(
        held,
    ) && after.layout == held.layout && (held.should_render ==> after.should_render))
    &&& earlier is None ==> was_created::<ComponentT>(after.id)
    &&& earlier matches Some(held) ==> after.id == held.id && (after.frame == held.frame
        || was_given::<ComponentT>(after.frame))
    &&& after.reached == generation ==> was_bound(after.bindings) || (earlier matches Some(held)
        && held.reached == generation && after.bindings == held.bindings)
}

/// The component at `i` of a table, if the table has one there.
pub open spec fn at_place<ComponentT: Component>(
    components: Seq<MountedComponent<ComponentT>>,
    i: int,
) -> Option<MountedComponent<ComponentT>> {
    if 0 <= i < components.len() {
        Some(components[i])
    } else {
        None
    }
}

/// Whether every component of `after` holds nothing but what the component
/// at its place in `earlier` held and what its own functions gave.
#[verifier::opaque]
pub open spec fn told_table<ComponentT: Component>(
    earlier: Seq<MountedComponent<ComponentT>>,
    after: Seq<MountedComponent<ComponentT>>,
    generation: usize,
) -> bool {
    &&& earlier.len() <= after.len()
    &&& forall|i: int|
        0 <= i < after.len() ==> kept_or_told(at_place(earlier, i), #[trigger] after[i], generation)
}

/// What a component holds of its own functions' giving stays so from table
/// to table.
pub proof fn lemma_told_on<ComponentT: Component>(
    first: Seq<MountedComponent<ComponentT>>,
    second: Seq<MountedComponent<ComponentT>>,
    third: Seq<MountedComponent<ComponentT>>,
    generation: usize,
)
    requires
        told_table(first, second, generation),
        told_table(second, third, generation),
    ensures
        told_table(first, third, generation),
{
    reveal(told_table);
    assert forall|i: int| 0 <= i < third.len() implies kept_or_told(
        at_place(first, i),
        #[trigger] third[i],
        generation,
    ) by {
        assert(kept_or_told(at_place(second, i), third[i], generation));
        if i < second.len() {
            assert(kept_or_told(at_place(first, i), second[i], generation));
        }
    }
}

/// A table holds what it held.
pub proof fn lemma_told_same<ComponentT: Component>(
    components: Seq<MountedComponent<ComponentT>>,
    generation: usize,
)
    ensures
        told_table(components, components, generation),
{
    reveal(told_table);
}

/// Whether the component holds nothing but what the component of its
/// identity held in the table `before` and what its own functions gave:
/// what it shows is what a `view` gave, or what it showed before, if it
/// did not ask to be rendered then; it was made by `create` if it is new;
/// it was given the region by `resize` if that is another one; and its
/// bindings are what a `bindings` made.
pub open spec fn told_from<ComponentT: Component>(
    before: Seq<MountedComponent<ComponentT>>,
    after: MountedComponent<ComponentT>,
) -> bool {
    &&& after.layout matches Some(layout) ==> was_shown::<ComponentT>(layout) || (is_mounted(
        before,
        after.id,
    ) && after.layout == before[mounted_at(before, after.id)].layout && !before[mounted_at(
        before,
        after.id,
    )].should_render)
    &&& !is_mounted(before, after.id) ==> was_created::<ComponentT>(after.id)
    &&& is_mounted(before, after.id) ==> after.frame == before[mounted_at(before, after.id)].frame
        || was_given::<ComponentT>(after.frame)
    &&& was_bound(after.bindings)
}

/// Whether every component of the table is as [`told_from`] says.
pub open spec fn all_told_from<ComponentT: Component>(
    before: Seq<MountedComponent<ComponentT>>,
    after: Seq<MountedComponent<ComponentT>>,
) -> bool {
    forall|j: int| 0 <= j < after.len() ==> told_from(before, #[trigger] after[j])
}

/// A step of a walk keeps what the components hold to what they held and
/// what their own functions gave.
pub proof fn lemma_told_walk<ComponentT: Component>(
    before: Seq<MountedComponent<ComponentT>>,
    earlier: Seq<MountedComponent<ComponentT>>,
    standing: Seq<MountedComponent<ComponentT>>,
    walked_on: Seq<MountedComponent<ComponentT>>,
    after: Seq<MountedComponent<ComponentT>>,
    held: Layout<ComponentT::Properties>,
    rendered: bool,
    generation: usize,
    i: int,
)
    requires
        told_table(before, earlier, generation),
        0 <= i < earlier.len(),
        standing == earlier.update(
            i,
            MountedComponent { generation, should_render: false, layout: None, ..earlier[i] },
        ),
        told_table(standing, walked_on, generation),
        after == walked_on.update(i, MountedComponent { layout: Some(held), ..walked_on[i] }),
        rendered ==> was_shown::<ComponentT>(held),
        !rendered ==> earlier[i].layout == Some(held) && !earlier[i].should_render,
    ensures
        told_table(before, after, generation),
{
    reveal(told_table);
    assert forall|j: int| 0 <= j < after.len() implies kept_or_told(
        at_place(before, j),
        #[trigger] after[j],
        generation,
    ) by {
        assert(kept_or_told(at_place(standing, j), walked_on[j], generation));
        if j < earlier.len() {
            assert(kept_or_told(at_place(before, j), earlier[j], generation));
        }
    }
}

/// What holds of the components that a walk has reached holds of the ones
/// that it keeps.
pub proof fn lemma_told_end<ComponentT: Component>(
    before: Seq<MountedComponent<ComponentT>>,
    reached: Seq<MountedComponent<ComponentT>>,
    after: Seq<MountedComponent<ComponentT>>,
    generation: usize,
)
    requires
        told_table(before, reached, generation),
        distinct(before),
        distinct(reached),
        forall|q: int|
            0 <= q < before.len() ==> (#[trigger] before[q]).reached < generation,
        forall|j: int|
            0 <= j < after.len() ==> reached.contains(#[trigger] after[j]) && after[j].reached
                == generation && !after[j].should_render,
    ensures
        all_told_from(before, after),
{
    reveal(told_table);
    assert forall|j: int| 0 <= j < after.len() implies told_from(before, #[trigger] after[j]) by {
        let r = choose|r: int| 0 <= r < reached.len() && reached[r] == after[j];
        assert(kept_or_told(at_place(before, r), reached[r], generation));
        if r < before.len() {
            assert(before[r].id == after[j].id);
            lemma_mounted_at(before, r);
        } else {
            if is_mounted(before, after[j].id) {
                let q = mounted_at(before, after[j].id);
                assert(kept_or_told(at_place(before, q), reached[q], generation));
                assert(reached[q].id == reached[r].id);
            }
        }
    }
}

/// What holds of the components of a table against one table holds against
/// every table that holds the same at the same places, whatever the walks
/// are numbered.
pub proof fn lemma_told_same_places<ComponentT: Component>(
    before: Seq<MountedComponent<ComponentT>>,
    other: Seq<MountedComponent<ComponentT>>,
    after: Seq<MountedComponent<ComponentT>>,
    later: Seq<MountedComponent<ComponentT>>,
)
    requires
        all_told_from(other, later),
        distinct(before),
        before.len() == other.len(),
        forall|i: int|
            0 <= i < before.len() ==> (#[trigger] before[i]).id == other[i].id && before[i].layout
                == other[i].layout && before[i].frame == other[i].frame
                && before[i].should_render == other[i].should_render,
        after.len() == later.len(),
        forall|j: int|
            0 <= j < after.len() ==> (#[trigger] after[j]).id == later[j].id && after[j].layout
                == later[j].layout && after[j].frame == later[j].frame && after[j].bindings
                == later[j].bindings,
    ensures
        all_told_from(before, after),
{
    assert forall|j: int| 0 <= j < after.len() implies told_from(before, #[trigger] after[j]) by {
        assert(told_from(other, later[j]));
        let id = after[j].id;
        if is_mounted(other, id) {
            let q = mounted_at(other, id);
            assert(before[q].id == id);
            lemma_mounted_at(before, q);
        } else if is_mounted(before, id) {
            let q = mounted_at(before, id);
            assert(other[q].id == id);
        }
    }
}

/// Whether the component of the identity was asked what it wants to get
/// when time passes, and what it asked for, if anything, is among the
/// subscriptions.
pub open spec fn tick_noted<ComponentT: Component>(
    tickable: Seq<TickSubscription<ComponentT::Message>>,
    id: ComponentId,
) -> bool {
    exists|then: ComponentT, message: Option<ComponentT::Message>| #[trigger]
        then.ticks(message) && (message matches Some(wanted) ==> tickable.contains(
            TickSubscription { component_id: id, message: wanted },
        ))
}

/// Whether every component that the walk with the given number has reached
/// was asked what it wants to get when time passes.
#[verifier::opaque]
pub open spec fn reached_asked<ComponentT: Component>(
    components: Seq<MountedComponent<ComponentT>>,
    tickable: Seq<TickSubscription<ComponentT::Message>>,
    generation: usize,
) -> bool {
    forall|i: int|
        0 <= i < components.len() && (#[trigger] components[i]).reached == generation
            ==> tick_noted::<ComponentT>(tickable, components[i].id)
}

/// Whether every component was asked what it wants to get when time
/// passes, and what it asked for, if anything, is among the subscriptions.
pub open spec fn all_asked<ComponentT: Component>(
    components: Seq<MountedComponent<ComponentT>>,
    tickable: Seq<TickSubscription<ComponentT::Message>>,
) -> bool {
    forall|j: int|
        0 <= j < components.len() ==> tick_noted::<ComponentT>(tickable, (#[trigger] components[j]).id)
}

/// Before a walk has reached a component, every component that it has
/// reached was asked.
pub proof fn lemma_asked_start<ComponentT: Component>(
    components: Seq<MountedComponent<ComponentT>>,
    tickable: Seq<TickSubscription<ComponentT::Message>>,
    generation: usize,
)
    requires
        forall|i: int| 0 <= i < components.len() ==> (#[trigger] components[i]).reached < generation,
    ensures
        reached_asked(components, tickable, generation),
{
    reveal(reached_asked);
}

/// What holds of the components that were asked holds of every table that
/// holds the same identities, reached by the same walks.
pub proof fn lemma_asked_same<ComponentT: Component>(
    before: Seq<MountedComponent<ComponentT>>,
    after: Seq<MountedComponent<ComponentT>>,
    tickable: Seq<TickSubscription<ComponentT::Message>>,
    generation: usize,
)
    requires
        reached_asked(before, tickable, generation),
        before.len() == after.len(),
        forall|i: int|
            0 <= i < after.len() ==> (#[trigger] after[i]).id == before[i].id && after[i].reached
                == before[i].reached,
    ensures
        reached_asked(after, tickable, generation),
{
    reveal(reached_asked);
    assert forall|i: int|
        0 <= i < after.len() && (#[trigger] after[i]).reached == generation implies tick_noted::<
        ComponentT,
    >(tickable, after[i].id) by {
        assert(before[i].reached == generation);
    }
}

/// The components that a walk keeps were asked, if the ones that it has
/// reached were.
pub proof fn lemma_asked_end<ComponentT: Component>(
    reached: Seq<MountedComponent<ComponentT>>,
    after: Seq<MountedComponent<ComponentT>>,
    tickable: Seq<TickSubscription<ComponentT::Message>>,
    generation: usize,
)
    requires
        reached_asked(reached, tickable, generation),
        forall|j: int|
            0 <= j < after.len() ==> reached.contains(#[trigger] after[j]) && after[j].reached
                == generation,
    ensures
        all_asked(after, tickable),
{
    reveal(reached_asked);
    assert forall|j: int| 0 <= j < after.len() implies tick_noted::<ComponentT>(
        tickable,
        (#[trigger] after[j]).id,
    ) by {
        let r = choose|r: int| 0 <= r < reached.len() && reached[r] == after[j];
        assert(reached[r].reached == generation);
    }
}

} // verus!
