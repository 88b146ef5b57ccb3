//! The walk of the tree of components.

use vstd::prelude::*;

use crate::app::mounted::{
    all_mounted, distinct, DrawStatistics, is_mounted, lemma_mounted_at,
    lemma_same_ids_keep_subscriptions, mounted_at, MountedComponent, position, same_ids,
    TickSubscription,
};
use crate::app::orderly::{
    all_seen, awaits, fresh_stretch, lemma_fresh_canvas, lemma_fresh_visit, lemma_orderly_end,
    lemma_orderly_start, lemma_orderly_step, orderly, Pending, pending_placed, seen, seen_before,
    shown_by, walked_through,
};
use crate::app::tally::{
    kept, lemma_count_flip, lemma_count_none, lemma_count_push, lemma_count_same, lemma_kept_add,
    lemma_kept_all, lemma_kept_count, lemma_kept_distinct, lemma_kept_members, reached_count,
};
use crate::app::handed::{
    all_asked, all_told_from, all_wanted, asked, at_place, kept_or_told, leaves_visited,
    lemma_asked_end, lemma_asked_same, lemma_asked_start, lemma_leaves_step, lemma_reconcile_end,
    lemma_reconcile_start, lemma_reconcile_step, lemma_told_end, lemma_told_on, lemma_told_same,
    lemma_told_walk, merged_middle, reached_asked, reconciled, reconciling, tick_noted, told_table,
    was_bound, was_shown, was_wanted,
};
use crate::app::listed::{
    asks_notice, exact, lemma_exact_same, lemma_exact_visit, lemma_listed_same, lemma_listed_start,
    lemma_listed_ticks, lemma_listed_visit, listed, noted_in, reports_focus,
};
use crate::app::shown::{
    agree_along, all_within, awaited, beside, beside_painted, fresh_entries, from_leaves,
    holds_layout, leaves_of, lemma_awaited_leaf, lemma_beside_start, lemma_beside_walk,
    lemma_pictured_step, lemma_same_cell, lemma_same_walk, lemma_shown_step, lemma_walk_kept,
    painted_cell, pictured, queue_after, queue_step, shown_cell, shown_first, walk_done,
    walked_at, walked_id,
};
use crate::app::settled::{
    all_placed, at_rest, calm, lemma_places_kept, lemma_rooted_kept, lemma_settled_kept, placed,
    rested, rested_from, rooted, same_places, settled, shown_within, shows,
};
use crate::component::{Component, ComponentLink, SharedSender};
use crate::component::bindings::DynamicBindings;
use crate::component::layout::{Laid, laid_out, Layout, Template};
use crate::component::template::ComponentId;
use crate::small::IdList;
use crate::terminal::Rect;
use crate::terminal::canvas::Canvas;

verus! {

/// The identities of the components that are still to be walked.
pub open spec fn pending_ids(pending: Seq<Pending>) -> Seq<ComponentId> {
    Seq::new(pending.len(), |k: int| pending[k].id)
}

/// How many components a walk has reached.
pub open spec fn visits(statistics: DrawStatistics) -> int {
    statistics.new + statistics.changed + statistics.nop
}

/// Whether `after` is what a table `before` has become in the course of the
/// walk with the given number: the components that were mounted are still
/// there, under their identities, and each was last reached by the walk
/// that had last reached it or by this one; the components that were added
/// were reached by this one. A component that had asked to be rendered and
/// was not yet reached by this walk still asks for it.
pub open spec fn walked<ComponentT: Component>(
    before: Seq<MountedComponent<ComponentT>>,
    after: Seq<MountedComponent<ComponentT>>,
    generation: usize,
) -> bool {
    &&& before.len() <= after.len()
    &&& forall|i: int|
        0 <= i < before.len() ==> {
            &&& (#[trigger] after[i]).id == before[i].id
            &&& after[i].generation == before[i].generation || after[i].generation == generation
            &&& after[i].reached == before[i].reached || after[i].reached == generation
        }
    &&& forall|i: int|
        before.len() <= i < after.len() ==> (#[trigger] after[i]).generation == generation
            && after[i].reached == generation
}

/// What a walk maintains: no two components go by the same identity, the
/// components that are subscribed or still to be walked are mounted, no
/// component was reached by a later walk than this one, and every region
/// still to be walked can be addressed.
pub open spec fn walkable<ComponentT: Component>(
    components: Seq<MountedComponent<ComponentT>>,
    focused: Seq<ComponentId>,
    notify: Seq<ComponentId>,
    pending: Seq<Pending>,
    generation: usize,
) -> bool {
    &&& distinct(components)
    &&& all_mounted(components, focused)
    &&& all_mounted(components, notify)
    &&& all_mounted(components, pending_ids(pending))
    &&& focused.no_duplicates()
    &&& notify.no_duplicates()
    &&& forall|i: int|
        0 <= i < components.len() ==> (#[trigger] components[i]).generation <= generation
            && components[i].reached <= generation && (components[i].generation == generation
            ==> components[i].reached == generation)
    &&& forall|k: int|
        0 <= k < pending.len() ==> seen(components, generation, (#[trigger] pending[k]).id)
    &&& forall|k: int| 0 <= k < pending.len() ==> (#[trigger] pending[k]).frame.representable()
    &&& forall|k: int|
        0 <= k < focused.len() ==> reached_or_pending(
            components,
            pending,
            generation,
            #[trigger] focused[k],
        )
    &&& forall|k: int|
        0 <= k < notify.len() ==> reached_or_pending(
            components,
            pending,
            generation,
            #[trigger] notify[k],
        )
}

/// Whether the component that goes by `id` was reached by the walk with the
/// given number and walked, or is still to be walked.
pub open spec fn reached_or_pending<ComponentT: Component>(
    components: Seq<MountedComponent<ComponentT>>,
    pending: Seq<Pending>,
    generation: usize,
    id: ComponentId,
) -> bool {
    ||| exists|i: int|
        0 <= i < components.len() && (#[trigger] components[i]).id == id && components[i].generation
            == generation
    ||| exists|k: int| 0 <= k < pending.len() && (#[trigger] pending[k]).id == id
}

/// While the components that were mounted stay mounted, identities that
/// were mounted stay so.
pub proof fn lemma_walked_keeps_mounted<ComponentT: Component>(
    before: Seq<MountedComponent<ComponentT>>,
    after: Seq<MountedComponent<ComponentT>>,
    generation: usize,
    ids: Seq<ComponentId>,
)
    requires
        walked(before, after, generation),
        all_mounted(before, ids),
    ensures
        all_mounted(after, ids),
{
    assert forall|k: int| 0 <= k < ids.len() implies is_mounted(after, #[trigger] ids[k]) by {
        assert(is_mounted(before, ids[k]));
        let i = choose|i: int| 0 <= i < before.len() && (#[trigger] before[i]).id == ids[k];
        assert(after[i].id == ids[k]);
    }
}

/// Reaches a component that a layout declares.
///
/// A component that is not mounted is created, from the properties of its
/// declaration, and counts as new. One that is mounted is handed the
/// properties if the component that declares it was rendered in this walk,
/// and is given the region if that is not the one it has; it counts as
/// changed if it answers one of the two by asking to be rendered, and as
/// unchanged otherwise. Either way the component brings its bindings up to
/// date, its subscriptions are noted, and it is put down as still to be
/// walked.
pub fn visit<ComponentT: Component>(
    template: &Template<ComponentT::Properties>,
    id: ComponentId,
    frame: Rect,
    parent_changed: bool,
    generation: usize,
    sender: &SharedSender<ComponentT::Message>,
    components: &mut Vec<MountedComponent<ComponentT>>,
    focused: &mut IdList,
    notify: &mut IdList,
    tickable: &mut Vec<TickSubscription<ComponentT::Message>>,
    pending: &mut Vec<Pending>,
    statistics: &mut DrawStatistics,
)
    requires
        walkable(old(components)@, old(focused)@, old(notify)@, old(pending)@, generation),
        frame.representable(),
        visits(*old(statistics)) < usize::MAX,
        old(statistics).revisited <= visits(*old(statistics)),
    ensures
        final(statistics).revisited <= visits(*final(statistics)),
        walkable(final(components)@, final(focused)@, final(notify)@, final(pending)@, generation),
        walked(old(components)@, final(components)@, generation),
        final(pending)@ == old(pending)@.push(Pending { id, frame }),
        visits(*final(statistics)) == visits(*old(statistics)) + 1,
        // The visit counts as one to a component that was reached already,
        // or else one more component is reached.
        reached_count(final(components)@, generation) + final(statistics).revisited
            == reached_count(old(components)@, generation) + old(statistics).revisited + 1,
        final(statistics).deleted == old(statistics).deleted,
        final(statistics).revisited >= old(statistics).revisited,
        // A component that is new is mounted, in the region, and asks to be
        // rendered.
        !is_mounted(old(components)@, id) ==> {
            &&& final(components)@.len() == old(components)@.len() + 1
            &&& final(statistics).revisited == old(statistics).revisited
            &&& final(components)@.last().id == id
            &&& final(components)@.last().reached == generation
            &&& final(components)@.last().generation == generation
            &&& final(components)@.last().frame == frame
            &&& final(components)@.last().should_render
            &&& final(components)@.last().layout is None
            &&& final(statistics).new == old(statistics).new + 1
            &&& forall|i: int|
                0 <= i < old(components)@.len() ==> final(components)@[i] == old(components)@[i]
        },
        // A component that is mounted stays where it is in the table and is
        // in the region; it is told what it has to be told, and counts as
        // changed only if it then asks to be rendered.
        is_mounted(old(components)@, id) ==> {
            &&& final(components)@.len() == old(components)@.len()
            &&& final(statistics).new == old(statistics).new
            &&& forall|i: int|
                0 <= i < old(components)@.len() ==> if old(components)@[i].id == id {
                    let before = old(components)@[i];
                    let after = #[trigger] final(components)@[i];
                    &&& after.frame == frame
                    &&& after.reached == generation
                    &&& final(statistics).revisited == if before.reached == generation {
                        old(statistics).revisited + 1
                    } else {
                        old(statistics).revisited as int
                    }
                    &&& after.generation == before.generation
                    &&& after.layout == before.layout
                    &&& before.should_render ==> after.should_render
                    &&& final(statistics).changed == old(statistics).changed + 1
                        ==> after.should_render
                    &&& !parent_changed && before.frame == frame ==> {
                        &&& after.component == before.component
                        &&& after.should_render == before.should_render
                        &&& final(statistics).nop == old(statistics).nop + 1
                    }
                } else {
                    final(components)@[i] == old(components)@[i]
                }
        },
        // The subscriptions grow by what the component subscribes to.
        final(focused)@ == if final(components)@[mounted_at(
            final(components)@,
            id,
        )].bindings.has_focus() {
            IdList::noted(old(focused)@, id)
        } else {
            old(focused)@
        },
        final(notify)@ == if final(components)@[mounted_at(
            final(components)@,
            id,
        )].bindings.wants_notice() {
            IdList::noted(old(notify)@, id)
        } else {
            old(notify)@
        },
        final(tickable)@ == old(tickable)@ || (final(tickable)@.len() == old(tickable)@.len() + 1
            && final(tickable)@.drop_last() == old(tickable)@ && final(tickable)@.last().component_id
            == id),
        // What the component was handed and what was made of its answers.
        is_mounted(old(components)@, id) ==> final(components)@[mounted_at(
            final(components)@,
            id,
        )].was_reached(
            old(components)@[mounted_at(final(components)@, id)],
            template.properties,
            frame,
            parent_changed,
            generation,
        ),
        !is_mounted(old(components)@, id) ==> final(components)@.last().was_mounted(
            template.properties,
            frame,
            id,
            generation,
        ),
        final(components)@[mounted_at(final(components)@, id)].was_asked(
            old(tickable)@,
            final(tickable)@,
        ),
        // Nothing is held but what was held and what the components' own
        // functions gave.
        told_table(old(components)@, final(components)@, generation),
        all_wanted::<ComponentT>(old(tickable)@) ==> all_wanted::<ComponentT>(final(tickable)@),
        reached_asked(old(components)@, old(tickable)@, generation) ==> reached_asked(
            final(components)@,
            final(tickable)@,
            generation,
        ),
{
    let ghost before = components@;
    let index = match position(components, id) {
        Some(i) => {
            let mut changed = parent_changed && components[i].change(&template.properties);
            let ghost first = components@[i as int];
            if frame != components[i].frame {
                changed = components[i].resize(frame) || changed;
            }
            let ghost second = components@[i as int];
            proof {
                assert(first.took_properties(
                    before[i as int],
                    template.properties,
                    parent_changed,
                ));
                assert(second.took_region(first, frame));
            }
            if changed {
                statistics.changed = statistics.changed + 1;
            } else {
                statistics.nop = statistics.nop + 1;
            }
            if components[i].reached == generation {
                statistics.revisited = statistics.revisited + 1;
            }
            components[i].set_reached(generation);
            proof {
                assert(components@[i as int] == (MountedComponent {
                    reached: generation,
                    ..second
                }));
            }
            i
        },
        None => {
            let link = ComponentLink::new(sender.share(), id);
            let component = ComponentT::create(&template.properties, frame, link);
            components.push(
                MountedComponent {
                    id,
                    component,
                    frame,
                    bindings: DynamicBindings::new(),
                    reached: generation,
                    generation,
                    should_render: true,
                    layout: None,
                },
            );
            statistics.new = statistics.new + 1;
            proof {
                assert(components@.last().is_new(template.properties, frame, id, generation));
            }
            components.len() - 1
        },
    };
    let ghost reached = components@[index as int];
    components[index].update_bindings();
    proof {
        assert(components@[index as int].was_rebound(reached));
        if is_mounted(before, id) {
            assert(before[index as int].id == id);
            lemma_mounted_at(before, index as int);
        } else {
            assert(reached.is_new(template.properties, frame, id, generation));
            assert(components@.last() == components@[index as int]);
        }
    }
    proof {
        assert(components@[index as int].id == id);
        lemma_mounted_at(components@, index as int);
        assert(walked(before, components@, generation));
        lemma_walked_keeps_mounted(before, components@, generation, focused@);
        lemma_walked_keeps_mounted(before, components@, generation, notify@);
        lemma_walked_keeps_mounted(before, components@, generation, pending_ids(pending@));
    }
    if components[index].bindings.focused() {
        focused.add_once(id);
    }
    if components[index].bindings.notify() {
        notify.add_once(id);
    }
    let wanted = components[index].tick();
    let ghost answer = wanted;
    match wanted {
        Some(message) => {
            tickable.push(TickSubscription { component_id: id, message });
            assert(tickable@.drop_last() =~= old(tickable)@);
        },
        None => {},
    }
    proof {
        assert(components@[index as int].component.ticks(answer));
        assert(components@[index as int].was_asked(old(tickable)@, tickable@));
    }
    pending.push(Pending { id, frame });
    proof {
        assert forall|k: int| 0 <= k < pending@.len() implies seen(
            components@,
            generation,
            (#[trigger] pending@[k]).id,
        ) by {
            if k < old(pending)@.len() {
                assert(pending@[k] == old(pending)@[k]);
                assert(seen(before, generation, old(pending)@[k].id));
                let i = choose|i: int|
                    0 <= i < before.len() && (#[trigger] before[i]).id == old(pending)@[k].id
                        && before[i].reached == generation;
                assert(components@[i].id == pending@[k].id && components@[i].reached
                    == generation);
            } else {
                assert(components@[index as int].id == id && components@[index as int].reached
                    == generation);
            }
        }
        assert(pending@[pending@.len() - 1].id == id);
        assert forall|k: int| 0 <= k < focused@.len() implies reached_or_pending(
            components@,
            pending@,
            generation,
            #[trigger] focused@[k],
        ) by {
            if focused@[k] != id {
                assert(focused@[k] == old(focused)@[k]);
                lemma_still_reached_or_pending(
                    before,
                    components@,
                    old(pending)@,
                    pending@,
                    generation,
                    focused@[k],
                );
            }
        }
        assert forall|k: int| 0 <= k < notify@.len() implies reached_or_pending(
            components@,
            pending@,
            generation,
            #[trigger] notify@[k],
        ) by {
            if notify@[k] != id {
                assert(notify@[k] == old(notify)@[k]);
                lemma_still_reached_or_pending(
                    before,
                    components@,
                    old(pending)@,
                    pending@,
                    generation,
                    notify@[k],
                );
            }
        }
        assert(is_mounted(components@, id));
        assert forall|k: int| 0 <= k < pending@.len() implies is_mounted(
            components@,
            #[trigger] pending_ids(pending@)[k],
        ) by {
            if k < old(pending)@.len() {
                assert(pending_ids(pending@)[k] == pending_ids(old(pending)@)[k]);
            }
        }
        if is_mounted(before, id) {
            let at = index as int;
            assert(before[at].id == id);
            assert forall|j: int| 0 <= j < before.len() && j != at implies ((
            #[trigger] before[j]).reached == generation) == (components@[j].reached
                == generation) by {
                if j < at {
                    assert(before[j].id != before[at].id);
                } else {
                    assert(before[at].id != before[j].id);
                }
                assert(components@[j] == before[j]);
            }
            lemma_count_flip(before, components@, generation, at);
        } else {
            assert(components@ =~= before.push(components@.last()));
            lemma_count_push(before, components@.last(), generation);
        }
        reveal(told_table);
        assert forall|i: int| 0 <= i < components@.len() implies kept_or_told(
            at_place(before, i),
            #[trigger] components@[i],
            generation,
        ) by {
            if i == index as int {
                assert(components@[i].was_rebound(reached));
                assert(was_bound(components@[i].bindings));
            } else {
                assert(components@[i] == before[i]);
            }
        }
        if reached_asked(before, old(tickable)@, generation) {
            reveal(reached_asked);
            assert forall|i: int|
                0 <= i < components@.len() && (#[trigger] components@[i]).reached
                    == generation implies tick_noted::<ComponentT>(tickable@, components@[i].id) by {
                if i == index as int {
                    assert(components@[i].component.ticks(answer));
                    match answer {
                        Some(wanted) => {
                            assert(tickable@.last() == (TickSubscription {
                                component_id: id,
                                message: wanted,
                            }));
                        },
                        None => {},
                    }
                } else {
                    assert(components@[i] == before[i]);
                    assert(tick_noted::<ComponentT>(old(tickable)@, before[i].id));
                    let then = choose|then: ComponentT, message: Option<ComponentT::Message>| #[trigger]
                        then.ticks(message) && (message matches Some(wanted) ==> old(
                            tickable,
                        )@.contains(
                            TickSubscription { component_id: before[i].id, message: wanted },
                        ));
                    match then.1 {
                        Some(wanted) => {
                            let at = choose|at: int|
                                0 <= at < old(tickable)@.len() && old(tickable)@[at] == (
                                TickSubscription { component_id: before[i].id, message: wanted });
                            assert(tickable@[at] == old(tickable)@[at]);
                        },
                        None => {},
                    }
                    assert(then.0.ticks(then.1));
                }
            }
        }
        if all_wanted::<ComponentT>(old(tickable)@) {
            assert forall|t: int| 0 <= t < tickable@.len() implies was_wanted::<ComponentT>(
                (#[trigger] tickable@[t]).message,
            ) by {
                if t < old(tickable)@.len() {
                    assert(tickable@[t] == old(tickable)@[t]);
                } else {
                    assert(components@[index as int].component.ticks(answer));
                }
            }
        }
    }
}

/// A component that was reached or is still to be walked stays so while the
/// walk goes on and puts more components down as still to be walked.
pub proof fn lemma_still_reached_or_pending<ComponentT: Component>(
    before: Seq<MountedComponent<ComponentT>>,
    after: Seq<MountedComponent<ComponentT>>,
    pending_before: Seq<Pending>,
    pending_after: Seq<Pending>,
    generation: usize,
    id: ComponentId,
)
    requires
        walked(before, after, generation),
        pending_before.len() <= pending_after.len(),
        forall|k: int| 0 <= k < pending_before.len() ==> pending_after[k] == pending_before[k],
        reached_or_pending(before, pending_before, generation, id),
    ensures
        reached_or_pending(after, pending_after, generation, id),
{
    if exists|i: int|
        0 <= i < before.len() && (#[trigger] before[i]).id == id && before[i].generation
            == generation {
        let i = choose|i: int|
            0 <= i < before.len() && (#[trigger] before[i]).id == id && before[i].generation
                == generation;
        assert(after[i].id == id && after[i].generation == generation);
    } else {
        let k = choose|k: int| 0 <= k < pending_before.len() && (#[trigger] pending_before[k]).id == id;
        assert(pending_after[k].id == id);
    }
}

/// Whether `longer` begins with `shorter`.
pub open spec fn extends<T>(shorter: Seq<T>, longer: Seq<T>) -> bool {
    &&& shorter.len() <= longer.len()
    &&& forall|k: int| 0 <= k < shorter.len() ==> longer[k] == shorter[k]
}

/// The walk goes on where it went: what holds of the table after one
/// stretch and then another holds of both together.
pub proof fn lemma_walked_on<ComponentT: Component>(
    first: Seq<MountedComponent<ComponentT>>,
    second: Seq<MountedComponent<ComponentT>>,
    third: Seq<MountedComponent<ComponentT>>,
    generation: usize,
)
    requires
        walked(first, second, generation),
        walked(second, third, generation),
    ensures
        walked(first, third, generation),
{
    assert forall|i: int| 0 <= i < first.len() implies {
        &&& (#[trigger] third[i]).id == first[i].id
        &&& third[i].generation == first[i].generation || third[i].generation == generation
    } by {
        assert(second[i].id == first[i].id);
        assert(third[i].id == second[i].id);
    }
    assert forall|i: int| first.len() <= i < third.len() implies (#[trigger] third[i]).generation
        == generation by {
        if i < second.len() {
            assert(second[i].generation == generation);
            assert(third[i].id == second[i].id);
        }
    }
}

/// Whether every component among the leaves `laid` was reached by the walk
/// with the given number, or is still to be walked.
pub open spec fn all_visited<'a, ComponentT: Component>(
    components: Seq<MountedComponent<ComponentT>>,
    pending: Seq<Pending>,
    generation: usize,
    laid: Seq<Laid<'a, ComponentT::Properties>>,
) -> bool {
    forall|k: int|
        0 <= k < laid.len() ==> match #[trigger] laid[k] {
            Laid::Component { id, .. } => reached_or_pending(components, pending, generation, id),
            Laid::Canvas { .. } => true,
        }
}

/// Whether the walk with the given number reached or is still to walk every
/// component that is shown by a component that it has walked.
pub open spec fn walked_closed<ComponentT: Component>(
    components: Seq<MountedComponent<ComponentT>>,
    pending: Seq<Pending>,
    generation: usize,
) -> bool {
    forall|i: int|
        0 <= i < components.len() && (#[trigger] components[i]).generation == generation
            && components[i].layout is Some ==> all_visited(
            components,
            pending,
            generation,
            laid_out(&components[i].layout->Some_0.0, components[i].frame, components[i].id.id),
        )
}

/// What a component shows stays among what was reached or is still to be
/// walked, while the walk goes on.
pub proof fn lemma_visited_kept<'a, ComponentT: Component>(
    before: Seq<MountedComponent<ComponentT>>,
    after: Seq<MountedComponent<ComponentT>>,
    pending_before: Seq<Pending>,
    pending_after: Seq<Pending>,
    generation: usize,
    laid: Seq<Laid<'a, ComponentT::Properties>>,
)
    requires
        walked(before, after, generation),
        extends(pending_before, pending_after),
        all_visited(before, pending_before, generation, laid),
    ensures
        all_visited(after, pending_after, generation, laid),
{
    assert forall|k: int| 0 <= k < laid.len() implies match #[trigger] laid[k] {
        Laid::Component { id, .. } => reached_or_pending(after, pending_after, generation, id),
        Laid::Canvas { .. } => true,
    } by {
        match laid[k] {
            Laid::Component { id, .. } => {
                lemma_still_reached_or_pending(
                    before,
                    after,
                    pending_before,
                    pending_after,
                    generation,
                    id,
                );
            },
            Laid::Canvas { .. } => {},
        }
    }
}

/// What a component shows stays among what was reached or is still to be
/// walked when a component that was still to be walked is taken up.
pub proof fn lemma_visited_after_pop<'a, ComponentT: Component>(
    before: Seq<MountedComponent<ComponentT>>,
    after: Seq<MountedComponent<ComponentT>>,
    waiting: Seq<Pending>,
    generation: usize,
    i: int,
    laid: Seq<Laid<'a, ComponentT::Properties>>,
)
    requires
        waiting.len() > 0,
        walked(before, after, generation),
        0 <= i < after.len(),
        after[i].id == waiting.last().id,
        after[i].generation == generation,
        all_visited(before, waiting, generation, laid),
    ensures
        all_visited(after, waiting.drop_last(), generation, laid),
{
    assert forall|k: int| 0 <= k < laid.len() implies match #[trigger] laid[k] {
        Laid::Component { id, .. } => reached_or_pending(
            after,
            waiting.drop_last(),
            generation,
            id,
        ),
        Laid::Canvas { .. } => true,
    } by {
        match laid[k] {
            Laid::Component { id, .. } => {
                lemma_popped_is_reached(before, after, waiting, generation, i, id);
            },
            Laid::Canvas { .. } => {},
        }
    }
}

/// Where a walk has come to its end and has reached what the root shows and
/// what every component that it walked shows, it has reached every
/// component that is shown.
pub proof fn lemma_shown_is_reached<ComponentT: Component>(
    root: Layout<ComponentT::Properties>,
    frame: Rect,
    components: Seq<MountedComponent<ComponentT>>,
    generation: usize,
    id: ComponentId,
    depth: nat,
)
    requires
        distinct(components),
        all_visited(components, Seq::<Pending>::empty(), generation, laid_out(&root.0, frame, 0)),
        walked_closed(components, Seq::<Pending>::empty(), generation),
        shown_within(root, frame, components, id, depth),
    ensures
        exists|i: int|
            0 <= i < components.len() && (#[trigger] components[i]).id == id
                && components[i].generation == generation,
    decreases depth,
{
    let nothing = Seq::<Pending>::empty();
    if depth == 0 {
        let laid = laid_out(&root.0, frame, 0);
        let k = choose|k: int|
            0 <= k < laid.len() && match #[trigger] laid[k] {
                Laid::Component { id: found, .. } => found == id,
                Laid::Canvas { .. } => false,
            };
        assert(reached_or_pending(components, nothing, generation, id));
    } else if shown_within(root, frame, components, id, (depth - 1) as nat) {
        lemma_shown_is_reached(root, frame, components, generation, id, (depth - 1) as nat);
    } else {
        let i = choose|i: int|
            0 <= i < components.len() && shown_within(
                root,
                frame,
                components,
                (#[trigger] components[i]).id,
                (depth - 1) as nat,
            ) && components[i].layout is Some && shows(
                laid_out(&components[i].layout->Some_0.0, components[i].frame, components[i].id.id),
                id,
            );
        lemma_shown_is_reached(
            root,
            frame,
            components,
            generation,
            components[i].id,
            (depth - 1) as nat,
        );
        let j = choose|j: int|
            0 <= j < components.len() && (#[trigger] components[j]).id == components[i].id
                && components[j].generation == generation;
        if j < i {
            assert(components[j].id != components[i].id);
        } else if i < j {
            assert(components[i].id != components[j].id);
        }
        let laid = laid_out(
            &components[i].layout->Some_0.0,
            components[i].frame,
            components[i].id.id,
        );
        assert(all_visited(components, nothing, generation, laid));
        let k = choose|k: int|
            0 <= k < laid.len() && match #[trigger] laid[k] {
                Laid::Component { id: found, .. } => found == id,
                Laid::Canvas { .. } => false,
            };
        assert(reached_or_pending(components, nothing, generation, id));
    }
}

/// Goes through the leaves of a layout that is laid out: copies the
/// canvases to the screen and reaches the components, for as long as the
/// walk may reach another component.
///
/// `budget` is how many components the walk may still reach. It exists for
/// the walk to end, whatever the components show, and is large enough never
/// to run out.
#[verifier::rlimit(80)]
pub fn process<'a, ComponentT: Component>(
    laid: &Vec<Laid<'a, ComponentT::Properties>>,
    parent_changed: bool,
    generation: usize,
    sender: &SharedSender<ComponentT::Message>,
    components: &mut Vec<MountedComponent<ComponentT>>,
    focused: &mut IdList,
    notify: &mut IdList,
    tickable: &mut Vec<TickSubscription<ComponentT::Message>>,
    pending: &mut Vec<Pending>,
    statistics: &mut DrawStatistics,
    screen: &mut Canvas,
    budget: &mut usize,
)
    requires
        walkable(old(components)@, old(focused)@, old(notify)@, old(pending)@, generation),
        listed(old(components)@, old(focused)@, old(notify)@, old(tickable)@, generation),
        forall|k: int| 0 <= k < laid@.len() ==> (#[trigger] laid@[k]).region().representable(),
        visits(*old(statistics)) + *old(budget) == usize::MAX,
        old(statistics).revisited <= visits(*old(statistics)),
    ensures
        final(statistics).revisited <= visits(*final(statistics)),
        final(statistics).revisited >= old(statistics).revisited,
        walkable(final(components)@, final(focused)@, final(notify)@, final(pending)@, generation),
        walked(old(components)@, final(components)@, generation),
        extends(old(pending)@, final(pending)@),
        visits(*final(statistics)) + *final(budget) == usize::MAX,
        final(pending)@.len() + *final(budget) == old(pending)@.len() + *old(budget),
        final(statistics).deleted == old(statistics).deleted,
        final(components)@.len() - final(statistics).new == old(components)@.len() - old(
            statistics,
        ).new,
        final(screen).extent() == old(screen).extent(),
        forall|x: int, y: int|
            old(screen).has(x, y) ==> #[trigger] final(screen).cell(x, y) == painted_cell(
                old(screen).extent(),
                old(screen).cell(x, y),
                laid@,
                laid@.len() as int,
                x,
                y,
            ),
        // Every component among the leaves is reached, and thereby mounted,
        // for as long as the walk may reach another.
        *final(budget) > 0 || *old(budget) >= laid@.len() ==> forall|k: int|
            0 <= k < laid@.len() ==> (#[trigger] laid@[k] matches Laid::Component { id, .. }
                ==> is_mounted(final(components)@, id)),
        *final(budget) <= *old(budget),
        // What a component shows stays as it is, and a new component shows
        // nothing yet.
        forall|i: int|
            0 <= i < final(components)@.len() ==> if i < old(components)@.len() {
                (#[trigger] final(components)@[i]).layout == old(components)@[i].layout
                    && final(components)@[i].generation == old(components)@[i].generation
            } else {
                final(components)@[i].layout is None
            },
        // The subscriptions hold what the components that were reached
        // ask for.
        listed(final(components)@, final(focused)@, final(notify)@, final(tickable)@, generation),
        extends(old(tickable)@, final(tickable)@),
        // Nothing is held but what was held and what the components' own
        // functions gave.
        told_table(old(components)@, final(components)@, generation),
        all_wanted::<ComponentT>(old(tickable)@) ==> all_wanted::<ComponentT>(final(tickable)@),
        reached_asked(old(components)@, old(tickable)@, generation) ==> reached_asked(
            final(components)@,
            final(tickable)@,
            generation,
        ),
        // Where no component is reached twice, every component among the
        // leaves is what reaching it for its declaration makes of the
        // component that the table held: it was handed the properties if
        // the declaring component was rendered, the region if that is a new
        // one, and was asked what it wants when time passes.
        final(statistics).revisited == old(statistics).revisited && (*final(budget) > 0 || *old(
            budget,
        ) >= laid@.len()) ==> leaves_visited(
            old(components)@,
            final(components)@,
            final(tickable)@,
            laid@,
            laid@.len() as int,
            parent_changed,
            generation,
        ),
        final(statistics).revisited == old(statistics).revisited ==> forall|t: int|
            old(tickable)@.len() <= t < final(tickable)@.len() ==> !seen(
                old(components)@,
                generation,
                (#[trigger] final(tickable)@[t]).component_id,
            ),
        // Where no component is reached twice, they hold no more than
        // that.
        exact(old(components)@, old(focused)@, old(notify)@) && final(statistics).revisited == old(
            statistics,
        ).revisited ==> exact(final(components)@, final(focused)@, final(notify)@),
        // A component is put down to be walked in the region of the leaf
        // that declares it.
        forall|k: int|
            old(pending)@.len() <= k < final(pending)@.len() ==> from_leaves(
                laid@,
                (#[trigger] final(pending)@[k]).frame,
            ),
        // A component that is not put down as still to be walked is left
        // as it was.
        forall|i: int|
            0 <= i < old(components)@.len() ==> #[trigger] final(components)@[i] == old(
                components,
            )@[i] || awaits(final(pending)@, old(pending)@.len() as int, old(components)@[i].id),
        // As many more components are reached as visits are made to
        // components that were not reached before.
        reached_count(final(components)@, generation) + final(statistics).revisited + visits(
            *old(statistics),
        ) == reached_count(old(components)@, generation) + old(statistics).revisited + visits(
            *final(statistics),
        ),
        *final(budget) > 0 || *old(budget) >= laid@.len() ==> all_visited(
            final(components)@,
            final(pending)@,
            generation,
            laid@,
        ),
        // Every component among the leaves is put down as still to be
        // walked, in the order of the leaves.
        *final(budget) > 0 || *old(budget) >= laid@.len() ==> final(pending)@ == old(pending)@
            + awaited(laid@, laid@.len() as int),
        final(statistics).revisited == old(statistics).revisited && *final(budget) > 0
            ==> fresh_entries(
            old(components)@,
            final(pending)@,
            old(pending)@.len() as int,
            generation,
        ),
        // Every component that is reached is put down as still to be
        // walked.
        forall|i: int|
            0 <= i < final(components)@.len() && (#[trigger] final(components)@[i]).reached
                == generation && !seen_before(old(components)@, generation, i) ==> awaits(
                final(pending)@,
                old(pending)@.len() as int,
                final(components)@[i].id,
            ),
        // Where no component is reached twice, the components that were
        // reached before stay as they are, and the ones that are reached
        // are where the layout puts them.
        final(statistics).revisited == old(statistics).revisited && *final(budget) > 0
            ==> fresh_stretch(
            old(components)@,
            final(components)@,
            final(pending)@,
            old(pending)@.len() as int,
            generation,
            laid@,
        ),
        // Where nothing changed, nothing is found changed: components that
        // are where the layout puts them, under a component that was not
        // rendered, stay as they are and count as such.
        !parent_changed && all_placed(old(components)@, laid@) ==> {
            &&& calm(old(components)@, final(components)@)
            &&& same_ids(old(components)@, final(components)@)
            &&& final(statistics).new == old(statistics).new
            &&& final(statistics).changed == old(statistics).changed
            &&& pending_placed(final(components)@, final(pending)@, old(pending)@.len() as int)
        },
{
    let mut k: usize = 0;
    proof {
        assert(calm(components@, components@));
        assert(same_ids(components@, components@));
        assert(laid@.take(0) =~= Seq::empty());
        lemma_told_same(components@, generation);
    }
    while k < laid.len()
        invariant
            k <= laid@.len(),
            walkable(components@, focused@, notify@, pending@, generation),
            walked(old(components)@, components@, generation),
            extends(old(pending)@, pending@),
            forall|j: int| 0 <= j < laid@.len() ==> (#[trigger] laid@[j]).region().representable(),
            visits(*statistics) + *budget == usize::MAX,
            statistics.revisited <= visits(*statistics),
            statistics.revisited >= old(statistics).revisited,
            pending@.len() + *budget == old(pending)@.len() + *old(budget),
            statistics.deleted == old(statistics).deleted,
            components@.len() - statistics.new == old(components)@.len() - old(statistics).new,
            screen.extent() == old(screen).extent(),
            forall|x: int, y: int|
                old(screen).has(x, y) ==> #[trigger] screen.cell(x, y) == painted_cell(
                    old(screen).extent(),
                    old(screen).cell(x, y),
                    laid@,
                    k as int,
                    x,
                    y,
                ),
            *budget > 0 || *old(budget) >= laid@.len() ==> forall|j: int|
                0 <= j < k ==> (#[trigger] laid@[j] matches Laid::Component { id, .. }
                    ==> is_mounted(components@, id)),
            *old(budget) >= laid@.len() ==> *budget + k >= laid@.len(),
            *budget <= *old(budget),
            forall|i: int|
                0 <= i < components@.len() ==> if i < old(components)@.len() {
                    (#[trigger] components@[i]).layout == old(components)@[i].layout
                        && components@[i].generation == old(components)@[i].generation
                } else {
                    components@[i].layout is None
                },
            listed(components@, focused@, notify@, tickable@, generation),
            distinct(old(components)@),
            extends(old(tickable)@, tickable@),
            told_table(old(components)@, components@, generation),
            all_wanted::<ComponentT>(old(tickable)@) ==> all_wanted::<ComponentT>(tickable@),
            reached_asked(old(components)@, old(tickable)@, generation) ==> reached_asked(
                components@,
                tickable@,
                generation,
            ),
            statistics.revisited == old(statistics).revisited && (*budget > 0 || *old(budget)
                >= laid@.len()) ==> leaves_visited(
                old(components)@,
                components@,
                tickable@,
                laid@,
                k as int,
                parent_changed,
                generation,
            ),
            statistics.revisited == old(statistics).revisited ==> forall|t: int|
                old(tickable)@.len() <= t < tickable@.len() ==> !seen(
                    old(components)@,
                    generation,
                    (#[trigger] tickable@[t]).component_id,
                ),
            exact(old(components)@, old(focused)@, old(notify)@) && statistics.revisited == old(
                statistics,
            ).revisited ==> exact(components@, focused@, notify@),
            forall|q: int|
                old(pending)@.len() <= q < pending@.len() ==> from_leaves(
                    laid@,
                    (#[trigger] pending@[q]).frame,
                ),
            forall|i: int|
                0 <= i < old(components)@.len() ==> #[trigger] components@[i] == old(
                    components,
                )@[i] || awaits(pending@, old(pending)@.len() as int, old(components)@[i].id),
            reached_count(components@, generation) + statistics.revisited + visits(
                *old(statistics),
            ) == reached_count(old(components)@, generation) + old(statistics).revisited + visits(
                *statistics,
            ),
            !parent_changed && all_placed(old(components)@, laid@) ==> {
                &&& calm(old(components)@, components@)
                &&& same_ids(old(components)@, components@)
                &&& statistics.new == old(statistics).new
                &&& statistics.changed == old(statistics).changed
                &&& pending_placed(components@, pending@, old(pending)@.len() as int)
            },
            *budget > 0 || *old(budget) >= laid@.len() ==> pending@ == old(pending)@ + awaited(
                laid@,
                k as int,
            ),
            statistics.revisited == old(statistics).revisited && *budget > 0 ==> fresh_entries(
                old(components)@,
                pending@,
                old(pending)@.len() as int,
                generation,
            ),
            *budget > 0 || *old(budget) >= laid@.len() ==> all_visited(
                components@,
                pending@,
                generation,
                laid@.take(k as int),
            ),
            forall|i: int|
                0 <= i < components@.len() && (#[trigger] components@[i]).reached == generation
                    && !seen_before(old(components)@, generation, i) ==> awaits(
                    pending@,
                    old(pending)@.len() as int,
                    components@[i].id,
                ),
            statistics.revisited == old(statistics).revisited && *budget > 0 ==> fresh_stretch(
                old(components)@,
                components@,
                pending@,
                old(pending)@.len() as int,
                generation,
                laid@.take(k as int),
            ),
        decreases laid@.len() - k,
    {
        let ghost earlier = components@;
        let ghost waiting = pending@;
        let ghost focused_before = focused@;
        let ghost notify_before = notify@;
        let ghost tickable_before = tickable@;
        match &laid[k] {
            Laid::Canvas { frame, canvas } => {
                screen.copy_region(canvas, *frame);
            },
            Laid::Component { frame, id, template } => {
                assert(laid@[k as int].region() == *frame);
                if *budget > 0 {
                    *budget = *budget - 1;
                    visit(
                        template,
                        *id,
                        *frame,
                        parent_changed,
                        generation,
                        sender,
                        components,
                        focused,
                        notify,
                        tickable,
                        pending,
                        statistics,
                    );
                    proof {
                        lemma_told_on(old(components)@, earlier, components@, generation);
                        assert(seen(components@, generation, pending@[pending@.len() - 1].id));
                        assert(extends(old(tickable)@, tickable@)) by {
                            assert forall|t: int|
                                0 <= t < old(tickable)@.len() implies tickable@[t] == old(
                                tickable,
                            )@[t] by {
                                assert(tickable_before[t] == old(tickable)@[t]);
                                if tickable@ != tickable_before {
                                    assert(tickable@.drop_last()[t] == tickable@[t]);
                                }
                            }
                        }
                        if statistics.revisited == old(statistics).revisited {
                            if seen(earlier, generation, *id) {
                                let at = choose|at: int|
                                    0 <= at < earlier.len() && (#[trigger] earlier[at]).id == *id
                                        && earlier[at].reached == generation;
                                assert(is_mounted(earlier, *id));
                                assert(components@[at].id == earlier[at].id);
                            }
                            assert(!seen(earlier, generation, *id));
                            assert(!seen(old(components)@, generation, *id)) by {
                                if seen(old(components)@, generation, *id) {
                                    let at = choose|at: int|
                                        0 <= at < old(components)@.len() && (
                                        #[trigger] old(components)@[at]).id == *id && old(
                                            components,
                                        )@[at].reached == generation;
                                    assert(earlier[at].id == *id && earlier[at].reached
                                        == generation);
                                }
                            }
                            assert forall|t: int|
                                old(tickable)@.len() <= t < tickable@.len() implies !seen(
                                old(components)@,
                                generation,
                                (#[trigger] tickable@[t]).component_id,
                            ) by {
                                if t < tickable_before.len() {
                                    if tickable@ != tickable_before {
                                        assert(tickable@.drop_last()[t] == tickable@[t]);
                                    }
                                    assert(tickable@[t] == tickable_before[t]);
                                }
                            }
                            if *budget > 0 || *old(budget) >= laid@.len() {
                                lemma_listed_ticks(
                                    earlier,
                                    focused_before,
                                    notify_before,
                                    tickable_before,
                                    generation,
                                );
                                assert forall|i: int|
                                    0 <= i < old(components)@.len() implies #[trigger] earlier[i]
                                    == old(components)@[i] || seen(
                                    earlier,
                                    generation,
                                    old(components)@[i].id,
                                ) by {
                                    if earlier[i] != old(components)@[i] {
                                        let k0 = choose|k0: int|
                                            old(pending)@.len() <= k0 < waiting.len() && 0 <= k0
                                                && (#[trigger] waiting[k0]).id == old(
                                                components,
                                            )@[i].id;
                                        assert(seen(earlier, generation, waiting[k0].id));
                                    }
                                }
                                assert(laid@[k as int] matches Laid::Component {
                                    id: leaf,
                                    ..
                                } && leaf == *id);
                                lemma_leaves_step(
                                    old(components)@,
                                    earlier,
                                    components@,
                                    tickable_before,
                                    tickable@,
                                    laid@,
                                    k as int,
                                    parent_changed,
                                    generation,
                                );
                            }
                        }
                        if exact(old(components)@, old(focused)@, old(notify)@)
                            && statistics.revisited == old(statistics).revisited {
                            // The component was not reached before, or it
                            // would count as reached twice: it is not
                            // subscribed yet.
                            if seen(earlier, generation, *id) {
                                let at = choose|at: int|
                                    0 <= at < earlier.len() && (#[trigger] earlier[at]).id == *id
                                        && earlier[at].reached == generation;
                                assert(is_mounted(earlier, *id));
                                assert(components@[at].id == earlier[at].id);
                            }
                            assert(!seen(earlier, generation, *id));
                            if focused_before.contains(*id) {
                                let q = choose|q: int|
                                    0 <= q < focused_before.len() && focused_before[q] == *id;
                                assert(reached_or_pending(
                                    earlier,
                                    waiting,
                                    generation,
                                    focused_before[q],
                                ));
                                lemma_due_is_seen(
                                    earlier,
                                    focused_before,
                                    notify_before,
                                    waiting,
                                    generation,
                                    *id,
                                );
                            }
                            if notify_before.contains(*id) {
                                let q = choose|q: int|
                                    0 <= q < notify_before.len() && notify_before[q] == *id;
                                assert(reached_or_pending(
                                    earlier,
                                    waiting,
                                    generation,
                                    notify_before[q],
                                ));
                                lemma_due_is_seen(
                                    earlier,
                                    focused_before,
                                    notify_before,
                                    waiting,
                                    generation,
                                    *id,
                                );
                            }
                            lemma_exact_visit(
                                earlier,
                                components@,
                                focused_before,
                                focused@,
                                notify_before,
                                notify@,
                                *id,
                            );
                        }
                        assert forall|i: int| 0 <= i < components@.len() implies if i < old(
                            components,
                        )@.len() {
                            (#[trigger] components@[i]).layout == old(components)@[i].layout
                                && components@[i].generation == old(components)@[i].generation
                        } else {
                            components@[i].layout is None
                        } by {
                            if i < earlier.len() {
                                if earlier[i].id == *id {
                                    assert(is_mounted(earlier, *id));
                                }
                                assert(components@[i].layout == earlier[i].layout);
                                assert(components@[i].generation == earlier[i].generation);
                            } else {
                                assert(!is_mounted(earlier, *id));
                            }
                        }
                        lemma_listed_visit(
                            earlier,
                            components@,
                            focused_before,
                            focused@,
                            notify_before,
                            notify@,
                            tickable_before,
                            tickable@,
                            generation,
                            *id,
                        );
                        assert(components@[mounted_at(components@, *id)].id == *id) by {
                            assert(pending_ids(pending@)[pending@.len() - 1] == *id);
                            assert(is_mounted(components@, *id));
                        }
                        let at = mounted_at(components@, *id);
                        assert(components@[at].frame == *frame && components@[at].reached
                            == generation) by {
                            assert(0 <= at < components@.len());
                            if is_mounted(earlier, *id) {
                                assert(components@.len() == earlier.len());
                                assert(walked(earlier, components@, generation));
                                assert(components@[at].id == earlier[at].id);
                            } else {
                                if at < earlier.len() {
                                    assert(earlier[at] == components@[at]);
                                    assert(is_mounted(earlier, *id));
                                }
                            }
                        }
                        assert forall|i: int|
                            0 <= i < components@.len() && (#[trigger] components@[i]).reached
                                == generation && !seen_before(
                                old(components)@,
                                generation,
                                i,
                            ) implies awaits(
                            pending@,
                            old(pending)@.len() as int,
                            components@[i].id,
                        ) by {
                            if components@[i].id == *id {
                                assert(pending@[pending@.len() - 1].id == *id);
                            } else {
                                assert(i < earlier.len()) by {
                                    if !is_mounted(earlier, *id) && i >= earlier.len() {
                                        assert(components@.last().id == *id);
                                    }
                                }
                                assert(components@[i].id == earlier[i].id);
                                assert(earlier[i] == components@[i]);
                                assert(awaits(waiting, old(pending)@.len() as int, earlier[i].id));
                                let k0 = choose|k0: int|
                                    old(pending)@.len() <= k0 < waiting.len() && 0 <= k0 && (
                                    #[trigger] waiting[k0]).id == earlier[i].id;
                                assert(pending@[k0].id == components@[i].id);
                            }
                        }
                        assert(pending@ =~= old(pending)@ + awaited(laid@, k as int + 1));
                        assert forall|q: int|
                            old(pending)@.len() <= q < pending@.len() implies from_leaves(
                            laid@,
                            (#[trigger] pending@[q]).frame,
                        ) by {
                            if q < waiting.len() {
                                assert(pending@[q] == waiting[q]);
                            } else {
                                assert(laid@[k as int].region() == pending@[q].frame);
                            }
                        }
                        assert forall|i: int| 0 <= i < old(components)@.len() implies (
                        #[trigger] components@[i]) == old(components)@[i] || awaits(
                            pending@,
                            old(pending)@.len() as int,
                            old(components)@[i].id,
                        ) by {
                            assert(earlier[i].id == old(components)@[i].id);
                            if earlier[i].id == *id {
                                assert(pending@[pending@.len() - 1].id == *id);
                            } else {
                                if is_mounted(earlier, *id) {
                                    assert(components@[i] == earlier[i]);
                                } else {
                                    assert(components@[i] == earlier[i]);
                                }
                                if earlier[i] != old(components)@[i] {
                                    let k0 = choose|k0: int|
                                        old(pending)@.len() <= k0 < waiting.len() && 0 <= k0 && (
                                        #[trigger] waiting[k0]).id == old(components)@[i].id;
                                    assert(pending@[k0].id == old(components)@[i].id);
                                }
                            }
                        }
                        if statistics.revisited == old(statistics).revisited && *budget > 0 {
                            // The component was not reached before, or it
                            // would count as reached twice.
                            assert(!seen(earlier, generation, *id)) by {
                                if seen(earlier, generation, *id) {
                                    let at = choose|at: int|
                                        0 <= at < earlier.len() && (#[trigger] earlier[at]).id
                                            == *id && earlier[at].reached == generation;
                                    assert(is_mounted(earlier, *id));
                                    assert(components@[at].id == earlier[at].id);
                                }
                            }
                            assert(!seen(old(components)@, generation, *id)) by {
                                if seen(old(components)@, generation, *id) {
                                    let at = choose|at: int|
                                        0 <= at < old(components)@.len() && (
                                        #[trigger] old(components)@[at]).id == *id && old(
                                            components,
                                        )@[at].reached == generation;
                                    assert(earlier[at].id == *id && earlier[at].reached
                                        == generation);
                                }
                            }
                            assert forall|a: int, b: int|
                                old(pending)@.len() <= a < b < pending@.len() && 0
                                    <= a implies (#[trigger] pending@[a]).id != (
                            #[trigger] pending@[b]).id by {
                                if b == pending@.len() - 1 {
                                    assert(pending@[a] == waiting[a]);
                                    assert(seen(earlier, generation, waiting[a].id));
                                } else {
                                    assert(pending@[a] == waiting[a]);
                                    assert(pending@[b] == waiting[b]);
                                }
                            }
                            assert forall|q: int|
                                old(pending)@.len() <= q < pending@.len() && 0 <= q implies !seen(
                                old(components)@,
                                generation,
                                (#[trigger] pending@[q]).id,
                            ) by {
                                if q < pending@.len() - 1 {
                                    assert(pending@[q] == waiting[q]);
                                }
                            }
                        }
                        if statistics.revisited == old(statistics).revisited && *budget > 0 {
                            assert forall|i: int| 0 <= i < earlier.len() implies (
                            #[trigger] components@[i]).id == earlier[i].id && if earlier[i].id
                                == *id {
                                earlier[i].reached != generation
                            } else {
                                components@[i] == earlier[i]
                            } by {
                                if earlier[i].id == *id {
                                    assert(is_mounted(earlier, *id));
                                }
                            }
                            assert forall|i: int| 0 <= i < earlier.len() implies (
                            #[trigger] components@[i]).generation == earlier[i].generation
                                && components@[i].layout == earlier[i].layout by {
                                if earlier[i].id == *id {
                                    assert(is_mounted(earlier, *id));
                                }
                            }
                            lemma_fresh_visit(
                                old(components)@,
                                earlier,
                                components@,
                                waiting,
                                pending@,
                                old(pending)@.len() as int,
                                generation,
                                *id,
                                *frame,
                                laid@,
                                k as int,
                            );
                        }
                        if !parent_changed && all_placed(old(components)@, laid@) {
                            assert(placed(old(components)@, *id, *frame));
                            let at = choose|i: int|
                                0 <= i < old(components)@.len() && (
                                #[trigger] old(components)@[i]).id == *id && old(
                                    components,
                                )@[i].frame == *frame;
                            assert(rested(old(components)@[at], earlier[at]));
                            assert(earlier[at].id == *id);
                            assert(is_mounted(earlier, *id));
                            lemma_quiet_visit(
                                old(components)@,
                                earlier,
                                components@,
                                waiting,
                                pending@,
                                old(pending)@.len() as int,
                                *id,
                                *frame,
                                laid@,
                                k as int,
                            );
                        }
                        assert(walked(earlier, components@, generation));
                        lemma_visited_kept(
                            earlier,
                            components@,
                            waiting,
                            pending@,
                            generation,
                            laid@.take(k as int),
                        );
                        assert(pending@[pending@.len() - 1].id == *id);
                        assert(reached_or_pending(components@, pending@, generation, *id));
                        lemma_walked_on(old(components)@, earlier, components@, generation);
                        assert(pending_ids(pending@)[pending@.len() - 1] == *id);
                        assert(is_mounted(components@, *id));
                        assert(laid@[k as int] matches Laid::Component { id: other, .. } && other
                            == *id);
                        assert forall|j: int| 0 <= j < k + 1 implies (
                        #[trigger] laid@[j] matches Laid::Component { id, .. } ==> is_mounted(
                            components@,
                            id,
                        )) by {
                            if j < k {
                                match laid@[j] {
                                    Laid::Component { id: other, .. } => {
                                        assert(is_mounted(earlier, other));
                                        let i = choose|i: int|
                                            0 <= i < earlier.len() && (#[trigger] earlier[i]).id
                                                == other;
                                        assert(components@[i].id == other);
                                    },
                                    _ => {},
                                }
                            }
                        }
                    }
                }
            },
        }
        proof {
            if statistics.revisited == old(statistics).revisited && *budget > 0 {
                if laid@[k as int] is Canvas {
                    lemma_fresh_canvas(
                        old(components)@,
                        components@,
                        pending@,
                        old(pending)@.len() as int,
                        generation,
                        laid@,
                        k as int,
                    );
                }
            }
            if *budget > 0 || *old(budget) >= laid@.len() {
                let shorter = laid@.take(k as int);
                let longer = laid@.take(k as int + 1);
                assert forall|j: int| 0 <= j < longer.len() implies match #[trigger] longer[j] {
                    Laid::Component { id, .. } => reached_or_pending(
                        components@,
                        pending@,
                        generation,
                        id,
                    ),
                    Laid::Canvas { .. } => true,
                } by {
                    if j < k {
                        assert(longer[j] == shorter[j]);
                    }
                }
            }
        }
        k = k + 1;
    }
    assert(laid@.take(laid@.len() as int) == laid@);
}

/// A component that is where the layout puts it, under a component that
/// was not rendered, is reached without a change.
pub proof fn lemma_quiet_visit<'a, ComponentT: Component>(
    first: Seq<MountedComponent<ComponentT>>,
    earlier: Seq<MountedComponent<ComponentT>>,
    after: Seq<MountedComponent<ComponentT>>,
    waiting: Seq<Pending>,
    pending: Seq<Pending>,
    from: int,
    id: ComponentId,
    frame: Rect,
    laid: Seq<Laid<'a, ComponentT::Properties>>,
    k: int,
)
    requires
        0 <= k < laid.len(),
        laid[k] matches Laid::Component { id: found, frame: region, .. } && found == id && region
            == frame,
        all_placed(first, laid),
        calm(first, earlier),
        distinct(earlier),
        0 <= from <= waiting.len(),
        pending_placed(earlier, waiting, from),
        pending == waiting.push(Pending { id, frame }),
        // What reaching the component does where it is mounted in the
        // region.
        after.len() == earlier.len(),
        same_ids(first, earlier),
        forall|i: int|
            0 <= i < earlier.len() ==> if earlier[i].id == id {
                (#[trigger] after[i]).generation == earlier[i].generation && (earlier[i].frame
                    == frame ==> rested(earlier[i], after[i]))
            } else {
                after[i] == earlier[i]
            },
    ensures
        calm(first, after),
        same_ids(first, after),
        pending_placed(after, pending, from),
        is_mounted(earlier, id),
        exists|i: int| 0 <= i < earlier.len() && earlier[i].id == id && earlier[i].frame == frame,
{
    assert(placed(first, id, frame));
    let at = choose|i: int|
        0 <= i < first.len() && (#[trigger] first[i]).id == id && first[i].frame == frame;
    assert(rested(first[at], earlier[at]));
    assert(earlier[at].id == id && earlier[at].frame == frame);
    assert forall|i: int| 0 <= i < first.len() implies (#[trigger] after[i]).id == first[i].id
        && after[i].generation == first[i].generation by {
        assert(earlier[i].id == first[i].id);
        assert(rested(first[i], earlier[i]));
        if earlier[i].id == id {
            if i < at {
                assert(earlier[i].id != earlier[at].id);
            } else if at < i {
                assert(earlier[at].id != earlier[i].id);
            }
        }
    }
    assert forall|i: int| 0 <= i < first.len() implies rested(first[i], #[trigger] after[i]) by {
        assert(rested(first[i], earlier[i]));
        if earlier[i].id == id {
            if i < at {
                assert(earlier[i].id != earlier[at].id);
            } else if at < i {
                assert(earlier[at].id != earlier[i].id);
            }
        }
    }
    assert forall|j: int| from <= j < pending.len() implies placed(
        after,
        (#[trigger] pending[j]).id,
        pending[j].frame,
    ) by {
        if j < waiting.len() {
            assert(pending[j] == waiting[j]);
            assert(placed(earlier, waiting[j].id, waiting[j].frame));
            let i = choose|i: int|
                0 <= i < earlier.len() && (#[trigger] earlier[i]).id == waiting[j].id
                    && earlier[i].frame == waiting[j].frame;
            assert(rested(first[i], after[i]));
            assert(rested(first[i], earlier[i]));
            assert(after[i].id == waiting[j].id && after[i].frame == waiting[j].frame);
        } else {
            assert(rested(first[at], after[at]));
            assert(after[at].id == id && after[at].frame == frame);
        }
    }
}

/// Drops the components that the walk with the given number did not reach,
/// and counts them.
pub fn sweep<ComponentT: Component>(
    components: &mut Vec<MountedComponent<ComponentT>>,
    generation: usize,
    statistics: &mut DrawStatistics,
)
    requires
        distinct(old(components)@),
        old(statistics).deleted == 0,
        forall|i: int|
            0 <= i < old(components)@.len() ==> (#[trigger] old(components)@[i]).generation
                <= generation,
    ensures
        final(components)@ == kept(old(components)@, generation),
        distinct(final(components)@),
        forall|j: int|
            0 <= j < final(components)@.len() ==> (#[trigger] final(components)@[j]).generation
                == generation,
        forall|j: int|
            0 <= j < final(components)@.len() ==> old(components)@.contains(
                #[trigger] final(components)@[j],
            ),
        forall|i: int|
            0 <= i < old(components)@.len() && (#[trigger] old(components)@[i]).generation
                == generation ==> final(components)@.contains(old(components)@[i]),
        final(components)@.len() + final(statistics).deleted == old(components)@.len(),
        final(statistics).new == old(statistics).new,
        final(statistics).changed == old(statistics).changed,
        final(statistics).nop == old(statistics).nop,
        final(statistics).revisited == old(statistics).revisited,
        (forall|i: int|
            0 <= i < old(components)@.len() ==> (#[trigger] old(components)@[i]).generation
                == generation) ==> final(statistics).deleted == 0 && final(components)@ == old(
            components,
        )@,
{
    let ghost before = components@;
    let mut i: usize = 0;
    assert(before.len() == components.len());
    proof {
        assert(before.take(0) =~= Seq::empty());
        assert(before.skip(0) =~= before);
        assert(kept(before.take(0), generation) + before.skip(0) =~= before);
    }
    while i < components.len()
        invariant
            i <= components@.len(),
            before.len() <= usize::MAX,
            i + statistics.deleted <= before.len(),
            components@ == kept(before.take(i + statistics.deleted), generation) + before.skip(
                i + statistics.deleted,
            ),
            i == kept(before.take(i + statistics.deleted), generation).len(),
            components@.len() + statistics.deleted == before.len(),
            forall|j: int| 0 <= j < before.len() ==> (#[trigger] before[j]).generation <= generation,
            statistics.new == old(statistics).new,
            statistics.changed == old(statistics).changed,
            statistics.nop == old(statistics).nop,
            statistics.revisited == old(statistics).revisited,
        decreases components@.len() - i,
    {
        let ghost read = (i + statistics.deleted) as int;
        proof {
            assert(components@[i as int] == before.skip(read)[0]);
            assert(before.take(read + 1).drop_last() =~= before.take(read));
            assert(before.take(read + 1).last() == before[read]);
        }
        if components[i].generation < generation {
            let _ = components.remove(i);
            statistics.deleted = statistics.deleted + 1;
            proof {
                assert(components@ =~= kept(before.take(read + 1), generation) + before.skip(
                    read + 1,
                ));
            }
        } else {
            i = i + 1;
            proof {
                assert(components@ =~= kept(before.take(read + 1), generation) + before.skip(
                    read + 1,
                ));
            }
        }
    }
    proof {
        assert(before.take(before.len() as int) =~= before);
        assert(before.skip(before.len() as int) =~= Seq::empty());
        assert(components@ =~= kept(before, generation));
        lemma_kept_members(before, generation);
        lemma_kept_distinct(before, generation);
        if forall|j: int|
            0 <= j < before.len() ==> (#[trigger] before[j]).generation == generation {
            lemma_kept_all(before, generation);
        }
    }
}

/// What a walk maintains depends only on which components are mounted and
/// which walk reached each.
pub proof fn lemma_walkable_by_ids<ComponentT: Component>(
    before: Seq<MountedComponent<ComponentT>>,
    after: Seq<MountedComponent<ComponentT>>,
    focused: Seq<ComponentId>,
    notify: Seq<ComponentId>,
    pending: Seq<Pending>,
    generation: usize,
)
    requires
        walkable(before, focused, notify, pending, generation),
        same_ids(before, after),
        forall|i: int| 0 <= i < before.len() ==> (#[trigger] after[i]).reached == before[i].reached,
    ensures
        walkable(after, focused, notify, pending, generation),
        walked(before, after, generation),
{
    assert forall|k: int| 0 <= k < pending.len() implies seen(
        after,
        generation,
        (#[trigger] pending[k]).id,
    ) by {
        assert(seen(before, generation, pending[k].id));
        let i = choose|i: int|
            0 <= i < before.len() && (#[trigger] before[i]).id == pending[k].id
                && before[i].reached == generation;
        assert(after[i].id == pending[k].id && after[i].reached == generation);
    }
    lemma_same_ids_keep_subscriptions(before, after, focused);
    lemma_same_ids_keep_subscriptions(before, after, notify);
    lemma_same_ids_keep_subscriptions(before, after, pending_ids(pending));
    assert forall|i: int| 0 <= i < after.len() implies (#[trigger] after[i]).generation
        <= generation && after[i].reached <= generation && (after[i].generation == generation
        ==> after[i].reached == generation) by {
        assert(before[i].generation <= generation);
    }
    assert(walked(before, after, generation));
    assert forall|k: int| 0 <= k < focused.len() implies reached_or_pending(
        after,
        pending,
        generation,
        #[trigger] focused[k],
    ) by {
        lemma_still_reached_or_pending(before, after, pending, pending, generation, focused[k]);
    }
    assert forall|k: int| 0 <= k < notify.len() implies reached_or_pending(
        after,
        pending,
        generation,
        #[trigger] notify[k],
    ) by {
        lemma_still_reached_or_pending(before, after, pending, pending, generation, notify[k]);
    }}

/// A component that was walked or is still to be walked was reached.
pub proof fn lemma_due_is_seen<ComponentT: Component>(
    components: Seq<MountedComponent<ComponentT>>,
    focused: Seq<ComponentId>,
    notify: Seq<ComponentId>,
    pending: Seq<Pending>,
    generation: usize,
    id: ComponentId,
)
    requires
        walkable(components, focused, notify, pending, generation),
        reached_or_pending(components, pending, generation, id),
    ensures
        seen(components, generation, id),
{
    if exists|i: int|
        0 <= i < components.len() && (#[trigger] components[i]).id == id && components[i].generation
            == generation {
        let i = choose|i: int|
            0 <= i < components.len() && (#[trigger] components[i]).id == id
                && components[i].generation == generation;
        assert(components[i].reached == generation);
    } else {
        let q = choose|q: int| 0 <= q < pending.len() && (#[trigger] pending[q]).id == id;
        assert(seen(components, generation, pending[q].id));
    }
}

/// A component that was reached or is still to be walked was reached.
pub proof fn lemma_visited_seen<'a, ComponentT: Component>(
    components: Seq<MountedComponent<ComponentT>>,
    focused: Seq<ComponentId>,
    notify: Seq<ComponentId>,
    pending: Seq<Pending>,
    generation: usize,
    laid: Seq<Laid<'a, ComponentT::Properties>>,
)
    requires
        walkable(components, focused, notify, pending, generation),
        all_visited(components, pending, generation, laid),
    ensures
        all_seen(components, generation, laid),
{
    assert forall|k: int| 0 <= k < laid.len() implies match #[trigger] laid[k] {
        Laid::Component { id, .. } => seen(components, generation, id),
        Laid::Canvas { .. } => true,
    } by {
        match laid[k] {
            Laid::Component { id, .. } => {
                assert(reached_or_pending(components, pending, generation, id));
                if exists|i: int|
                    0 <= i < components.len() && (#[trigger] components[i]).id == id
                        && components[i].generation == generation {
                    let i = choose|i: int|
                        0 <= i < components.len() && (#[trigger] components[i]).id == id
                            && components[i].generation == generation;
                    assert(components[i].reached == generation);
                } else {
                    let q = choose|q: int| 0 <= q < pending.len() && (#[trigger] pending[q]).id == id;
                    assert(seen(components, generation, pending[q].id));
                }
            },
            Laid::Canvas { .. } => {},
        }
    }
}

/// Whether every component that the walk with the given number reached was
/// walked by it or is still to be walked.
pub open spec fn reached_are_due<ComponentT: Component>(
    components: Seq<MountedComponent<ComponentT>>,
    pending: Seq<Pending>,
    generation: usize,
) -> bool {
    forall|i: int|
        0 <= i < components.len() && (#[trigger] components[i]).reached == generation
            ==> reached_or_pending(components, pending, generation, components[i].id)
}

/// Taking up a component leaves every reached component walked or still to
/// be walked.
///
/// `earlier` is the table and `waiting` what was to be walked before the
/// component at `i` was taken up; `after` and `pending` are what they have
/// become once what the component shows was gone through.
pub proof fn lemma_due_step<ComponentT: Component>(
    earlier: Seq<MountedComponent<ComponentT>>,
    after: Seq<MountedComponent<ComponentT>>,
    waiting: Seq<Pending>,
    pending: Seq<Pending>,
    generation: usize,
    i: int,
)
    requires
        reached_are_due(earlier, waiting, generation),
        waiting.len() > 0,
        walked(earlier, after, generation),
        0 <= i < after.len(),
        after[i].id == waiting.last().id,
        after[i].generation == generation,
        extends(waiting.drop_last(), pending),
        forall|j: int|
            0 <= j < after.len() && (#[trigger] after[j]).reached == generation && !seen_before(
                earlier,
                generation,
                j,
            ) ==> awaits(pending, waiting.len() - 1, after[j].id),
    ensures
        reached_are_due(after, pending, generation),
{
    assert forall|j: int|
        0 <= j < after.len() && (#[trigger] after[j]).reached == generation implies reached_or_pending(
        after,
        pending,
        generation,
        after[j].id,
    ) by {
        if seen_before(earlier, generation, j) {
            assert(after[j].id == earlier[j].id);
            lemma_popped_is_reached(earlier, after, waiting, generation, i, earlier[j].id);
            assert(walked(after, after, generation));
            lemma_still_reached_or_pending(
                after,
                after,
                waiting.drop_last(),
                pending,
                generation,
                after[j].id,
            );
        } else {
            let k = choose|k: int|
                waiting.len() - 1 <= k < pending.len() && 0 <= k && (#[trigger] pending[k]).id
                    == after[j].id;
            assert(pending[k].id == after[j].id);
        }
    }
}

/// Whether the walk with the given number reached every component among
/// the leaves of what the component at `i` shows, laid out in `frame`.
pub open spec fn leaves_seen<ComponentT: Component>(
    components: Seq<MountedComponent<ComponentT>>,
    generation: usize,
    i: int,
    frame: Rect,
) -> bool {
    all_seen(
        components,
        generation,
        laid_out(&components[i].layout->Some_0.0, frame, components[i].id.id),
    )
}

/// Whether the walk with the given number reached every component that the
/// component at `i` shows.
pub open spec fn shows_seen<ComponentT: Component>(
    components: Seq<MountedComponent<ComponentT>>,
    generation: usize,
    i: int,
) -> bool {
    exists|frame: Rect| #[trigger] leaves_seen(components, generation, i, frame)
}

/// Whether every component among the leaves of what the component at `i`
/// shows, laid out in `frame`, is mounted.
pub open spec fn leaves_mounted<ComponentT: Component>(
    components: Seq<MountedComponent<ComponentT>>,
    i: int,
    frame: Rect,
) -> bool {
    all_mounted(
        components,
        pending_ids(
            awaited(
                laid_out(&components[i].layout->Some_0.0, frame, components[i].id.id),
                laid_out(&components[i].layout->Some_0.0, frame, components[i].id.id).len() as int,
            ),
        ),
    )
}

/// Whether every component that the component at `i` shows is mounted.
pub open spec fn shows_mounted<ComponentT: Component>(
    components: Seq<MountedComponent<ComponentT>>,
    i: int,
) -> bool {
    exists|frame: Rect| #[trigger] leaves_mounted(components, i, frame)
}

/// Whether the walk with the given number has rendered the component and
/// walked what it shows: the component holds what it shows and does not ask
/// to be rendered.
pub open spec fn rendered<ComponentT: Component>(
    component: MountedComponent<ComponentT>,
    generation: usize,
) -> bool {
    component.generation == generation && component.layout is Some && !component.should_render
}

/// What holds in the course of every walk, `first` being the components
/// that the root shows: every component that was reached was rendered and
/// walked or is still to be walked; the components that the root shows
/// were reached; and
/// as many components were reached as visits were made, but for the visits
/// to components that were reached already.
#[verifier::opaque]
pub open spec fn walking<ComponentT: Component>(
    first: Seq<Pending>,
    components: Seq<MountedComponent<ComponentT>>,
    pending: Seq<Pending>,
    statistics: DrawStatistics,
    generation: usize,
) -> bool {
    &&& reached_are_due(components, pending, generation)
    &&& forall|i: int|
        0 <= i < components.len() && (#[trigger] components[i]).reached == generation ==> awaits(
            pending,
            0,
            components[i].id,
        ) || rendered(components[i], generation)
    &&& forall|k: int| 0 <= k < first.len() ==> seen(components, generation, (#[trigger] first[k]).id)
    &&& visits(statistics) < usize::MAX ==> forall|i: int|
        0 <= i < components.len() && walked_through(#[trigger] components[i], generation)
            ==> shows_seen(components, generation, i)
    &&& reached_count(components, generation) + statistics.revisited == visits(statistics)
    &&& visits(statistics) >= first.len()
    &&& first.len() == 0 ==> pending.len() == 0 && visits(statistics) == 0
}

/// A walk begins: the root was gone through.
pub proof fn lemma_walking_start<ComponentT: Component>(
    before: Seq<MountedComponent<ComponentT>>,
    components: Seq<MountedComponent<ComponentT>>,
    pending: Seq<Pending>,
    statistics: DrawStatistics,
    generation: usize,
)
    requires
        forall|i: int| 0 <= i < before.len() ==> (#[trigger] before[i]).reached != generation,
        forall|k: int|
            0 <= k < pending.len() ==> seen(components, generation, (#[trigger] pending[k]).id),
        forall|i: int|
            0 <= i < components.len() && (#[trigger] components[i]).reached == generation
                && !seen_before(before, generation, i) ==> awaits(pending, 0, components[i].id),
        reached_count(components, generation) + statistics.revisited == reached_count(
            before,
            generation,
        ) + visits(statistics),
        visits(statistics) == pending.len(),
        forall|i: int|
            0 <= i < components.len() ==> !walked_through(#[trigger] components[i], generation),
    ensures
        walking(pending, components, pending, statistics, generation),
{
    reveal(walking);
    lemma_count_none(before, generation);
    assert forall|i: int|
        0 <= i < components.len() && (#[trigger] components[i]).reached
            == generation implies reached_or_pending(
        components,
        pending,
        generation,
        components[i].id,
    ) by {
        assert(!seen_before(before, generation, i));
        let k = choose|k: int|
            0 <= k < pending.len() && 0 <= k && (#[trigger] pending[k]).id == components[i].id;
        assert(pending[k].id == components[i].id);
    }
}

/// A walk goes on: a component was taken up and what it shows gone through.
///
/// `earlier` is the table and `waiting` what was to be walked before the
/// component at `i` was taken up, `standing` the table when the component
/// was rendered, `walked_on` the table when what it shows was gone through,
/// and `after` and `pending` what the table and what is to be walked have
/// become in the end.
pub proof fn lemma_walking_step<ComponentT: Component>(
    first: Seq<Pending>,
    earlier: Seq<MountedComponent<ComponentT>>,
    standing: Seq<MountedComponent<ComponentT>>,
    walked_on: Seq<MountedComponent<ComponentT>>,
    after: Seq<MountedComponent<ComponentT>>,
    waiting: Seq<Pending>,
    pending: Seq<Pending>,
    found: DrawStatistics,
    statistics: DrawStatistics,
    generation: usize,
    i: int,
)
    requires
        walking(first, earlier, waiting, found, generation),
        waiting.len() > 0,
        walked(earlier, after, generation),
        0 <= i < after.len(),
        after[i].id == waiting.last().id,
        after[i].generation == generation,
        extends(waiting.drop_last(), pending),
        earlier.len() == standing.len(),
        forall|j: int|
            0 <= j < earlier.len() ==> (#[trigger] standing[j]).reached == earlier[j].reached,
        walked_on.len() == after.len(),
        forall|j: int|
            0 <= j < after.len() ==> (#[trigger] after[j]).reached == walked_on[j].reached,
        forall|j: int|
            0 <= j < walked_on.len() && (#[trigger] walked_on[j]).reached == generation
                && !seen_before(standing, generation, j) ==> awaits(
                pending,
                waiting.len() - 1,
                walked_on[j].id,
            ),
        forall|j: int| 0 <= j < after.len() ==> (#[trigger] after[j]).id == walked_on[j].id,
        reached_count(walked_on, generation) + statistics.revisited + visits(found)
            == reached_count(standing, generation) + found.revisited + visits(statistics),
        visits(statistics) >= visits(found),
        distinct(earlier),
        i < earlier.len(),
        earlier[i].id == waiting.last().id,
        forall|j: int| 0 <= j < earlier.len() && j != i ==> #[trigger] standing[j] == earlier[j],
        forall|j: int|
            0 <= j < standing.len() ==> #[trigger] walked_on[j] == standing[j] || awaits(
                pending,
                waiting.len() - 1,
                standing[j].id,
            ),
        forall|j: int| 0 <= j < after.len() && j != i ==> #[trigger] after[j] == walked_on[j],
        after[i] == (MountedComponent { layout: after[i].layout, ..walked_on[i] }),
        after[i].layout is Some,
        standing[i].generation == generation,
        !standing[i].should_render,
        standing[i].id == earlier[i].id,
        forall|j: int|
            0 <= j < walked_on.len() ==> if j < standing.len() {
                (#[trigger] walked_on[j]).layout == standing[j].layout && walked_on[j].generation
                    == standing[j].generation
            } else {
                walked_on[j].layout is None
            },
        visits(statistics) < usize::MAX ==> leaves_seen(after, generation, i, waiting.last().frame),
    ensures
        walking(first, after, pending, statistics, generation),
{
    reveal(walking);
    if visits(statistics) < usize::MAX {
        assert forall|j: int|
            0 <= j < after.len() && walked_through(#[trigger] after[j], generation) implies shows_seen(
            after,
            generation,
            j,
        ) by {
            if j != i {
                assert(after[j] == walked_on[j]);
                assert(j < standing.len());
                assert(standing[j] == earlier[j]);
                assert(walked_through(earlier[j], generation));
                assert(shows_seen(earlier, generation, j));
                let frame = choose|frame: Rect| #[trigger] leaves_seen(earlier, generation, j, frame);
                let laid = laid_out(&earlier[j].layout->Some_0.0, frame, earlier[j].id.id);
                assert(after[j].id == earlier[j].id);
                assert forall|k: int| 0 <= k < laid.len() implies match #[trigger] laid[k] {
                    Laid::Component { id, .. } => seen(after, generation, id),
                    Laid::Canvas { .. } => true,
                } by {
                    match laid[k] {
                        Laid::Component { id, .. } => {
                            assert(seen(earlier, generation, id));
                            let at = choose|at: int|
                                0 <= at < earlier.len() && (#[trigger] earlier[at]).id == id
                                    && earlier[at].reached == generation;
                            assert(after[at].id == id && after[at].reached == generation);
                        },
                        Laid::Canvas { .. } => {},
                    }
                }
                assert(leaves_seen(after, generation, j, frame));
            }
        }
    }
    assert forall|j: int|
        0 <= j < after.len() && (#[trigger] after[j]).reached == generation implies awaits(
        pending,
        0,
        after[j].id,
    ) || rendered(after[j], generation) by {
        if j == i {
            if walked_on[i] != standing[i] {
                let k = choose|k: int|
                    waiting.len() - 1 <= k < pending.len() && 0 <= k && (#[trigger] pending[k]).id
                        == standing[i].id;
                assert(pending[k].id == after[i].id);
            }
        } else if seen_before(earlier, generation, j) {
            assert(standing[j] == earlier[j]);
            if walked_on[j] != standing[j] {
                let k = choose|k: int|
                    waiting.len() - 1 <= k < pending.len() && 0 <= k && (#[trigger] pending[k]).id
                        == standing[j].id;
                assert(pending[k].id == after[j].id);
            } else if !rendered(earlier[j], generation) {
                let k = choose|k: int|
                    0 <= k < waiting.len() && 0 <= k && (#[trigger] waiting[k]).id == earlier[j].id;
                if k == waiting.len() - 1 {
                    if i < j {
                        assert(earlier[i].id != earlier[j].id);
                    } else {
                        assert(earlier[j].id != earlier[i].id);
                    }
                } else {
                    assert(waiting.drop_last()[k] == waiting[k]);
                    assert(pending[k].id == after[j].id);
                }
            }
        } else {
            assert(walked_on[j].reached == generation);
            if j < standing.len() {
                assert(standing[j].reached == earlier[j].reached);
            }
            assert(!seen_before(standing, generation, j));
            let k = choose|k: int|
                waiting.len() - 1 <= k < pending.len() && 0 <= k && (#[trigger] pending[k]).id
                    == walked_on[j].id;
            assert(pending[k].id == after[j].id);
        }
    }
    assert forall|j: int|
        0 <= j < after.len() && (#[trigger] after[j]).reached == generation && !seen_before(
            earlier,
            generation,
            j,
        ) implies awaits(pending, waiting.len() - 1, after[j].id) by {
        assert(walked_on[j].reached == generation);
        if j < standing.len() {
            assert(standing[j].reached == earlier[j].reached);
        }
        assert(!seen_before(standing, generation, j));
        assert(after[j].id == walked_on[j].id);
    }
    lemma_due_step(earlier, after, waiting, pending, generation, i);
    assert forall|k: int| 0 <= k < first.len() implies seen(
        after,
        generation,
        (#[trigger] first[k]).id,
    ) by {
        assert(seen(earlier, generation, first[k].id));
        let at = choose|at: int|
            0 <= at < earlier.len() && (#[trigger] earlier[at]).id == first[k].id
                && earlier[at].reached == generation;
        assert(after[at].id == first[k].id && after[at].reached == generation);
    }
    lemma_count_same(earlier, standing, generation);
    lemma_count_same(walked_on, after, generation);
}

/// A walk ends: nothing is left to be walked, and the components that were
/// not reached are dropped.
pub proof fn lemma_walking_end<ComponentT: Component>(
    root: Layout<ComponentT::Properties>,
    frame: Rect,
    before: Seq<MountedComponent<ComponentT>>,
    reached: Seq<MountedComponent<ComponentT>>,
    found: DrawStatistics,
    statistics: DrawStatistics,
    generation: usize,
)
    requires
        walking(shown_first(root, frame), reached, Seq::<Pending>::empty(), found, generation),
        walked(before, reached, generation),
        distinct(reached),
        forall|i: int|
            0 <= i < reached.len() && (#[trigger] reached[i]).generation == generation
                ==> reached[i].reached == generation,
        found.new == reached.len() - before.len(),
        found.deleted == 0,
        statistics.new == found.new,
        statistics.changed == found.changed,
        statistics.nop == found.nop,
        statistics.revisited == found.revisited,
        kept(reached, generation).len() + statistics.deleted == reached.len(),
    ensures
        walk_outcome(root, frame, before, kept(reached, generation), statistics),
{
    reveal(walking);
    let first = shown_first(root, frame);
    let after = kept(reached, generation);
    let nothing = Seq::<Pending>::empty();
    assert forall|j: int| 0 <= j < reached.len() implies ((#[trigger] reached[j]).generation
        == generation) == (reached[j].reached == generation) by {
        if reached[j].reached == generation {
            assert(reached_or_pending(reached, nothing, generation, reached[j].id));
            let at = choose|at: int|
                0 <= at < reached.len() && (#[trigger] reached[at]).id == reached[j].id
                    && reached[at].generation == generation;
            if at < j {
                assert(reached[at].id != reached[j].id);
            } else if j < at {
                assert(reached[j].id != reached[at].id);
            }
        }
    }
    lemma_kept_count(reached, generation);
    lemma_kept_members(reached, generation);
    lemma_kept_split(before, reached, generation);
    assert forall|j: int| 0 <= j < after.len() implies (#[trigger] after[j]).layout is Some
        && !after[j].should_render by {
        assert(reached.contains(after[j]));
        let at = choose|at: int| 0 <= at < reached.len() && reached[at] == after[j];
        assert(reached[at].reached == generation);
        assert(awaits(nothing, 0, reached[at].id) || rendered(reached[at], generation));
    }
    if visits(statistics) < usize::MAX {
        assert forall|j: int| 0 <= j < after.len() implies shows_mounted(after, j) by {
            assert(reached.contains(after[j]));
            let at = choose|at: int| 0 <= at < reached.len() && reached[at] == after[j];
            assert(walked_through(reached[at], generation));
            let frame = choose|frame: Rect| #[trigger] leaves_seen(reached, generation, at, frame);
            let laid = laid_out(&after[j].layout->Some_0.0, frame, after[j].id.id);
            let ids = pending_ids(awaited(laid, laid.len() as int));
            assert forall|m: int| 0 <= m < ids.len() implies is_mounted(after, #[trigger] ids[m]) by {
                lemma_awaited_leaf(laid, laid.len() as int, m);
                let k = choose|k: int|
                    0 <= k < laid.len() && (#[trigger] laid[k] matches Laid::Component { id, .. }
                        && id == awaited(laid, laid.len() as int)[m].id);
                assert(seen(reached, generation, ids[m]));
                let to = choose|to: int|
                    0 <= to < reached.len() && (#[trigger] reached[to]).id == ids[m]
                        && reached[to].reached == generation;
                assert(reached[to].generation == generation);
                assert(after.contains(reached[to]));
                let kept_at = choose|w: int| 0 <= w < after.len() && after[w] == reached[to];
                assert(after[kept_at].id == ids[m]);
            }
            assert(leaves_mounted(after, j, frame));
        }
    }
    assert forall|k: int| 0 <= k < pending_ids(first).len() implies is_mounted(
        after,
        #[trigger] pending_ids(first)[k],
    ) by {
        assert(seen(reached, generation, first[k].id));
        let at = choose|at: int|
            0 <= at < reached.len() && (#[trigger] reached[at]).id == first[k].id
                && reached[at].reached == generation;
        assert(reached[at].generation == generation);
        assert(after.contains(reached[at]));
        let to = choose|to: int| 0 <= to < after.len() && after[to] == reached[at];
        assert(after[to].id == first[k].id);
    }
}

/// Whether the subscriptions hold what the components ask for: a component
/// whose bindings report the focus is among the focused ones, unless that
/// list is full; one whose bindings ask for notice is among the notified
/// ones, unless that list is full; and every message for the passing of
/// time is for a component that is mounted.
pub open spec fn subscribed<ComponentT: Component>(
    components: Seq<MountedComponent<ComponentT>>,
    focused: Seq<ComponentId>,
    notify: Seq<ComponentId>,
    tickable: Seq<TickSubscription<ComponentT::Message>>,
) -> bool {
    &&& forall|i: int|
        0 <= i < components.len() && (#[trigger] components[i]).bindings.has_focus() ==> noted_in(
            focused,
            components[i].id,
        )
    &&& forall|i: int|
        0 <= i < components.len() && (#[trigger] components[i]).bindings.wants_notice() ==> noted_in(
            notify,
            components[i].id,
        )
    &&& forall|t: int|
        0 <= t < tickable.len() ==> is_mounted(components, (#[trigger] tickable[t]).component_id)
}

/// A walk ends: the subscriptions hold what the components that stay ask
/// for.
pub proof fn lemma_subscribed_end<ComponentT: Component>(
    first: Seq<Pending>,
    reached: Seq<MountedComponent<ComponentT>>,
    focused: Seq<ComponentId>,
    notify: Seq<ComponentId>,
    tickable: Seq<TickSubscription<ComponentT::Message>>,
    found: DrawStatistics,
    generation: usize,
)
    requires
        walking(first, reached, Seq::<Pending>::empty(), found, generation),
        listed(reached, focused, notify, tickable, generation),
        distinct(reached),
        forall|i: int|
            0 <= i < reached.len() && (#[trigger] reached[i]).generation == generation
                ==> reached[i].reached == generation,
    ensures
        subscribed(kept(reached, generation), focused, notify, tickable),
{
    reveal(walking);
    reveal(listed);
    let after = kept(reached, generation);
    let nothing = Seq::<Pending>::empty();
    lemma_kept_members(reached, generation);
    assert forall|i: int| 0 <= i < after.len() implies reached.contains(#[trigger] after[i])
        && after[i].reached == generation by {}
    assert forall|i: int|
        0 <= i < after.len() && (#[trigger] after[i]).bindings.has_focus() implies noted_in(
        focused,
        after[i].id,
    ) by {
        assert(reached.contains(after[i]));
        let at = choose|at: int| 0 <= at < reached.len() && reached[at] == after[i];
        assert(reached[at].reached == generation);
    }
    assert forall|i: int|
        0 <= i < after.len() && (#[trigger] after[i]).bindings.wants_notice() implies noted_in(
        notify,
        after[i].id,
    ) by {
        assert(reached.contains(after[i]));
        let at = choose|at: int| 0 <= at < reached.len() && reached[at] == after[i];
        assert(reached[at].reached == generation);
    }
    assert forall|t: int| 0 <= t < tickable.len() implies is_mounted(
        after,
        (#[trigger] tickable[t]).component_id,
    ) by {
        let id = tickable[t].component_id;
        assert(seen(reached, generation, id));
        let at = choose|at: int|
            0 <= at < reached.len() && (#[trigger] reached[at]).id == id && reached[at].reached
                == generation;
        assert(reached_or_pending(reached, nothing, generation, reached[at].id));
        let walked_at = choose|w: int|
            0 <= w < reached.len() && (#[trigger] reached[w]).id == id && reached[w].generation
                == generation;
        assert(after.contains(reached[walked_at]));
        let to = choose|to: int| 0 <= to < after.len() && after[to] == reached[walked_at];
        assert(after[to].id == id);
    }
}

/// A walk that reaches no component twice begins: the root was gone
/// through.
pub proof fn lemma_reconcile_begin<ComponentT: Component>(
    root: Layout<ComponentT::Properties>,
    frame: Rect,
    before: Seq<MountedComponent<ComponentT>>,
    components: Seq<MountedComponent<ComponentT>>,
    focused: Seq<ComponentId>,
    notify: Seq<ComponentId>,
    pending: Seq<Pending>,
    tickable: Seq<TickSubscription<ComponentT::Message>>,
    generation: usize,
)
    requires
        forall|q: int|
            0 <= q < before.len() ==> (#[trigger] before[q]).generation < generation && before[q].reached
                < generation,
        walkable(components, focused, notify, pending, generation),
        walked(before, components, generation),
        fresh_stretch(before, components, pending, 0, generation, laid_out(&root.0, frame, 0)),
        forall|q: int|
            0 <= q < before.len() ==> #[trigger] components[q] == before[q] || awaits(
                pending,
                0,
                before[q].id,
            ),
        leaves_visited(
            before,
            components,
            tickable,
            laid_out(&root.0, frame, 0),
            laid_out(&root.0, frame, 0).len() as int,
            false,
            generation,
        ),
    ensures
        reconciling(root, frame, before, components, components, tickable, generation),
{
    assert forall|q: int| 0 <= q < before.len() implies #[trigger] components[q] == before[q] || seen(
        components,
        generation,
        before[q].id,
    ) by {
        if components[q] != before[q] {
            let k0 = choose|k0: int|
                0 <= k0 < pending.len() && 0 <= k0 && (#[trigger] pending[k0]).id == before[q].id;
            assert(seen(components, generation, pending[k0].id));
        }
    }
    assert forall|q: int| 0 <= q < components.len() implies !walked_through(
        #[trigger] components[q],
        generation,
    ) by {
        if q < before.len() {
            assert(components[q].generation == before[q].generation);
        }
    }
    lemma_reconcile_start(root, frame, before, components, tickable, generation);
}

/// A walk that reaches no component twice goes on: a component was taken up
/// and what it shows gone through. Every component is then as reaching it
/// and taking it up make it.
///
/// `earlier` is the table and `waiting` what was to be walked before the
/// component at `i` was taken up, `standing` the table when the component
/// was rendered, with `shown` for what it shows, `walked_on` the table when
/// what it shows was gone through, and `after` the table in the end.
pub proof fn lemma_reconcile_walk<'a, ComponentT: Component>(
    root: Layout<ComponentT::Properties>,
    frame: Rect,
    before: Seq<MountedComponent<ComponentT>>,
    middle: Seq<MountedComponent<ComponentT>>,
    earlier: Seq<MountedComponent<ComponentT>>,
    standing: Seq<MountedComponent<ComponentT>>,
    walked_on: Seq<MountedComponent<ComponentT>>,
    after: Seq<MountedComponent<ComponentT>>,
    shown: Layout<ComponentT::Properties>,
    focused: Seq<ComponentId>,
    notify: Seq<ComponentId>,
    focused_after: Seq<ComponentId>,
    notify_after: Seq<ComponentId>,
    waiting: Seq<Pending>,
    pending: Seq<Pending>,
    tickable: Seq<TickSubscription<ComponentT::Message>>,
    tickable_after: Seq<TickSubscription<ComponentT::Message>>,
    laid: Seq<Laid<'a, ComponentT::Properties>>,
    generation: usize,
    steps: nat,
    i: int,
)
    requires
        reconciling(root, frame, before, middle, earlier, tickable, generation),
        distinct(before),
        forall|q: int|
            0 <= q < before.len() ==> (#[trigger] before[q]).generation < generation && before[q].reached
                < generation,
        walkable(earlier, focused, notify, waiting, generation),
        orderly(root, frame, earlier, waiting, generation),
        pictured(root, frame, earlier, waiting, generation, steps),
        waiting.len() > 0,
        0 <= i < earlier.len(),
        earlier[i].id == waiting.last().id,
        standing == earlier.update(
            i,
            MountedComponent { generation, should_render: false, layout: None, ..earlier[i] },
        ),
        if earlier[i].should_render || earlier[i].layout is None {
            earlier[i].component.shows(shown)
        } else {
            Some(shown) == earlier[i].layout
        },
        walkable(walked_on, focused_after, notify_after, pending, generation),
        walked(standing, walked_on, generation),
        fresh_stretch(standing, walked_on, pending, waiting.len() - 1, generation, laid),
        forall|q: int|
            0 <= q < standing.len() ==> #[trigger] walked_on[q] == standing[q] || awaits(
                pending,
                waiting.len() - 1,
                standing[q].id,
            ),
        leaves_visited(
            standing,
            walked_on,
            tickable_after,
            laid,
            laid.len() as int,
            asked(earlier[i]),
            generation,
        ),
        extends(tickable, tickable_after),
        forall|t: int|
            tickable.len() <= t < tickable_after.len() ==> !seen(
                standing,
                generation,
                (#[trigger] tickable_after[t]).component_id,
            ),
        after == walked_on.update(i, MountedComponent { layout: Some(shown), ..walked_on[i] }),
        laid == laid_out(&shown.0, waiting.last().frame, waiting.last().id.id),
    ensures
        reconciling(
            root,
            frame,
            before,
            merged_middle(middle, standing, walked_on, generation),
            after,
            tickable_after,
            generation,
        ),
{
    // The component that is taken up was reached, in the region in which it
    // is walked, and was not walked before.
    assert(seen(earlier, generation, waiting[waiting.len() - 1].id));
    let at = choose|at: int|
        0 <= at < earlier.len() && (#[trigger] earlier[at]).id == waiting.last().id && earlier[at].reached
            == generation;
    if at < i {
        assert(earlier[at].id != earlier[i].id);
    } else if i < at {
        assert(earlier[i].id != earlier[at].id);
    }
    assert(earlier[i].reached == generation);
    assert(!walked_id(earlier, generation, waiting[waiting.len() - 1].id));
    assert(!walked_through(earlier[i], generation));
    assert(placed(earlier, waiting[waiting.len() - 1].id, waiting[waiting.len() - 1].frame));
    let to = choose|to: int|
        0 <= to < earlier.len() && (#[trigger] earlier[to]).id == waiting.last().id && earlier[to].frame
            == waiting.last().frame;
    if to < i {
        assert(earlier[to].id != earlier[i].id);
    } else if i < to {
        assert(earlier[i].id != earlier[to].id);
    }
    assert(earlier[i].frame == waiting.last().frame);
    assert(distinct(standing)) by {
        assert forall|a: int, b: int| 0 <= a < b < standing.len() implies (#[trigger] standing[a]).id
            != (#[trigger] standing[b]).id by {
            assert(earlier[a].id != earlier[b].id);
        }
    }
    assert(seen_before(standing, generation, i));
    assert(walked_on[i] == standing[i]);
    assert(distinct(after)) by {
        assert forall|a: int, b: int| 0 <= a < b < after.len() implies (#[trigger] after[a]).id != (
        #[trigger] after[b]).id by {
            assert(walked_on[a].id != walked_on[b].id);
        }
    }
    assert forall|q: int| 0 <= q < standing.len() implies #[trigger] walked_on[q] == standing[q]
        || walked_on[q].reached == generation by {
        if walked_on[q] != standing[q] {
            let k0 = choose|k0: int|
                waiting.len() - 1 <= k0 < pending.len() && 0 <= k0 && (#[trigger] pending[k0]).id
                    == standing[q].id;
            assert(seen(walked_on, generation, pending[k0].id));
            let other = choose|other: int|
                0 <= other < walked_on.len() && (#[trigger] walked_on[other]).id == standing[q].id
                    && walked_on[other].reached == generation;
            assert(walked_on[q].id == standing[q].id);
            if other < q {
                assert(walked_on[other].id != walked_on[q].id);
            } else if q < other {
                assert(walked_on[q].id != walked_on[other].id);
            }
        }
    }
    assert forall|q: int|
        0 <= q < standing.len() && (#[trigger] standing[q]).reached == generation implies walked_on[q]
        == standing[q] by {
        assert(seen_before(standing, generation, q));
    }
    assert forall|q: int| 0 <= q < walked_on.len() implies if q < standing.len() {
        (#[trigger] walked_on[q]).layout == standing[q].layout && walked_on[q].generation
            == standing[q].generation
    } else {
        walked_on[q].layout is None && walked_on[q].reached == generation
    } by {}
    assert forall|q: int| 0 <= q < before.len() implies (#[trigger] before[q]).reached
        != generation by {}
    lemma_reconcile_step(
        root,
        frame,
        before,
        middle,
        earlier,
        standing,
        walked_on,
        after,
        tickable,
        tickable_after,
        laid,
        generation,
        i,
    );
}

/// What a walk of the tree leaves, whatever the components show.
///
/// Every component that the root shows is mounted. Every component that is
/// mounted was rendered: it holds what it shows and does not ask to be
/// rendered; and every component that it shows is mounted, unless the walk
/// made as many visits as can be counted. The walk has reached at
/// least the components that the root shows, and none where it shows none.
/// As many components are mounted as visits were made, but for the visits
/// to components that were reached already. The components that stay come
/// first, the ones that are new after them, and `deleted` counts the ones
/// that are gone.
pub open spec fn walk_outcome<ComponentT: Component>(
    root: Layout<ComponentT::Properties>,
    frame: Rect,
    before: Seq<MountedComponent<ComponentT>>,
    after: Seq<MountedComponent<ComponentT>>,
    statistics: DrawStatistics,
) -> bool {
    &&& all_mounted(after, pending_ids(shown_first(root, frame)))
    &&& forall|j: int|
        0 <= j < after.len() ==> (#[trigger] after[j]).layout is Some && !after[j].should_render
    &&& visits(statistics) < usize::MAX ==> forall|j: int|
        0 <= j < after.len() ==> #[trigger] shows_mounted(after, j)
    &&& visits(statistics) >= shown_first(root, frame).len()
    &&& shown_first(root, frame).len() == 0 ==> visits(statistics) == 0
    &&& visits(statistics) == after.len() + statistics.revisited
    &&& statistics.new <= after.len()
    &&& after.len() + statistics.deleted == before.len() + statistics.new
    &&& forall|j: int|
        0 <= j < after.len() ==> (is_mounted(before, (#[trigger] after[j]).id) <==> j < after.len()
            - statistics.new)
}

/// What a walk leaves holds of every table with the same components at the
/// same places.
pub proof fn lemma_outcome_by_ids<ComponentT: Component>(
    root: Layout<ComponentT::Properties>,
    frame: Rect,
    before: Seq<MountedComponent<ComponentT>>,
    after: Seq<MountedComponent<ComponentT>>,
    other: Seq<MountedComponent<ComponentT>>,
    statistics: DrawStatistics,
)
    requires
        walk_outcome(root, frame, before, after, statistics),
        other.len() == after.len(),
        forall|j: int|
            0 <= j < after.len() ==> (#[trigger] other[j]).id == after[j].id && other[j].layout
                == after[j].layout && other[j].should_render == after[j].should_render,
    ensures
        walk_outcome(root, frame, before, other, statistics),
{
    assert forall|j: int| 0 <= j < other.len() implies (#[trigger] other[j]).layout is Some
        && !other[j].should_render by {
        assert(after[j].layout is Some);
    }
    if visits(statistics) < usize::MAX {
        assert forall|j: int| 0 <= j < other.len() implies #[trigger] shows_mounted(other, j) by {
            assert(shows_mounted(after, j));
            let frame = choose|frame: Rect| #[trigger] leaves_mounted(after, j, frame);
            let laid = laid_out(&after[j].layout->Some_0.0, frame, after[j].id.id);
            let ids = pending_ids(awaited(laid, laid.len() as int));
            assert forall|m: int| 0 <= m < ids.len() implies is_mounted(other, #[trigger] ids[m]) by {
                assert(is_mounted(after, ids[m]));
                let at = choose|at: int| 0 <= at < after.len() && (#[trigger] after[at]).id == ids[m];
                assert(other[at].id == ids[m]);
            }
            assert(other[j].layout == after[j].layout && other[j].id == after[j].id);
            assert(leaves_mounted(other, j, frame));
        }
    }
    let ids = pending_ids(shown_first(root, frame));
    assert forall|k: int| 0 <= k < ids.len() implies is_mounted(other, #[trigger] ids[k]) by {
        assert(is_mounted(after, ids[k]));
        let at = choose|at: int| 0 <= at < after.len() && (#[trigger] after[at]).id == ids[k];
        assert(other[at].id == ids[k]);
    }
    assert forall|j: int| 0 <= j < other.len() implies (is_mounted(before, (#[trigger] other[j]).id)
        <==> j < other.len() - statistics.new) by {
        assert(other[j].id == after[j].id);
    }
}

/// Leaving one component out drops exactly one: a walk that mounts no new
/// component and keeps every component but the one that goes by `gone` has
/// dropped one component.
pub proof fn one_left_out_is_one_dropped<ComponentT: Component>(
    root: Layout<ComponentT::Properties>,
    frame: Rect,
    before: Seq<MountedComponent<ComponentT>>,
    after: Seq<MountedComponent<ComponentT>>,
    statistics: DrawStatistics,
    gone: ComponentId,
)
    requires
        walk_outcome(root, frame, before, after, statistics),
        distinct(before),
        distinct(after),
        statistics.new == 0,
        is_mounted(before, gone),
        !is_mounted(after, gone),
        forall|i: int|
            0 <= i < before.len() && (#[trigger] before[i]).id != gone ==> is_mounted(
                after,
                before[i].id,
            ),
    ensures
        statistics.deleted == 1,
{
    let old_ids = Seq::new(before.len(), |i: int| before[i].id);
    let new_ids = Seq::new(after.len(), |j: int| after[j].id);
    assert(old_ids.no_duplicates());
    assert(new_ids.no_duplicates());
    old_ids.unique_seq_to_set();
    new_ids.unique_seq_to_set();
    assert(!new_ids.to_set().contains(gone)) by {
        if new_ids.to_set().contains(gone) {
            let j = choose|j: int| 0 <= j < new_ids.len() && new_ids[j] == gone;
            assert(after[j].id == gone);
        }
    }
    assert(old_ids.to_set() =~= new_ids.to_set().insert(gone)) by {
        assert forall|id: ComponentId| old_ids.to_set().contains(id) <==> new_ids.to_set().insert(
            gone,
        ).contains(id) by {
            if old_ids.to_set().contains(id) {
                let i = choose|i: int| 0 <= i < old_ids.len() && old_ids[i] == id;
                if id != gone {
                    assert(is_mounted(after, before[i].id));
                    let j = choose|j: int| 0 <= j < after.len() && (#[trigger] after[j]).id == id;
                    assert(new_ids[j] == id);
                }
            }
            if new_ids.to_set().contains(id) {
                let j = choose|j: int| 0 <= j < new_ids.len() && new_ids[j] == id;
                assert(is_mounted(before, after[j].id));
                let i = choose|i: int| 0 <= i < before.len() && (#[trigger] before[i]).id == id;
                assert(old_ids[i] == id);
            }
            if id == gone {
                let i = choose|i: int| 0 <= i < before.len() && (#[trigger] before[i]).id == gone;
                assert(old_ids[i] == gone);
            }
        }
    }
    assert(new_ids.to_set().insert(gone).len() == new_ids.to_set().len() + 1);
}

/// The components that a sweep keeps are the old ones that were walked,
/// in their order, and after them the new ones.
pub proof fn lemma_kept_split<ComponentT: Component>(
    before: Seq<MountedComponent<ComponentT>>,
    reached: Seq<MountedComponent<ComponentT>>,
    generation: usize,
)
    requires
        walked(before, reached, generation),
        distinct(reached),
    ensures
        reached.len() - before.len() <= kept(reached, generation).len(),
        forall|j: int|
            0 <= j < kept(reached, generation).len() ==> (is_mounted(
                before,
                (#[trigger] kept(reached, generation)[j]).id,
            ) <==> j < kept(reached, generation).len() - (reached.len() - before.len())),
{
    let n = before.len() as int;
    let old_part = reached.take(n);
    let new_part = reached.skip(n);
    assert(reached =~= old_part + new_part);
    lemma_kept_add(old_part, new_part, generation);
    assert forall|j: int| 0 <= j < new_part.len() implies (#[trigger] new_part[j]).generation
        == generation by {
        assert(new_part[j] == reached[n + j]);
    }
    lemma_kept_all(new_part, generation);
    lemma_kept_members(old_part, generation);
    let all = kept(reached, generation);
    let stay = kept(old_part, generation);
    assert(all == stay + new_part);
    assert forall|j: int| 0 <= j < all.len() implies (is_mounted(before, (#[trigger] all[j]).id) <==> j
        < all.len() - (reached.len() - before.len())) by {
        if j < stay.len() {
            assert(all[j] == stay[j]);
            assert(old_part.contains(stay[j]));
            let at = choose|at: int| 0 <= at < old_part.len() && old_part[at] == stay[j];
            assert(old_part[at] == reached[at]);
            assert(reached[at].id == before[at].id);
        } else {
            let from = n + (j - stay.len());
            assert(all[j] == new_part[j - stay.len()]);
            assert(all[j] == reached[from]);
            if is_mounted(before, all[j].id) {
                let at = choose|at: int| 0 <= at < before.len() && (#[trigger] before[at]).id == all[j].id;
                assert(reached[at].id == before[at].id);
                assert(reached[at].id != reached[from].id);
            }
        }
    }
}

/// Walks the tree of components: lays out the root and then, one after the
/// other, what each component that was reached shows, in the region given
/// to the component. A component is rendered where it asked for it or was
/// never rendered; otherwise what it showed last is walked again. In the
/// end the components that the walk did not reach are dropped.
///
/// Whatever the components show, a component holds in the end what it held
/// or what its own functions gave (see [`all_told_from`]), every component was
/// asked what it wants when time passes (see [`tick_noted`]), and no
/// subscription is kept that no component asked for. Where the walk reaches
/// no component twice, what each component was handed, and in which order,
/// is stated in full: see [`reconciled`].
#[verifier::rlimit(100)]
pub fn draw_tree<ComponentT: Component>(
    root: &Layout<ComponentT::Properties>,
    sender: &SharedSender<ComponentT::Message>,
    components: &mut Vec<MountedComponent<ComponentT>>,
    focused: &mut IdList,
    notify: &mut IdList,
    tickable: &mut Vec<TickSubscription<ComponentT::Message>>,
    screen: &mut Canvas,
    frame: Rect,
    generation: usize,
) -> (statistics: DrawStatistics)
    requires
        distinct(old(components)@),
        forall|i: int|
            0 <= i < old(components)@.len() ==> (#[trigger] old(components)@[i]).generation
                < generation && old(components)@[i].reached < generation,
        frame.representable(),
    ensures
        statistics.revisited <= visits(statistics),
        forall|j: int|
            0 <= j < final(components)@.len() ==> (#[trigger] final(components)@[j]).reached
                == generation,
        distinct(final(components)@),
        all_mounted(final(components)@, final(focused)@),
        all_mounted(final(components)@, final(notify)@),
        final(focused)@.no_duplicates(),
        final(notify)@.no_duplicates(),
        forall|j: int|
            0 <= j < final(components)@.len() ==> (#[trigger] final(components)@[j]).generation
                == generation,
        final(components)@.len() + statistics.deleted == old(components)@.len() + statistics.new,
        forall|i: int|
            0 <= i < old(components)@.len() ==> (is_mounted(
                final(components)@,
                (#[trigger] old(components)@[i]).id,
            ) || statistics.deleted > 0),
        final(screen).extent() == old(screen).extent(),
        // What holds whatever the components show.
        walk_outcome(*root, frame, old(components)@, final(components)@, statistics),
        subscribed(final(components)@, final(focused)@, final(notify)@, final(tickable)@),
        // Whatever the components show, none holds but what it held and what
        // its own functions gave, and no message for the passing of time is
        // kept but what a component asked for.
        all_told_from(old(components)@, final(components)@),
        all_wanted::<ComponentT>(final(tickable)@),
        all_asked(final(components)@, final(tickable)@),
        // Where no component is reached twice, the subscriptions hold no
        // more than the components ask for.
        statistics.revisited == 0 ==> exact(final(components)@, final(focused)@, final(notify)@),
        // Where no component is reached twice, every component was handed
        // what is due to it: the properties, if the component that declares
        // it was rendered; the region, if it is a new one; and the question
        // what it wants when time passes.
        statistics.revisited == 0 && visits(statistics) < usize::MAX ==> exists|
            middle: Seq<MountedComponent<ComponentT>>,
        | #[trigger]
            reconciled(
                *root,
                frame,
                old(components)@,
                middle,
                final(components)@,
                final(tickable)@,
                generation,
            ),
        // The canvases that the root shows are painted, and stay but where
        // a component that the root shows has its region.
        forall|x: int, y: int|
            old(screen).has(x, y) && beside(shown_first(*root, frame), x, y)
                ==> #[trigger] final(screen).cell(x, y) == painted_cell(
                old(screen).extent(),
                old(screen).cell(x, y),
                laid_out(&root.0, frame, 0),
                laid_out(&root.0, frame, 0).len() as int,
                x,
                y,
            ),
        // A tree that is settled is found as it is: no component is new, none
        // is changed, and the components that stay are the ones that were
        // there, untouched but for their bindings.
        settled(*root, frame, old(components)@) ==> {
            &&& statistics.new == 0
            &&& statistics.changed == 0
            &&& forall|j: int|
                0 <= j < final(components)@.len() ==> rested_from(
                    old(components)@,
                    #[trigger] final(components)@[j],
                )
        },
        // A walk that reaches no component twice leaves the tree settled,
        // with every component shown.
        statistics.revisited == 0 && visits(statistics) < usize::MAX ==> {
            &&& settled(*root, frame, final(components)@)
            &&& rooted(*root, frame, final(components)@)
        },
        // A walk that reaches no component twice shows what the canvases
        // hold that it came by, a later one over an earlier one.
        statistics.revisited == 0 && visits(statistics) < usize::MAX ==> {
            &&& walk_done(
                *root,
                frame,
                final(components)@,
                generation,
                visits(statistics) as nat,
            )
            &&& forall|x: int, y: int|
                old(screen).has(x, y) ==> #[trigger] final(screen).cell(x, y) == shown_cell(
                    *root,
                    frame,
                    final(components)@,
                    old(screen).extent(),
                    old(screen).cell(x, y),
                    visits(statistics) as nat,
                    x,
                    y,
                )
        },
        // In a tree that is settled and in which every component is shown,
        // every component is reached: none is dropped, and the tree is as it
        // was.
        settled(*root, frame, old(components)@) && rooted(*root, frame, old(components)@)
            && visits(statistics) < usize::MAX ==> {
            &&& statistics.deleted == 0
            &&& calm(old(components)@, final(components)@)
            &&& settled(*root, frame, final(components)@)
            &&& rooted(*root, frame, final(components)@)
        },
{
    focused.clear();
    notify.clear();
    tickable.clear();
    let mut pending: Vec<Pending> = Vec::new();
    let mut statistics = DrawStatistics::empty();
    let mut budget: usize = usize::MAX;
    proof {
        assert(tickable@ =~= Seq::<TickSubscription<ComponentT::Message>>::empty());
        lemma_listed_start(components@, focused@, notify@, generation);
        assert(all_wanted::<ComponentT>(tickable@));
        lemma_asked_start(components@, tickable@, generation);
    }
    {
        let laid = root.crawl(frame, 0);
        assert(laid@.len() == laid.len());
        process(
            &laid,
            false,
            generation,
            sender,
            components,
            focused,
            notify,
            tickable,
            &mut pending,
            &mut statistics,
            screen,
            &mut budget,
        );
        assert(pending@ =~= shown_first(*root, frame));
        proof {
            lemma_beside_start(shown_first(*root, frame), *old(screen), *screen, laid@);
        }
    }
    proof {
        assert(pending@ =~= shown_first(*root, frame));
        assert forall|w: int| 0 <= w < components@.len() implies !walked_through(
            #[trigger] components@[w],
            generation,
        ) by {}
        lemma_walking_start(old(components)@, components@, pending@, statistics, generation);
        if settled(*root, frame, old(components)@) {
            assert forall|i: int|
                0 <= i < components@.len() implies (#[trigger] components@[i]).generation
                < generation by {
                assert(components@[i].generation == old(components)@[i].generation);
            }
        }
        if statistics.revisited == 0 && budget > 0 {
            lemma_reconcile_begin(
                *root,
                frame,
                old(components)@,
                components@,
                focused@,
                notify@,
                pending@,
                tickable@,
                generation,
            );
            lemma_orderly_start(*root, frame, old(components)@, components@, pending@, generation);
            // Nothing was walked yet.
            assert(pending@ =~= shown_first(*root, frame));
            assert forall|w: int| 0 <= w < components@.len() implies !walked_through(
                #[trigger] components@[w],
                generation,
            ) by {
                if w < old(components)@.len() {
                    assert(components@[w].generation == old(components)@[w].generation);
                }
            }
            assert(pictured(*root, frame, components@, pending@, generation, 0));
        }
    }
    let ghost mut middle = components@;
    while pending.len() > 0
        invariant
            pending@.len() <= visits(statistics),
            distinct(old(components)@),
            forall|q: int|
                0 <= q < old(components)@.len() ==> (#[trigger] old(components)@[q]).generation
                    < generation && old(components)@[q].reached < generation,
            statistics.revisited == 0 && budget > 0 ==> reconciling(
                *root,
                frame,
                old(components)@,
                middle,
                components@,
                tickable@,
                generation,
            ),
            walking(shown_first(*root, frame), components@, pending@, statistics, generation),
            all_within(shown_first(*root, frame), pending@),
            told_table(old(components)@, components@, generation),
            all_wanted::<ComponentT>(tickable@),
            reached_asked(components@, tickable@, generation),
            listed(components@, focused@, notify@, tickable@, generation),
            statistics.revisited == 0 ==> exact(components@, focused@, notify@),
            beside_painted(
                shown_first(*root, frame),
                *old(screen),
                *screen,
                laid_out(&root.0, frame, 0),
            ),
            statistics.revisited == 0 && budget > 0 ==> {
                &&& pictured(
                    *root,
                    frame,
                    components@,
                    pending@,
                    generation,
                    (visits(statistics) - pending@.len()) as nat,
                )
                &&& forall|x: int, y: int|
                    old(screen).has(x, y) ==> #[trigger] screen.cell(x, y) == shown_cell(
                        *root,
                        frame,
                        components@,
                        old(screen).extent(),
                        old(screen).cell(x, y),
                        (visits(statistics) - pending@.len()) as nat,
                        x,
                        y,
                    )
            },
            walkable(components@, focused@, notify@, pending@, generation),
            walked(old(components)@, components@, generation),
            visits(statistics) + budget == usize::MAX,
            statistics.revisited <= visits(statistics),
            statistics.deleted == 0,
            components@.len() - statistics.new == old(components)@.len(),
            screen.extent() == old(screen).extent(),
            settled(*root, frame, old(components)@) ==> {
                &&& calm(old(components)@, components@)
                &&& statistics.new == 0
                &&& statistics.changed == 0
                &&& pending_placed(components@, pending@, 0)
            },
            settled(*root, frame, old(components)@) && budget > 0 ==> {
                &&& all_visited(components@, pending@, generation, laid_out(&root.0, frame, 0))
                &&& walked_closed(components@, pending@, generation)
            },
            statistics.revisited == 0 && budget > 0 ==> orderly(
                *root,
                frame,
                components@,
                pending@,
                generation,
            ),
        decreases budget + pending@.len(),
    {
        let ghost earlier = components@;
        let ghost waiting = pending@;
        let ghost quiet = settled(*root, frame, old(components)@);
        let ghost shown = *screen;
        let ghost steps = (visits(statistics) - pending@.len()) as nat;
        let ghost found = statistics;
        let ghost asked_before = tickable@;
        let ghost focused_before = focused@;
        let ghost notify_before = notify@;
        let entry = pending.pop().unwrap();
        match position(components, entry.id) {
            Some(i) => {
                proof {
                    if quiet {
                        // The component is in the region in which it is to
                        // be walked, and at rest.
                        assert(placed(earlier, waiting.last().id, waiting.last().frame));
                        let at = choose|at: int|
                            0 <= at < earlier.len() && (#[trigger] earlier[at]).id == entry.id
                                && earlier[at].frame == entry.frame;
                        if at < i {
                            assert(earlier[at].id != earlier[i as int].id);
                        } else if i < at {
                            assert(earlier[i as int].id != earlier[at].id);
                        }
                        assert(at_rest(old(components)@, i as int));
                        assert(rested(old(components)@[i as int], earlier[i as int]));
                    }
                }
                if components[i].layout.is_none() {
                    let layout = components[i].view();
                    components[i].layout = Some(layout);
                }
                let changed = components[i].should_render;
                if changed {
                    let layout = components[i].view();
                    components[i].layout = Some(layout);
                }
                let ghost drawn = changed || earlier[i as int].layout is None;
                proof {
                    assert(components@[i as int].layout matches Some(layout) && if drawn {
                        was_shown::<ComponentT>(layout)
                    } else {
                        earlier[i as int].layout == Some(layout) && !earlier[i as int].should_render
                    });
                }
                components[i].set_generation(generation);
                let taken = components[i].layout.take();
                proof {
                    // The component was reached, or it would not be here.
                    assert(seen(earlier, generation, waiting[waiting.len() - 1].id));
                    let found = choose|found: int|
                        0 <= found < earlier.len() && (#[trigger] earlier[found]).id
                            == waiting[waiting.len() - 1].id && earlier[found].reached
                            == generation;
                    if found < i {
                        assert(earlier[found].id != earlier[i as int].id);
                    } else if i < found {
                        assert(earlier[i as int].id != earlier[found].id);
                    }
                    assert forall|k: int| 0 <= k < pending@.len() implies seen(
                        components@,
                        generation,
                        (#[trigger] pending@[k]).id,
                    ) by {
                        assert(pending@[k] == waiting[k]);
                        assert(seen(earlier, generation, waiting[k].id));
                        let at = choose|at: int|
                            0 <= at < earlier.len() && (#[trigger] earlier[at]).id == waiting[k].id
                                && earlier[at].reached == generation;
                        assert(components@[at].id == pending@[k].id && components@[at].reached
                            == generation);
                    }
                    assert(walked(earlier, components@, generation));
                    lemma_walked_keeps_mounted(earlier, components@, generation, focused@);
                    lemma_walked_keeps_mounted(earlier, components@, generation, notify@);
                    lemma_walked_keeps_mounted(
                        earlier,
                        components@,
                        generation,
                        pending_ids(waiting),
                    );
                    assert forall|k: int| 0 <= k < pending@.len() implies is_mounted(
                        components@,
                        #[trigger] pending_ids(pending@)[k],
                    ) by {
                        assert(pending_ids(pending@)[k] == pending_ids(waiting)[k]);
                    }
                    assert forall|k: int| 0 <= k < focused@.len() implies reached_or_pending(
                        components@,
                        pending@,
                        generation,
                        #[trigger] focused@[k],
                    ) by {
                        lemma_popped_is_reached(
                            earlier,
                            components@,
                            waiting,
                            generation,
                            i as int,
                            focused@[k],
                        );
                    }
                    assert forall|k: int| 0 <= k < notify@.len() implies reached_or_pending(
                        components@,
                        pending@,
                        generation,
                        #[trigger] notify@[k],
                    ) by {
                        lemma_popped_is_reached(
                            earlier,
                            components@,
                            waiting,
                            generation,
                            i as int,
                            notify@[k],
                        );
                    }
                    lemma_walked_on(old(components)@, earlier, components@, generation);
                }
                match taken {
                    Some(layout) => {
                        let ghost standing = components@;
                        let ghost standing_pending = pending@;
                        let ghost held = layout;
                        proof {
                            assert(standing =~= earlier.update(
                                i as int,
                                MountedComponent {
                                    generation,
                                    should_render: false,
                                    layout: None,
                                    ..earlier[i as int]
                                },
                            ));
                            assert(changed == asked(earlier[i as int]));
                            assert forall|j: int| 0 <= j < standing.len() implies (
                            #[trigger] standing[j]).id == earlier[j].id && standing[j].reached
                                == earlier[j].reached by {}
                            lemma_asked_same(earlier, standing, tickable@, generation);
                        }
                        {
                            let laid = layout.crawl(entry.frame, entry.id.position());
                            proof {
                                lemma_listed_same(
                                    earlier,
                                    standing,
                                    focused@,
                                    notify@,
                                    tickable@,
                                    generation,
                                );
                                if statistics.revisited == 0 {
                                    lemma_exact_same(earlier, standing, focused@, notify@);
                                }
                                if quiet {
                                    assert(same_places(old(components)@, standing)) by {
                                        assert forall|j: int|
                                            0 <= j < standing.len() implies (
                                        #[trigger] standing[j]).id == old(components)@[j].id
                                            && standing[j].frame == old(components)@[j].frame by {
                                            assert(rested(old(components)@[j], earlier[j]));
                                        }
                                    }
                                    lemma_places_kept(old(components)@, standing, laid@);
                                }
                            }
                            process(
                                &laid,
                                changed,
                                generation,
                                sender,
                                components,
                                focused,
                                notify,
                                tickable,
                                &mut pending,
                                &mut statistics,
                                screen,
                                &mut budget,
                            );
                            proof {
                                if budget > 0 {
                                    assert(all_visited(
                                        components@,
                                        pending@,
                                        generation,
                                        laid_out(&layout.0, entry.frame, entry.id.id),
                                    ));
                                    lemma_visited_seen(
                                        components@,
                                        focused@,
                                        notify@,
                                        pending@,
                                        generation,
                                        laid@,
                                    );
                                }
                                assert(waiting.drop_last() =~= standing_pending);
                                lemma_beside_walk(
                                    shown_first(*root, frame),
                                    waiting,
                                    pending@,
                                    laid@,
                                    *old(screen),
                                    shown,
                                    *screen,
                                    laid_out(&root.0, frame, 0),
                                );
                            }
                        }
                        let ghost walked_on = components@;
                        components[i].layout = Some(layout);
                        proof {
                            if statistics.revisited == 0 && budget > 0 {
                                lemma_mounted_at(components@, i as int);
                                assert(leaves_of(components@, waiting.last()) == laid_out(
                                    &layout.0,
                                    entry.frame,
                                    entry.id.id,
                                ));
                                assert(pending@ == queue_step(components@, waiting));
                                assert forall|w: int|
                                    0 <= w < earlier.len() && w != i && (
                                    #[trigger] earlier[w]).reached == generation implies components@[w]
                                    == earlier[w] by {
                                    assert(standing[w] == earlier[w]);
                                    assert(seen_before(standing, generation, w));
                                    assert(walked_on[w] == standing[w]);
                                }
                                assert forall|w: int|
                                    0 <= w < earlier.len() && w != i implies (
                                #[trigger] components@[w]).generation == earlier[w].generation by {
                                    assert(standing[w] == earlier[w]);
                                    assert(walked_on[w].generation == standing[w].generation);
                                }
                                assert forall|w: int|
                                    earlier.len() <= w < components@.len() implies (
                                #[trigger] components@[w]).layout is None by {
                                    assert(walked_on[w].layout is None);
                                }
                                assert(fresh_entries(
                                    earlier,
                                    pending@,
                                    waiting.len() - 1,
                                    generation,
                                )) by {
                                    assert forall|k: int|
                                        waiting.len() - 1 <= k < pending@.len() && 0
                                            <= k implies !seen(
                                        earlier,
                                        generation,
                                        (#[trigger] pending@[k]).id,
                                    ) by {
                                        if seen(earlier, generation, pending@[k].id) {
                                            let at = choose|at: int|
                                                0 <= at < earlier.len() && (
                                                #[trigger] earlier[at]).id == pending@[k].id
                                                    && earlier[at].reached == generation;
                                            assert(standing[at].id == pending@[k].id
                                                && standing[at].reached == generation);
                                            assert(seen(standing, generation, pending@[k].id));
                                        }
                                    }
                                }
                                assert(seen_before(standing, generation, i as int));
                                assert(walked_on[i as int] == standing[i as int]);
                                lemma_pictured_step(
                                    *root,
                                    frame,
                                    earlier,
                                    components@,
                                    waiting,
                                    pending@,
                                    generation,
                                    steps,
                                    i as int,
                                );
                                assert forall|x: int, y: int| old(screen).has(x, y) implies (
                                #[trigger] screen.cell(x, y)) == shown_cell(
                                    *root,
                                    frame,
                                    components@,
                                    old(screen).extent(),
                                    old(screen).cell(x, y),
                                    steps + 1,
                                    x,
                                    y,
                                ) by {
                                    lemma_shown_step(
                                        *root,
                                        frame,
                                        earlier,
                                        components@,
                                        waiting,
                                        old(screen).extent(),
                                        old(screen).cell(x, y),
                                        steps,
                                        x,
                                        y,
                                    );
                                    assert(shown.cell(x, y) == shown_cell(
                                        *root,
                                        frame,
                                        earlier,
                                        old(screen).extent(),
                                        old(screen).cell(x, y),
                                        steps,
                                        x,
                                        y,
                                    ));
                                }
                                assert(waiting.drop_last() =~= standing_pending);
                                assert(components@[i as int] == (MountedComponent {
                                    layout: components@[i as int].layout,
                                    ..walked_on[i as int]
                                }));
                                lemma_orderly_step(
                                    *root,
                                    frame,
                                    earlier,
                                    standing,
                                    walked_on,
                                    components@,
                                    waiting,
                                    pending@,
                                    generation,
                                    i as int,
                                    components@[i as int].layout->Some_0,
                                );
                            }
                            if quiet && budget > 0 {
                                let root_laid = laid_out(&root.0, frame, 0);
                                assert(walked(walked_on, components@, generation)) by {
                                    assert(same_ids(walked_on, components@));
                                }
                                assert(extends(pending@, pending@));
                                lemma_visited_after_pop(
                                    earlier,
                                    standing,
                                    waiting,
                                    generation,
                                    i as int,
                                    root_laid,
                                );
                                lemma_visited_kept(
                                    standing,
                                    walked_on,
                                    standing_pending,
                                    pending@,
                                    generation,
                                    root_laid,
                                );
                                lemma_visited_kept(
                                    walked_on,
                                    components@,
                                    pending@,
                                    pending@,
                                    generation,
                                    root_laid,
                                );
                                assert forall|q: int|
                                    0 <= q < components@.len() && (
                                    #[trigger] components@[q]).generation == generation
                                        && components@[q].layout is Some implies all_visited(
                                    components@,
                                    pending@,
                                    generation,
                                    laid_out(
                                        &components@[q].layout->Some_0.0,
                                        components@[q].frame,
                                        components@[q].id.id,
                                    ),
                                ) by {
                                    let shown_by = laid_out(
                                        &components@[q].layout->Some_0.0,
                                        components@[q].frame,
                                        components@[q].id.id,
                                    );
                                    assert(rested(standing[q], walked_on[q]));
                                    if q == i {
                                        lemma_visited_kept(
                                            walked_on,
                                            components@,
                                            pending@,
                                            pending@,
                                            generation,
                                            shown_by,
                                        );
                                    } else {
                                        assert(walked_on[q].generation == standing[q].generation);
                                        assert(earlier[q] == standing[q]);
                                        assert(components@[q] == walked_on[q]);
                                        lemma_visited_after_pop(
                                            earlier,
                                            standing,
                                            waiting,
                                            generation,
                                            i as int,
                                            shown_by,
                                        );
                                        lemma_visited_kept(
                                            standing,
                                            walked_on,
                                            standing_pending,
                                            pending@,
                                            generation,
                                            shown_by,
                                        );
                                        lemma_visited_kept(
                                            walked_on,
                                            components@,
                                            pending@,
                                            pending@,
                                            generation,
                                            shown_by,
                                        );
                                    }
                                }
                            }
                            if quiet {
                                assert forall|j: int|
                                    0 <= j < old(components)@.len() implies rested(
                                    old(components)@[j],
                                    #[trigger] components@[j],
                                ) by {
                                    assert(rested(old(components)@[j], earlier[j]));
                                    assert(rested(standing[j], walked_on[j]));
                                }
                                assert forall|k: int| 0 <= k < pending@.len() implies placed(
                                    components@,
                                    (#[trigger] pending@[k]).id,
                                    pending@[k].frame,
                                ) by {
                                    if k < standing_pending.len() {
                                        assert(pending@[k] == waiting[k]);
                                        assert(placed(earlier, waiting[k].id, waiting[k].frame));
                                        let at = choose|at: int|
                                            0 <= at < earlier.len() && (
                                            #[trigger] earlier[at]).id == waiting[k].id
                                                && earlier[at].frame == waiting[k].frame;
                                        assert(rested(old(components)@[at], earlier[at]));
                                        assert(rested(old(components)@[at], components@[at]));
                                    } else {
                                        assert(placed(walked_on, pending@[k].id, pending@[k].frame));
                                        let at = choose|at: int|
                                            0 <= at < walked_on.len() && (
                                            #[trigger] walked_on[at]).id == pending@[k].id
                                                && walked_on[at].frame == pending@[k].frame;
                                        assert(components@[at].id == walked_on[at].id);
                                        assert(components@[at].frame == walked_on[at].frame);
                                    }
                                }
                            }
                            lemma_walked_on(old(components)@, standing, walked_on, generation);
                            assert(same_ids(walked_on, components@));
                            assert(waiting.drop_last() =~= standing_pending);
                            assert(walked(walked_on, components@, generation));
                            lemma_walked_on(earlier, standing, walked_on, generation);
                            lemma_walked_on(earlier, walked_on, components@, generation);
                            assert forall|j: int| 0 <= j < walked_on.len() implies (
                            #[trigger] components@[j]).reached == walked_on[j].reached by {}
                            assert forall|j: int|
                                0 <= j < earlier.len() && j != i implies #[trigger] standing[j]
                                == earlier[j] by {}
                            assert forall|j: int|
                                0 <= j < components@.len() && j != i implies (
                            #[trigger] components@[j]) == walked_on[j] by {}
                            assert(components@[i as int] == (MountedComponent {
                                layout: components@[i as int].layout,
                                ..walked_on[i as int]
                            }));
                            lemma_listed_same(
                                walked_on,
                                components@,
                                focused@,
                                notify@,
                                tickable@,
                                generation,
                            );
                            if statistics.revisited == 0 {
                                lemma_exact_same(walked_on, components@, focused@, notify@);
                            }
                            if budget > 0 {
                                lemma_mounted_at(components@, i as int);
                                let laid = laid_out(&layout.0, entry.frame, entry.id.id);
                                assert forall|k: int|
                                    0 <= k < laid.len() implies match #[trigger] laid[k] {
                                    Laid::Component { id, .. } => seen(components@, generation, id),
                                    Laid::Canvas { .. } => true,
                                } by {
                                    match laid[k] {
                                        Laid::Component { id, .. } => {
                                            assert(seen(walked_on, generation, id));
                                            let at = choose|at: int|
                                                0 <= at < walked_on.len() && (
                                                #[trigger] walked_on[at]).id == id
                                                    && walked_on[at].reached == generation;
                                            assert(components@[at].id == id
                                                && components@[at].reached == generation);
                                        },
                                        Laid::Canvas { .. } => {},
                                    }
                                }
                                assert(leaves_seen(
                                    components@,
                                    generation,
                                    i as int,
                                    waiting.last().frame,
                                ));
                            }
                            if statistics.revisited == 0 && budget > 0 {
                                assert(components@ =~= walked_on.update(
                                    i as int,
                                    MountedComponent {
                                        layout: Some(held),
                                        ..walked_on[i as int]
                                    },
                                ));
                                lemma_reconcile_walk(
                                    *root,
                                    frame,
                                    old(components)@,
                                    middle,
                                    earlier,
                                    standing,
                                    walked_on,
                                    components@,
                                    held,
                                    focused_before,
                                    notify_before,
                                    focused@,
                                    notify@,
                                    waiting,
                                    pending@,
                                    asked_before,
                                    tickable@,
                                    laid_out(&held.0, entry.frame, entry.id.id),
                                    generation,
                                    steps,
                                    i as int,
                                );
                                middle = merged_middle(middle, standing, walked_on, generation);
                            }
                            assert(components@ =~= walked_on.update(
                                i as int,
                                MountedComponent { layout: Some(held), ..walked_on[i as int] },
                            ));
                            assert forall|j: int| 0 <= j < components@.len() implies (
                            #[trigger] components@[j]).id == walked_on[j].id
                                && components@[j].reached == walked_on[j].reached by {}
                            lemma_asked_same(walked_on, components@, tickable@, generation);
                            lemma_told_walk(
                                old(components)@,
                                earlier,
                                standing,
                                walked_on,
                                components@,
                                held,
                                drawn,
                                generation,
                                i as int,
                            );
                            lemma_walking_step(
                                shown_first(*root, frame),
                                earlier,
                                standing,
                                walked_on,
                                components@,
                                waiting,
                                pending@,
                                found,
                                statistics,
                                generation,
                                i as int,
                            );
                            assert forall|j: int| 0 <= j < walked_on.len() implies (
                            #[trigger] components@[j]).reached == walked_on[j].reached by {}
                            lemma_walkable_by_ids(
                                walked_on,
                                components@,
                                focused@,
                                notify@,
                                pending@,
                                generation,
                            );
                            lemma_walked_on(old(components)@, walked_on, components@, generation);
                        }
                    },
                    None => {},
                }
            },
            None => {
                proof {
                    assert(pending_ids(waiting)[waiting.len() - 1] == entry.id);
                    assert(is_mounted(components@, entry.id));
                }
            },
        }
    }
    let ghost reached = components@;
    proof {
        assert(pending@ =~= Seq::<Pending>::empty());
        if settled(*root, frame, old(components)@) && rooted(*root, frame, old(components)@)
            && budget > 0 {
            assert(pending@ =~= Seq::<Pending>::empty());
            lemma_rooted_kept(*root, frame, old(components)@, reached);
            lemma_settled_kept(*root, frame, old(components)@, reached);
            assert forall|i: int| 0 <= i < reached.len() implies (#[trigger] reached[i]).generation
                == generation by {
                let depth = choose|depth: nat|
                    shown_within(*root, frame, reached, reached[i].id, depth);
                lemma_shown_is_reached(*root, frame, reached, generation, reached[i].id, depth);
                let j = choose|j: int|
                    0 <= j < reached.len() && (#[trigger] reached[j]).id == reached[i].id
                        && reached[j].generation == generation;
                if j < i {
                    assert(reached[j].id != reached[i].id);
                } else if i < j {
                    assert(reached[i].id != reached[j].id);
                }
            }
        }
    }
    let ghost found = statistics;
    sweep(components, generation, &mut statistics);
    proof {
        reveal(beside_painted);
        if statistics.revisited == 0 && budget > 0 {
            lemma_kept_members(reached, generation);
            lemma_reconcile_end(
                *root,
                frame,
                old(components)@,
                middle,
                reached,
                components@,
                tickable@,
                generation,
            );
        }
        lemma_subscribed_end(
            shown_first(*root, frame),
            reached,
            focused@,
            notify@,
            tickable@,
            found,
            generation,
        );
        if statistics.revisited == 0 {
            lemma_kept_members(reached, generation);
            assert forall|k: int| 0 <= k < focused@.len() implies reports_focus(
                components@,
                #[trigger] focused@[k],
            ) by {
                lemma_reached_is_kept(reached, components@, generation, focused@[k]);
                let at = choose|at: int|
                    0 <= at < reached.len() && (#[trigger] reached[at]).id == focused@[k]
                        && reached[at].bindings.has_focus();
                let to = choose|to: int|
                    0 <= to < components@.len() && (#[trigger] components@[to]).id == focused@[k];
                assert(reached.contains(components@[to]));
                let from = choose|from: int| 0 <= from < reached.len() && reached[from] == components@[to];
                if from < at {
                    assert(reached[from].id != reached[at].id);
                } else if at < from {
                    assert(reached[at].id != reached[from].id);
                }
            }
            assert forall|k: int| 0 <= k < notify@.len() implies asks_notice(
                components@,
                #[trigger] notify@[k],
            ) by {
                lemma_reached_is_kept(reached, components@, generation, notify@[k]);
                let at = choose|at: int|
                    0 <= at < reached.len() && (#[trigger] reached[at]).id == notify@[k]
                        && reached[at].bindings.wants_notice();
                let to = choose|to: int|
                    0 <= to < components@.len() && (#[trigger] components@[to]).id == notify@[k];
                assert(reached.contains(components@[to]));
                let from = choose|from: int| 0 <= from < reached.len() && reached[from] == components@[to];
                if from < at {
                    assert(reached[from].id != reached[at].id);
                } else if at < from {
                    assert(reached[at].id != reached[from].id);
                }
            }
        }
        lemma_walking_end(
            *root,
            frame,
            old(components)@,
            reached,
            found,
            statistics,
            generation,
        );
        if statistics.revisited == 0 && budget > 0 {
            lemma_orderly_end(*root, frame, reached, components@, generation);
            // The components that were walked are kept as they are.
            let first = shown_first(*root, frame);
            let steps = visits(statistics) as nat;
            assert forall|w: int|
                0 <= w < reached.len() && walked_through(
                    #[trigger] reached[w],
                    generation,
                ) implies holds_layout(components@, reached[w].id, reached[w].layout) by {
                assert(components@.contains(reached[w]));
                let v = choose|v: int| 0 <= v < components@.len() && components@[v] == reached[w];
                assert(components@[v].id == reached[w].id);
            }
            lemma_walk_kept(reached, components@, first, generation, steps);
            assert forall|j: nat| j <= steps implies #[trigger] queue_after(components@, first, j)
                == queue_after(reached, first, j) by {
                assert(agree_along(reached, components@, first, j));
                lemma_same_walk(reached, components@, first, j);
            }
            assert forall|j: nat| j < steps implies walked_at(
                components@,
                generation,
                #[trigger] queue_after(components@, first, j),
            ) by {
                let queue = queue_after(reached, first, j);
                assert(queue_after(components@, first, j) == queue);
                assert(walked_at(reached, generation, queue));
                let w = choose|w: int|
                    0 <= w < reached.len() && (#[trigger] reached[w]).id == queue.last().id
                        && walked_through(reached[w], generation);
                assert(components@.contains(reached[w]));
                let v = choose|v: int| 0 <= v < components@.len() && components@[v] == reached[w];
                assert(walked_through(components@[v], generation));
            }
            assert forall|x: int, y: int| old(screen).has(x, y) implies (#[trigger] screen.cell(
                x,
                y,
            )) == shown_cell(
                *root,
                frame,
                components@,
                old(screen).extent(),
                old(screen).cell(x, y),
                steps,
                x,
                y,
            ) by {
                lemma_same_cell(
                    reached,
                    components@,
                    old(screen).extent(),
                    first,
                    painted_cell(
                        old(screen).extent(),
                        old(screen).cell(x, y),
                        laid_out(&root.0, frame, 0),
                        laid_out(&root.0, frame, 0).len() as int,
                        x,
                        y,
                    ),
                    steps,
                    x,
                    y,
                );
            }
        }
        assert forall|j: int| 0 <= j < components@.len() implies (
        #[trigger] components@[j]).reached == generation by {
            assert(reached.contains(components@[j]));
            let at = choose|at: int| 0 <= at < reached.len() && reached[at] == components@[j];
            assert(reached[at].generation == generation);
        }
        if settled(*root, frame, old(components)@) {
            assert forall|j: int| 0 <= j < components@.len() implies rested_from(
                old(components)@,
                #[trigger] components@[j],
            ) by {
                assert(reached.contains(components@[j]));
                let i = choose|i: int| 0 <= i < reached.len() && reached[i] == components@[j];
                assert(rested(old(components)@[i], reached[i]));
            }
        }
        assert forall|k: int| 0 <= k < focused@.len() implies is_mounted(
            components@,
            #[trigger] focused@[k],
        ) by {
            lemma_reached_is_kept(reached, components@, generation, focused@[k]);
        }
        assert forall|k: int| 0 <= k < notify@.len() implies is_mounted(
            components@,
            #[trigger] notify@[k],
        ) by {
            lemma_reached_is_kept(reached, components@, generation, notify@[k]);
        }
        assert forall|i: int| 0 <= i < old(components)@.len() implies (is_mounted(
            components@,
            (#[trigger] old(components)@[i]).id,
        ) || statistics.deleted > 0) by {
            if statistics.deleted == 0 {
                assert(reached[i].id == old(components)@[i].id);
                assert(reached[i].generation == generation) by {
                    lemma_nothing_swept(reached, components@, generation, i);
                }
                lemma_reached_is_kept(reached, components@, generation, reached[i].id);
            }
        }
        lemma_kept_members(reached, generation);
        assert forall|j: int| 0 <= j < components@.len() implies reached.contains(
            #[trigger] components@[j],
        ) && components@[j].reached == generation && !components@[j].should_render by {
            assert(components@[j] == kept(reached, generation)[j]);
        }
        lemma_told_end(old(components)@, reached, components@, generation);
        lemma_asked_end(reached, components@, tickable@, generation);
    }
    statistics
}

/// A component that was reached, or was still to be walked before the one
/// at `i` was taken up, is reached or still to be walked after: the one
/// that was taken up counts as reached.
pub proof fn lemma_popped_is_reached<ComponentT: Component>(
    before: Seq<MountedComponent<ComponentT>>,
    after: Seq<MountedComponent<ComponentT>>,
    waiting: Seq<Pending>,
    generation: usize,
    i: int,
    id: ComponentId,
)
    requires
        waiting.len() > 0,
        walked(before, after, generation),
        0 <= i < after.len(),
        after[i].id == waiting.last().id,
        after[i].generation == generation,
        reached_or_pending(before, waiting, generation, id),
    ensures
        reached_or_pending(after, waiting.drop_last(), generation, id),
{
    if exists|j: int|
        0 <= j < before.len() && (#[trigger] before[j]).id == id && before[j].generation
            == generation {
        let j = choose|j: int|
            0 <= j < before.len() && (#[trigger] before[j]).id == id && before[j].generation
                == generation;
        assert(after[j].id == id && after[j].generation == generation);
    } else {
        let k = choose|k: int| 0 <= k < waiting.len() && (#[trigger] waiting[k]).id == id;
        if k == waiting.len() - 1 {
            assert(after[i].id == id && after[i].generation == generation);
        } else {
            assert(waiting.drop_last()[k].id == id);
        }
    }
}

/// A component that the walk reached and walked is mounted after the sweep.
pub proof fn lemma_reached_is_kept<ComponentT: Component>(
    reached: Seq<MountedComponent<ComponentT>>,
    kept: Seq<MountedComponent<ComponentT>>,
    generation: usize,
    id: ComponentId,
)
    requires
        reached_or_pending(reached, Seq::<Pending>::empty(), generation, id),
        forall|i: int|
            0 <= i < reached.len() && (#[trigger] reached[i]).generation == generation
                ==> kept.contains(reached[i]),
    ensures
        is_mounted(kept, id),
{
    let i = choose|i: int|
        0 <= i < reached.len() && (#[trigger] reached[i]).id == id && reached[i].generation
            == generation;
    assert(kept.contains(reached[i]));
    let j = choose|j: int| 0 <= j < kept.len() && kept[j] == reached[i];
    assert(kept[j].id == id);
}

/// Where the sweep dropped nothing, every component was reached.
pub proof fn lemma_nothing_swept<ComponentT: Component>(
    reached: Seq<MountedComponent<ComponentT>>,
    kept: Seq<MountedComponent<ComponentT>>,
    generation: usize,
    i: int,
)
    requires
        0 <= i < reached.len(),
        distinct(reached),
        kept.len() == reached.len(),
        distinct(kept),
        forall|j: int| 0 <= j < kept.len() ==> (#[trigger] kept[j]).generation == generation,
        forall|j: int| 0 <= j < kept.len() ==> reached.contains(#[trigger] kept[j]),
    ensures
        reached[i].generation == generation,
{
    // The kept components are as many as the reached ones and all among
    // them, each once: they are all of them.
    let kept_ids = Seq::new(kept.len(), |j: int| kept[j].id);
    let reached_ids = Seq::new(reached.len(), |j: int| reached[j].id);
    assert(kept_ids.no_duplicates());
    assert(reached_ids.no_duplicates());
    assert forall|id: ComponentId| kept_ids.to_set().contains(id) implies reached_ids.to_set().contains(
        id,
    ) by {
        let j = choose|j: int| 0 <= j < kept_ids.len() && kept_ids[j] == id;
        assert(reached.contains(kept[j]));
        let at = choose|at: int| 0 <= at < reached.len() && reached[at] == kept[j];
        assert(reached_ids[at] == id);
    }
    kept_ids.unique_seq_to_set();
    reached_ids.unique_seq_to_set();
    vstd::set_lib::lemma_subset_equality(kept_ids.to_set(), reached_ids.to_set());
    assert(reached_ids.to_set().contains(reached_ids[i]));
    assert(kept_ids.to_set().contains(reached[i].id));
    let j = choose|j: int| 0 <= j < kept_ids.len() && kept_ids[j] == reached[i].id;
    assert(reached.contains(kept[j]));
    let at = choose|at: int| 0 <= at < reached.len() && reached[at] == kept[j];
    if at < i {
        assert(reached[at].id != reached[i].id);
    } else if i < at {
        assert(reached[i].id != reached[at].id);
    }
}

} // verus!
