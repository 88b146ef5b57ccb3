//! The subscriptions that a walk of the tree gathers.

use vstd::prelude::*;

use crate::app::mounted::{
    distinct, is_mounted, lemma_mounted_at, mounted_at, MountedComponent, TickSubscription,
};
use crate::app::orderly::seen;
use crate::app::walk::walked;
use crate::component::Component;
use crate::component::template::ComponentId;
use crate::small::{IdList, LIST_LIMIT};

verus! {

/// Whether the list holds the identity, or is full.
pub open spec fn noted_in(ids: Seq<ComponentId>, id: ComponentId) -> bool {
    ids.contains(id) || ids.len() >= LIST_LIMIT
}

/// Whether the subscriptions hold what the components that the walk with
/// the given number reached ask for: a component whose bindings report the
/// focus is among the focused ones, one whose bindings ask for notice is
/// among the notified ones, and every message for the passing of time is
/// for a component that was reached.
#[verifier::opaque]
pub open spec fn listed<ComponentT: Component>(
    components: Seq<MountedComponent<ComponentT>>,
    focused: Seq<ComponentId>,
    notify: Seq<ComponentId>,
    tickable: Seq<TickSubscription<ComponentT::Message>>,
    generation: usize,
) -> bool {
    &&& forall|i: int|
        0 <= i < components.len() && (#[trigger] components[i]).reached == generation
            && components[i].bindings.has_focus() ==> noted_in(focused, components[i].id)
    &&& forall|i: int|
        0 <= i < components.len() && (#[trigger] components[i]).reached == generation
            && components[i].bindings.wants_notice() ==> noted_in(notify, components[i].id)
    &&& forall|t: int|
        0 <= t < tickable.len() ==> seen(components, generation, (#[trigger] tickable[t]).component_id)
}

/// Every message for the passing of time is for a component that was
/// reached.
pub proof fn lemma_listed_ticks<ComponentT: Component>(
    components: Seq<MountedComponent<ComponentT>>,
    focused: Seq<ComponentId>,
    notify: Seq<ComponentId>,
    tickable: Seq<TickSubscription<ComponentT::Message>>,
    generation: usize,
)
    requires
        listed(components, focused, notify, tickable, generation),
    ensures
        forall|t: int|
            0 <= t < tickable.len() ==> seen(
                components,
                generation,
                (#[trigger] tickable[t]).component_id,
            ),
{
    reveal(listed);
}

/// Before a walk reaches a component nothing is asked for.
pub proof fn lemma_listed_start<ComponentT: Component>(
    components: Seq<MountedComponent<ComponentT>>,
    focused: Seq<ComponentId>,
    notify: Seq<ComponentId>,
    generation: usize,
)
    requires
        forall|i: int| 0 <= i < components.len() ==> (#[trigger] components[i]).reached != generation,
    ensures
        listed(
            components,
            focused,
            notify,
            Seq::<TickSubscription<ComponentT::Message>>::empty(),
            generation,
        ),
{
    reveal(listed);
}

/// The subscriptions hold of every table with the same components, reached
/// by the same walks and with the same bindings.
pub proof fn lemma_listed_same<ComponentT: Component>(
    before: Seq<MountedComponent<ComponentT>>,
    after: Seq<MountedComponent<ComponentT>>,
    focused: Seq<ComponentId>,
    notify: Seq<ComponentId>,
    tickable: Seq<TickSubscription<ComponentT::Message>>,
    generation: usize,
)
    requires
        listed(before, focused, notify, tickable, generation),
        before.len() == after.len(),
        forall|i: int|
            0 <= i < before.len() ==> (#[trigger] after[i]).id == before[i].id && after[i].reached
                == before[i].reached && after[i].bindings == before[i].bindings,
    ensures
        listed(after, focused, notify, tickable, generation),
{
    reveal(listed);
    assert forall|i: int|
        0 <= i < after.len() && (#[trigger] after[i]).reached == generation
            && after[i].bindings.has_focus() implies noted_in(focused, after[i].id) by {
        assert(before[i].reached == generation);
    }
    assert forall|i: int|
        0 <= i < after.len() && (#[trigger] after[i]).reached == generation
            && after[i].bindings.wants_notice() implies noted_in(notify, after[i].id) by {
        assert(before[i].reached == generation);
    }
    assert forall|t: int| 0 <= t < tickable.len() implies seen(
        after,
        generation,
        (#[trigger] tickable[t]).component_id,
    ) by {
        let id = tickable[t].component_id;
        let at = choose|at: int|
            0 <= at < before.len() && (#[trigger] before[at]).id == id && before[at].reached
                == generation;
        assert(after[at].id == id && after[at].reached == generation);
    }
}

/// Reaching a component adds what it asks for to the subscriptions.
pub proof fn lemma_listed_visit<ComponentT: Component>(
    earlier: Seq<MountedComponent<ComponentT>>,
    after: Seq<MountedComponent<ComponentT>>,
    focused: Seq<ComponentId>,
    focused_after: Seq<ComponentId>,
    notify: Seq<ComponentId>,
    notify_after: Seq<ComponentId>,
    tickable: Seq<TickSubscription<ComponentT::Message>>,
    tickable_after: Seq<TickSubscription<ComponentT::Message>>,
    generation: usize,
    id: ComponentId,
)
    requires
        listed(earlier, focused, notify, tickable, generation),
        walked(earlier, after, generation),
        distinct(after),
        is_mounted(after, id),
        seen(after, generation, id),
        forall|i: int|
            0 <= i < earlier.len() && (#[trigger] earlier[i]).id != id ==> after[i] == earlier[i],
        forall|i: int| earlier.len() <= i < after.len() ==> (#[trigger] after[i]).id == id,
        focused_after == if after[mounted_at(after, id)].bindings.has_focus() {
            IdList::noted(focused, id)
        } else {
            focused
        },
        notify_after == if after[mounted_at(after, id)].bindings.wants_notice() {
            IdList::noted(notify, id)
        } else {
            notify
        },
        tickable_after == tickable || (tickable_after.len() == tickable.len() + 1
            && tickable_after.drop_last() == tickable && tickable_after.last().component_id == id),
    ensures
        listed(after, focused_after, notify_after, tickable_after, generation),
{
    reveal(listed);
    assert forall|other: ComponentId| noted_in(focused, other) implies noted_in(
        focused_after,
        other,
    ) by {
        if focused.contains(other) && focused_after != focused {
            let k = choose|k: int| 0 <= k < focused.len() && focused[k] == other;
            assert(focused_after[k] == other);
        }
    }
    assert forall|other: ComponentId| noted_in(notify, other) implies noted_in(
        notify_after,
        other,
    ) by {
        if notify.contains(other) && notify_after != notify {
            let k = choose|k: int| 0 <= k < notify.len() && notify[k] == other;
            assert(notify_after[k] == other);
        }
    }
    assert forall|i: int|
        0 <= i < after.len() && (#[trigger] after[i]).reached == generation
            && after[i].bindings.has_focus() implies noted_in(focused_after, after[i].id) by {
        if after[i].id == id {
            lemma_mounted_at(after, i);
            let made = IdList::noted(focused, id);
            if !focused.contains(id) && focused.len() < LIST_LIMIT {
                assert(made[made.len() - 1] == id);
            }
        } else {
            assert(i < earlier.len());
            assert(earlier[i].id == after[i].id);
            assert(after[i] == earlier[i]);
            assert(noted_in(focused, earlier[i].id));
        }
    }
    assert forall|i: int|
        0 <= i < after.len() && (#[trigger] after[i]).reached == generation
            && after[i].bindings.wants_notice() implies noted_in(notify_after, after[i].id) by {
        if after[i].id == id {
            lemma_mounted_at(after, i);
            let made = IdList::noted(notify, id);
            if !notify.contains(id) && notify.len() < LIST_LIMIT {
                assert(made[made.len() - 1] == id);
            }
        } else {
            assert(i < earlier.len());
            assert(earlier[i].id == after[i].id);
            assert(after[i] == earlier[i]);
            assert(noted_in(notify, earlier[i].id));
        }
    }
    assert forall|t: int| 0 <= t < tickable_after.len() implies seen(
        after,
        generation,
        (#[trigger] tickable_after[t]).component_id,
    ) by {
        if t < tickable.len() {
            assert(tickable_after[t] == tickable[t]) by {
                if tickable_after != tickable {
                    assert(tickable_after.drop_last()[t] == tickable_after[t]);
                }
            }
            let other = tickable[t].component_id;
            let at = choose|at: int|
                0 <= at < earlier.len() && (#[trigger] earlier[at]).id == other
                    && earlier[at].reached == generation;
            assert(after[at].id == other && after[at].reached == generation);
        }
    }
}

/// Whether one of `components` goes by `id` and reports the focus.
pub open spec fn reports_focus<ComponentT: Component>(
    components: Seq<MountedComponent<ComponentT>>,
    id: ComponentId,
) -> bool {
    exists|i: int|
        0 <= i < components.len() && (#[trigger] components[i]).id == id
            && components[i].bindings.has_focus()
}

/// Whether one of `components` goes by `id` and asks for notice.
pub open spec fn asks_notice<ComponentT: Component>(
    components: Seq<MountedComponent<ComponentT>>,
    id: ComponentId,
) -> bool {
    exists|i: int|
        0 <= i < components.len() && (#[trigger] components[i]).id == id
            && components[i].bindings.wants_notice()
}

/// Whether the subscriptions hold no more than the components ask for:
/// every focused component reports the focus, and every notified one asks
/// for notice.
pub open spec fn exact<ComponentT: Component>(
    components: Seq<MountedComponent<ComponentT>>,
    focused: Seq<ComponentId>,
    notify: Seq<ComponentId>,
) -> bool {
    &&& forall|k: int| 0 <= k < focused.len() ==> reports_focus(components, #[trigger] focused[k])
    &&& forall|k: int| 0 <= k < notify.len() ==> asks_notice(components, #[trigger] notify[k])
}

/// The subscriptions hold no more than is asked for in every table with
/// the same components and the same bindings.
pub proof fn lemma_exact_same<ComponentT: Component>(
    before: Seq<MountedComponent<ComponentT>>,
    after: Seq<MountedComponent<ComponentT>>,
    focused: Seq<ComponentId>,
    notify: Seq<ComponentId>,
)
    requires
        exact(before, focused, notify),
        before.len() <= after.len(),
        forall|i: int|
            0 <= i < before.len() ==> (#[trigger] after[i]).id == before[i].id && after[i].bindings
                == before[i].bindings,
    ensures
        exact(after, focused, notify),
{
    assert forall|k: int| 0 <= k < focused.len() implies reports_focus(
        after,
        #[trigger] focused[k],
    ) by {
        let i = choose|i: int|
            0 <= i < before.len() && (#[trigger] before[i]).id == focused[k]
                && before[i].bindings.has_focus();
        assert(after[i].id == focused[k] && after[i].bindings.has_focus());
    }
    assert forall|k: int| 0 <= k < notify.len() implies asks_notice(after, #[trigger] notify[k]) by {
        let i = choose|i: int|
            0 <= i < before.len() && (#[trigger] before[i]).id == notify[k]
                && before[i].bindings.wants_notice();
        assert(after[i].id == notify[k] && after[i].bindings.wants_notice());
    }
}

/// Reaching a component for the first time adds to the subscriptions no
/// more than it asks for.
pub proof fn lemma_exact_visit<ComponentT: Component>(
    earlier: Seq<MountedComponent<ComponentT>>,
    after: Seq<MountedComponent<ComponentT>>,
    focused: Seq<ComponentId>,
    focused_after: Seq<ComponentId>,
    notify: Seq<ComponentId>,
    notify_after: Seq<ComponentId>,
    id: ComponentId,
)
    requires
        exact(earlier, focused, notify),
        earlier.len() <= after.len(),
        distinct(after),
        is_mounted(after, id),
        !focused.contains(id),
        !notify.contains(id),
        forall|i: int|
            0 <= i < earlier.len() && (#[trigger] earlier[i]).id != id ==> after[i] == earlier[i],
        focused_after == if after[mounted_at(after, id)].bindings.has_focus() {
            IdList::noted(focused, id)
        } else {
            focused
        },
        notify_after == if after[mounted_at(after, id)].bindings.wants_notice() {
            IdList::noted(notify, id)
        } else {
            notify
        },
    ensures
        exact(after, focused_after, notify_after),
{
    let at = mounted_at(after, id);
    assert forall|k: int| 0 <= k < focused_after.len() implies reports_focus(
        after,
        #[trigger] focused_after[k],
    ) by {
        if k < focused.len() {
            assert(focused_after[k] == focused[k]);
            assert(focused.contains(focused[k]));
            let i = choose|i: int|
                0 <= i < earlier.len() && (#[trigger] earlier[i]).id == focused[k]
                    && earlier[i].bindings.has_focus();
            assert(after[i] == earlier[i]);
        } else {
            assert(focused_after[k] == id);
            assert(after[at].id == id);
        }
    }
    assert forall|k: int| 0 <= k < notify_after.len() implies asks_notice(
        after,
        #[trigger] notify_after[k],
    ) by {
        if k < notify.len() {
            assert(notify_after[k] == notify[k]);
            assert(notify.contains(notify[k]));
            let i = choose|i: int|
                0 <= i < earlier.len() && (#[trigger] earlier[i]).id == notify[k]
                    && earlier[i].bindings.wants_notice();
            assert(after[i] == earlier[i]);
        } else {
            assert(notify_after[k] == id);
            assert(after[at].id == id);
        }
    }
}

} // verus!
