//! What the dispatch of keys and of the passing of time does to the
//! components.

use vstd::prelude::*;

use crate::app::mounted::{distinct, is_mounted, MountedComponent, TickSubscription};
use crate::component::{BindingTransition, Component};
use crate::component::bindings::{BindingQuery, Pattern, Query, resolve};
use crate::component::template::ComponentId;
use crate::terminal::Key;

verus! {

/// Whether every component of `after` is what the component at its place
/// in `before` has become by being told something.
pub open spec fn all_told<ComponentT: Component>(
    before: Seq<MountedComponent<ComponentT>>,
    after: Seq<MountedComponent<ComponentT>>,
) -> bool {
    &&& before.len() == after.len()
    &&& forall|i: int| 0 <= i < before.len() ==> (#[trigger] after[i]).told(before[i])
}

/// Whether one of the first `upto` of `subscriptions` is for a mounted
/// component that asks to be rendered.
pub open spec fn tick_asks_render<ComponentT: Component>(
    components: Seq<MountedComponent<ComponentT>>,
    subscriptions: Seq<TickSubscription<ComponentT::Message>>,
    upto: int,
) -> bool {
    exists|k: int, i: int|
        0 <= k < upto && 0 <= i < components.len() && (#[trigger] components[i]).id == (
        #[trigger] subscriptions[k]).component_id && components[i].should_render
}

/// What a keymap makes of the chords typed so far, as what becomes of them:
/// a bound chord or no chord at all is done with, the beginning of a chord
/// is kept.
pub open spec fn transition_of(query: Option<Query>) -> BindingTransition {
    match query {
        Some(Query::PrefixOf(_)) => BindingTransition::Continue,
        _ => BindingTransition::Clear,
    }
}

/// Decides what becomes of the chords typed so far, from what a keymap makes
/// of them.
pub fn transition_for(query: Option<&BindingQuery>) -> (transition: BindingTransition)
    ensures
        transition == transition_of(
            match query {
                Some(found) => Some(found@),
                None => None,
            },
        ),
{
    match query {
        Some(BindingQuery::PrefixOf(_)) => BindingTransition::Continue,
        _ => BindingTransition::Clear,
    }
}

/// Whether the chords typed so far are kept after the focused components
/// went through these transitions: one of them takes the chords for the
/// beginning of a chord, and the focus did not change.
pub open spec fn keeps_sequence(transitions: Seq<BindingTransition>) -> bool {
    &&& exists|k: int| 0 <= k < transitions.len() && transitions[k] is Continue
    &&& forall|k: int| 0 <= k < transitions.len() ==> !(transitions[k] is ChangedFocus)
}

/// The keymap of the component that goes by `id`.
pub open spec fn keymap_of<ComponentT: Component>(
    components: Seq<MountedComponent<ComponentT>>,
    id: ComponentId,
) -> Map<Pattern, Query> {
    let i = choose|i: int| 0 <= i < components.len() && (#[trigger] components[i]).id == id;
    components[i].bindings.map().bindings()
}

/// Whether `transitions` is a way in which `typed` can go through the
/// focused components: they are served in their order, each goes by what
/// its keymap makes of the chords, except that a component whose chord is
/// bound may answer with a change of focus, after which no other is served.
pub open spec fn routed<ComponentT: Component>(
    components: Seq<MountedComponent<ComponentT>>,
    focused: Seq<ComponentId>,
    typed: Seq<Key>,
    transitions: Seq<BindingTransition>,
) -> bool {
    &&& transitions.len() <= focused.len()
    &&& forall|k: int|
        0 <= k < transitions.len() ==> {
            let query = resolve(keymap_of(components, focused[k]), typed);
            if #[trigger] transitions[k] is ChangedFocus {
                k == transitions.len() - 1 && query matches Some(Query::Match(_))
            } else {
                transitions[k] == transition_of(query)
            }
        }
    &&& transitions.len() < focused.len() ==> transitions.len() > 0 && transitions.last()
        is ChangedFocus
}

/// Whether `after` is what the table `before` has become by a message for
/// the component that goes by `id`: the component, if it is mounted, is
/// what its `update` makes of it with the message, and nothing else
/// changes.
pub open spec fn handed<ComponentT: Component>(
    before: Seq<MountedComponent<ComponentT>>,
    after: Seq<MountedComponent<ComponentT>>,
    id: ComponentId,
    message: ComponentT::Message,
) -> bool {
    if is_mounted(before, id) {
        exists|i: int|
            0 <= i < before.len() && (#[trigger] before[i]).id == id && after == before.update(
                i,
                after[i],
            ) && after[i].was_updated(before[i], message)
    } else {
        after == before
    }
}

/// Whether `tables` are the tables that the first `upto` messages for the
/// passing of time make of the table `before`, one after the other, each
/// message handed to its component in turn, and `after` is the last.
pub open spec fn ticks_chain<ComponentT: Component>(
    tables: Seq<Seq<MountedComponent<ComponentT>>>,
    before: Seq<MountedComponent<ComponentT>>,
    after: Seq<MountedComponent<ComponentT>>,
    subscriptions: Seq<TickSubscription<ComponentT::Message>>,
    upto: int,
) -> bool {
    &&& tables.len() == upto + 1
    &&& tables[0] == before
    &&& tables[upto] == after
    &&& forall|k: int|
        0 <= k < upto ==> handed(
            #[trigger] tables[k],
            tables[k + 1],
            subscriptions[k].component_id,
            subscriptions[k].message,
        )
}

/// Whether `after` is what the table `before` has become by the first
/// `upto` messages for the passing of time, each handed to its component
/// in turn.
pub open spec fn ticks_handed<ComponentT: Component>(
    before: Seq<MountedComponent<ComponentT>>,
    after: Seq<MountedComponent<ComponentT>>,
    subscriptions: Seq<TickSubscription<ComponentT::Message>>,
    upto: int,
) -> bool {
    exists|tables: Seq<Seq<MountedComponent<ComponentT>>>| #[trigger]
        ticks_chain(tables, before, after, subscriptions, upto)
}

/// Whether the component that goes by `id` is among the first `served` of
/// the focused components and its keymap takes `typed` for a bound chord:
/// the component then ran a command.
pub open spec fn ran_command<ComponentT: Component>(
    components: Seq<MountedComponent<ComponentT>>,
    focused: Seq<ComponentId>,
    typed: Seq<Key>,
    served: int,
    id: ComponentId,
) -> bool {
    exists|k: int|
        0 <= k < served && k < focused.len() && #[trigger] focused[k] == id && resolve(
            keymap_of(components, id),
            typed,
        ) matches Some(Query::Match(_))
}

/// Whether `after` is what the component `before` has become by answering
/// `message` to its command, or, with `None`, nothing: it was handed the
/// message, is what its `update` makes of it, and has brought its bindings
/// up to date.
pub open spec fn got_answer<ComponentT: Component>(
    after: MountedComponent<ComponentT>,
    before: MountedComponent<ComponentT>,
    message: Option<ComponentT::Message>,
) -> bool {
    match message {
        Some(handed) => exists|told: MountedComponent<ComponentT>| #[trigger]
            told.was_updated(before, handed) && after.was_rebound(told),
        None => after == before,
    }
}

/// Whether `after` is what the component `before` has become by running the
/// command that its keymap has for `typed`: the command was run on the
/// component with the chords, and the component got what it answered.
pub open spec fn ran<ComponentT: Component>(
    after: MountedComponent<ComponentT>,
    before: MountedComponent<ComponentT>,
    typed: Seq<Key>,
) -> bool {
    resolve(before.bindings.map().bindings(), typed) matches Some(Query::Match(command))
        && exists|message: Option<ComponentT::Message>| #[trigger]
        before.bindings.answers(command, &before.component, typed, message) && got_answer(
            after,
            before,
            message,
        )
}

/// Whether every component that ran a command is what running it made of
/// it.
pub open spec fn commands_ran<ComponentT: Component>(
    before: Seq<MountedComponent<ComponentT>>,
    after: Seq<MountedComponent<ComponentT>>,
    focused: Seq<ComponentId>,
    typed: Seq<Key>,
    served: int,
) -> bool {
    forall|i: int|
        0 <= i < before.len() && i < after.len() && ran_command(
            before,
            focused,
            typed,
            served,
            before[i].id,
        ) ==> ran(#[trigger] after[i], before[i], typed)
}

/// Whether the components that ran no command are left as they were.
pub open spec fn others_untouched<ComponentT: Component>(
    before: Seq<MountedComponent<ComponentT>>,
    after: Seq<MountedComponent<ComponentT>>,
    focused: Seq<ComponentId>,
    typed: Seq<Key>,
    served: int,
) -> bool {
    forall|i: int|
        0 <= i < before.len() && i < after.len() && !ran_command(
            before,
            focused,
            typed,
            served,
            before[i].id,
        ) ==> #[trigger] after[i] == before[i]
}

/// Whether `after` is what `before` has become by taking part in the
/// dispatch of a key: it may have got a message and brought its bindings up
/// to date.
pub open spec fn dispatched<ComponentT: Component>(
    after: MountedComponent<ComponentT>,
    before: MountedComponent<ComponentT>,
) -> bool {
    &&& after.id == before.id
    &&& after.frame == before.frame
    &&& after.reached == before.reached
    &&& after.generation == before.generation
    &&& after.layout == before.layout
    &&& before.should_render ==> after.should_render
}

/// Whether every component of `after` is what the component at its place in
/// `before` has become by the dispatch of a key.
pub open spec fn all_dispatched<ComponentT: Component>(
    before: Seq<MountedComponent<ComponentT>>,
    after: Seq<MountedComponent<ComponentT>>,
) -> bool {
    &&& before.len() == after.len()
    &&& forall|i: int| 0 <= i < before.len() ==> dispatched(#[trigger] after[i], before[i])
}

/// Among components of different identities, the one that goes by an
/// identity is the one found with it.
pub proof fn lemma_keymap_of<ComponentT: Component>(
    components: Seq<MountedComponent<ComponentT>>,
    i: int,
)
    requires
        distinct(components),
        0 <= i < components.len(),
    ensures
        keymap_of(components, components[i].id) == components[i].bindings.map().bindings(),
{
    let id = components[i].id;
    let j = choose|j: int| 0 <= j < components.len() && (#[trigger] components[j]).id == id;
    if j < i {
        assert(components[j].id != components[i].id);
    } else if i < j {
        assert(components[i].id != components[j].id);
    }
}

} // verus!
