//! The table of mounted components.

use vstd::prelude::*;

use crate::component::{Component, ShouldRender};
use crate::component::bindings::{Bindings, Command, DynamicBindings, Pattern, Query};
use crate::component::layout::Layout;
use crate::component::template::ComponentId;
use crate::terminal::Rect;
use crate::text::{decimal, push_decimal};

verus! {

/// A component that the runtime keeps alive, with what the runtime knows of
/// it.
#[verifier::reject_recursive_types(ComponentT)]
pub struct MountedComponent<ComponentT: Component> {
    /// The identity under which the component is found again.
    pub id: ComponentId,
    /// The component itself.
    pub component: ComponentT,
    /// The region of the screen that the component was last given.
    pub frame: Rect,
    /// The key bindings of the component.
    pub bindings: DynamicBindings<ComponentT>,
    /// The walk of the tree that last reached the component.
    pub reached: usize,
    /// The walk of the tree that last walked what the component shows.
    pub generation: usize,
    /// Whether the component asked to be rendered since it last was.
    pub should_render: bool,
    /// What the component showed when it was last rendered.
    pub layout: Option<Layout<ComponentT::Properties>>,
}

impl<ComponentT: Component> MountedComponent<ComponentT> {
    /// Whether `self` is what `before` has become by being told something:
    /// it may be another value inside and may ask to be rendered, but a
    /// request to be rendered that it had made stands, and the runtime knows
    /// of it what it knew.
    pub open spec fn told(self, before: Self) -> bool {
        &&& self.id == before.id
        &&& self.frame == before.frame
        &&& self.bindings == before.bindings
        &&& self.reached == before.reached
        &&& self.generation == before.generation
        &&& self.layout == before.layout
        &&& before.should_render ==> self.should_render
    }

    /// Whether `self` is what `before` has become by answering `answer` to
    /// something it was told: it asks to be rendered if it answers so or
    /// had asked before, and the runtime knows of it what it knew.
    pub open spec fn answered(self, before: Self, answer: ShouldRender) -> bool {
        &&& self.told(before)
        &&& self.should_render == (answer is Yes || before.should_render)
    }

    /// Whether `self` is what `before` has become by being handed the
    /// properties.
    pub open spec fn was_changed(self, before: Self, properties: ComponentT::Properties) -> bool {
        exists|answer: ShouldRender|
            #[trigger] ComponentT::changed(before.component, properties, self.component, answer)
                && self.answered(before, answer)
    }

    /// Whether `self` is what `before` has become by being given the region.
    pub open spec fn was_resized(self, before: Self, frame: Rect) -> bool {
        exists|answer: ShouldRender|
            #[trigger] ComponentT::resized(before.component, frame, self.component, answer)
                && self.answered(MountedComponent { frame, ..before }, answer)
    }

    /// Whether `self` is what `before` has become by being handed the
    /// message.
    pub open spec fn was_updated(self, before: Self, message: ComponentT::Message) -> bool {
        exists|answer: ShouldRender|
            #[trigger] ComponentT::updated(before.component, message, self.component, answer)
                && self.answered(before, answer)
    }

    /// Whether `self` is what `before` has become by bringing its bindings
    /// up to date: the component was handed the bindings it had, and has
    /// the ones that it made of them.
    pub open spec fn was_rebound(self, before: Self) -> bool {
        &&& self == (MountedComponent { bindings: self.bindings, ..before })
        &&& before.component.bound(
            Bindings { bindings: before.bindings },
            Bindings { bindings: self.bindings },
        )
    }

    /// Whether `self` is what `before` has become by being handed the
    /// properties, if `handed` says so, and is `before` otherwise.
    pub open spec fn took_properties(
        self,
        before: Self,
        properties: ComponentT::Properties,
        handed: bool,
    ) -> bool {
        if handed {
            self.was_changed(before, properties)
        } else {
            self == before
        }
    }

    /// Whether `self` is what `before` has become by being given the region,
    /// if that is another than the one it had, and is `before` otherwise.
    pub open spec fn took_region(self, before: Self, frame: Rect) -> bool {
        if frame != before.frame {
            self.was_resized(before, frame)
        } else {
            self == before
        }
    }

    /// Whether `self` is what the mounted component `before` has become by
    /// being reached by a walk: it was handed the properties of its
    /// declaration if the component that declares it was rendered, and only
    /// then; it was given the region if that is another than the one it
    /// had, and only then; and it has brought its bindings up to date.
    pub open spec fn was_reached(
        self,
        before: Self,
        properties: ComponentT::Properties,
        frame: Rect,
        parent_changed: bool,
        generation: usize,
    ) -> bool {
        exists|first: Self, second: Self|
            #![trigger first.took_properties(before, properties, parent_changed), second.took_region(first, frame)]
            first.took_properties(before, properties, parent_changed) && second.took_region(
                first,
                frame,
            ) && self.was_rebound(MountedComponent { reached: generation, ..second })
    }

    /// Whether the component is as a walk makes it from a declaration: made
    /// by `create` from the properties, in the region, with a link of its
    /// own identity; not rendered yet; and without bindings.
    pub open spec fn is_new(
        self,
        properties: ComponentT::Properties,
        frame: Rect,
        id: ComponentId,
        generation: usize,
    ) -> bool {
        &&& ComponentT::created(properties, frame, id, self.component)
        &&& self.id == id
        &&& self.frame == frame
        &&& self.reached == generation
        &&& self.generation == generation
        &&& self.should_render
        &&& self.layout is None
        &&& self.bindings.map().names() == Seq::<Seq<char>>::empty()
        &&& self.bindings.map().bindings() == Map::<Pattern, Query>::empty()
        &&& self.bindings.doings() == Seq::<Command<ComponentT>>::empty()
        &&& !self.bindings.has_focus()
        &&& !self.bindings.wants_notice()
    }

    /// Whether `self` is a component that a walk has mounted for a
    /// declaration: it was made new and has brought its bindings up to
    /// date.
    pub open spec fn was_mounted(
        self,
        properties: ComponentT::Properties,
        frame: Rect,
        id: ComponentId,
        generation: usize,
    ) -> bool {
        exists|fresh: Self| #[trigger]
            fresh.is_new(properties, frame, id, generation) && self.was_rebound(fresh)
    }

    /// Whether the component was asked what it wants to get when time
    /// passes, and the subscriptions `after` are the subscriptions `before`
    /// with what it answered.
    pub open spec fn was_asked(
        self,
        before: Seq<TickSubscription<ComponentT::Message>>,
        after: Seq<TickSubscription<ComponentT::Message>>,
    ) -> bool {
        exists|message: Option<ComponentT::Message>| #[trigger]
            self.component.ticks(message) && after == match message {
                Some(wanted) => before.push(
                    TickSubscription { component_id: self.id, message: wanted },
                ),
                None => before,
            }
    }

    /// Hands new properties to the component and tells whether it has to be
    /// rendered.
    #[inline]
    pub fn change(&mut self, properties: &ComponentT::Properties) -> (render: bool)
        ensures
            final(self).told(*old(self)),
            final(self).was_changed(*old(self), *properties),
            render == final(self).should_render,
    {
        let answer = self.component.change(properties);
        self.should_render = answer.to_bool() || self.should_render;
        proof {
            assert(ComponentT::changed(
                old(self).component,
                *properties,
                self.component,
                answer,
            ));
            assert(self.answered(*old(self), answer));
        }
        self.should_render
    }

    /// Gives the component another region and tells whether it has to be
    /// rendered.
    #[inline]
    pub fn resize(&mut self, frame: Rect) -> (render: bool)
        ensures
            final(self).told(MountedComponent { frame, ..*old(self) }),
            final(self).was_resized(*old(self), frame),
            final(self).frame == frame,
            render == final(self).should_render,
    {
        let answer = self.component.resize(frame);
        self.should_render = answer.to_bool() || self.should_render;
        self.frame = frame;
        proof {
            assert(ComponentT::resized(old(self).component, frame, self.component, answer));
            assert(self.answered(MountedComponent { frame, ..*old(self) }, answer));
        }
        self.should_render
    }

    /// Hands a message to the component and tells whether it has to be
    /// rendered.
    #[inline]
    pub fn update(&mut self, message: ComponentT::Message) -> (render: bool)
        ensures
            final(self).told(*old(self)),
            final(self).was_updated(*old(self), message),
            render == final(self).should_render,
    {
        let answer = self.component.update(message);
        self.should_render = answer.to_bool() || self.should_render;
        proof {
            assert(ComponentT::updated(old(self).component, message, self.component, answer));
            assert(self.answered(*old(self), answer));
        }
        self.should_render
    }

    /// Renders the component. Its request to be rendered, if it had made
    /// one, is thereby met.
    #[inline]
    pub fn view(&mut self) -> (layout: Layout<ComponentT::Properties>)
        ensures
            *final(self) == (MountedComponent { should_render: false, ..*old(self) }),
            old(self).component.shows(layout),
    {
        self.should_render = false;
        self.component.view()
    }

    /// Takes the key bindings of the component out, as the component sees
    /// them. Until they are put back the component has bindings without
    /// commands, and neither the focus nor notice.
    pub fn lend_bindings(&mut self) -> (typed: Bindings<ComponentT>)
        ensures
            typed.bindings == old(self).bindings,
            *final(self) == (MountedComponent { bindings: final(self).bindings, ..*old(self) }),
            final(self).bindings.map().names() == Seq::<Seq<char>>::empty(),
            final(self).bindings.map().bindings() == Map::<Pattern, Query>::empty(),
            final(self).bindings.doings() == Seq::<Command<ComponentT>>::empty(),
            !final(self).bindings.has_focus(),
            !final(self).bindings.wants_notice(),
    {
        let mut bindings = DynamicBindings::new();
        std::mem::swap(&mut self.bindings, &mut bindings);
        bindings.typed()
    }

    /// Puts key bindings back, as the component has left them.
    pub fn keep_bindings(&mut self, typed: Bindings<ComponentT>)
        ensures
            *final(self) == (MountedComponent { bindings: typed.bindings, ..*old(self) }),
    {
        self.bindings = typed.bindings;
    }

    /// Lets the component bring its key bindings up to date: the component
    /// is handed the bindings that it has, and has the bindings that it
    /// makes of them. Nothing else of it changes.
    #[inline]
    pub fn update_bindings(&mut self)
        ensures
            *final(self) == (MountedComponent { bindings: final(self).bindings, ..*old(self) }),
            final(self).was_rebound(*old(self)),
    {
        let mut typed = self.lend_bindings();
        self.component.bindings(&mut typed);
        self.keep_bindings(typed);
    }

    /// The message that the component wants to get when time passes, if it
    /// wants any.
    #[inline]
    pub fn tick(&self) -> (message: Option<ComponentT::Message>)
        ensures
            self.component.ticks(message),
    {
        self.component.tick()
    }

    /// Notes that the given walk of the tree reached the component.
    #[inline]
    pub fn set_reached(&mut self, generation: usize)
        ensures
            *final(self) == (MountedComponent { reached: generation, ..*old(self) }),
    {
        self.reached = generation;
    }

    /// Notes that the given walk of the tree walked what the component
    /// shows.
    #[inline]
    pub fn set_generation(&mut self, generation: usize)
        ensures
            *final(self) == (MountedComponent { generation, ..*old(self) }),
    {
        self.generation = generation;
    }
}

/// A message that a component wants to get when time passes.
pub struct TickSubscription<MessageT> {
    pub component_id: ComponentId,
    pub message: MessageT,
}

/// How many components a walk of the tree found new, changed, gone or as
/// they were.
#[derive(Clone, Copy, Debug, PartialEq, Eq, Structural)]
pub struct DrawStatistics {
    /// How many components were mounted.
    pub new: usize,
    /// How many components were reached and asked to be rendered.
    pub changed: usize,
    /// How many components were dropped.
    pub deleted: usize,
    /// How many components were reached and left as they were.
    pub nop: usize,
    /// How many times a component was reached that the walk had reached
    /// already: the tree declares it at more than one place.
    pub revisited: usize,
}

impl DrawStatistics {
    /// The statistics of a walk that found nothing.
    pub open spec fn none() -> DrawStatistics {
        DrawStatistics { new: 0, changed: 0, deleted: 0, nop: 0, revisited: 0 }
    }

    /// The statistics of a walk that found nothing.
    pub fn empty() -> (statistics: Self)
        ensures
            statistics == Self::none(),
    {
        DrawStatistics { new: 0, changed: 0, deleted: 0, nop: 0, revisited: 0 }
    }

    /// How the statistics are written.
    pub open spec fn text(self) -> Seq<char> {
        decimal(self.new as nat) + " new "@ + decimal(self.changed as nat) + " upd "@ + decimal(
            self.deleted as nat,
        ) + " del "@ + decimal(self.nop as nat) + " nop"@
    }

    /// Writes the statistics.
    pub fn to_string(&self) -> (text: String)
        ensures
            text@ == self.text(),
    {
        let mut text = String::new();
        push_decimal(&mut text, self.new);
        text.append(" new ");
        push_decimal(&mut text, self.changed);
        text.append(" upd ");
        push_decimal(&mut text, self.deleted);
        text.append(" del ");
        push_decimal(&mut text, self.nop);
        text.append(" nop");
        assert(text@ =~= self.text());
        text
    }
}

/// Whether one of `components` goes by `id`.
pub open spec fn is_mounted<ComponentT: Component>(
    components: Seq<MountedComponent<ComponentT>>,
    id: ComponentId,
) -> bool {
    exists|i: int| 0 <= i < components.len() && (#[trigger] components[i]).id == id
}

/// Whether every one of `ids` is the identity of one of `components`.
pub open spec fn all_mounted<ComponentT: Component>(
    components: Seq<MountedComponent<ComponentT>>,
    ids: Seq<ComponentId>,
) -> bool {
    forall|k: int| 0 <= k < ids.len() ==> is_mounted(components, #[trigger] ids[k])
}

/// Whether no two of `components` go by the same identity.
pub open spec fn distinct<ComponentT: Component>(
    components: Seq<MountedComponent<ComponentT>>,
) -> bool {
    forall|i: int, j: int|
        0 <= i < j < components.len() ==> (#[trigger] components[i]).id != (
        #[trigger] components[j]).id
}

/// Where the component that goes by `id` is, if it is mounted.
pub fn position<ComponentT: Component>(
    components: &Vec<MountedComponent<ComponentT>>,
    id: ComponentId,
) -> (found: Option<usize>)
    ensures
        match found {
            Some(i) => i < components@.len() && components@[i as int].id == id,
            None => !is_mounted(components@, id),
        },
{
    let mut i: usize = 0;
    while i < components.len()
        invariant
            i <= components@.len(),
            forall|j: int| 0 <= j < i ==> (#[trigger] components@[j]).id != id,
        decreases components@.len() - i,
    {
        if components[i].id == id {
            return Some(i);
        }
        i = i + 1;
    }
    None
}

/// Whether two tables hold components of the same identities at the same
/// places, reached by the same walks.
pub open spec fn same_ids<ComponentT: Component>(
    before: Seq<MountedComponent<ComponentT>>,
    after: Seq<MountedComponent<ComponentT>>,
) -> bool {
    &&& before.len() == after.len()
    &&& forall|i: int|
        0 <= i < before.len() ==> (#[trigger] after[i]).id == before[i].id && after[i].generation
            == before[i].generation
}

/// Telling a component something changes neither which components are
/// mounted nor where.
pub proof fn lemma_told_keeps_mounts<ComponentT: Component>(
    before: Seq<MountedComponent<ComponentT>>,
    i: int,
    after: MountedComponent<ComponentT>,
)
    requires
        0 <= i < before.len(),
        after.id == before[i].id,
        after.generation == before[i].generation,
    ensures
        same_ids(before, before.update(i, after)),
{
}

/// Subscriptions to components stay good while the same components stay
/// mounted.
pub proof fn lemma_same_ids_keep_subscriptions<ComponentT: Component>(
    before: Seq<MountedComponent<ComponentT>>,
    after: Seq<MountedComponent<ComponentT>>,
    ids: Seq<ComponentId>,
)
    requires
        same_ids(before, after),
        all_mounted(before, ids),
    ensures
        all_mounted(after, ids),
        distinct(before) ==> distinct(after),
{
    assert forall|k: int| 0 <= k < ids.len() implies is_mounted(after, #[trigger] ids[k]) by {
        assert(is_mounted(before, ids[k]));
        let i = choose|i: int| 0 <= i < before.len() && (#[trigger] before[i]).id == ids[k];
        assert(after[i].id == ids[k]);
    }
    if distinct(before) {
        assert forall|i: int, j: int| 0 <= i < j < after.len() implies (#[trigger] after[i]).id != (
        #[trigger] after[j]).id by {
            assert(before[i].id != before[j].id);
        }
    }
}

/// Where the component that goes by `id` is in the table.
pub open spec fn mounted_at<ComponentT: Component>(
    components: Seq<MountedComponent<ComponentT>>,
    id: ComponentId,
) -> int {
    choose|i: int| 0 <= i < components.len() && (#[trigger] components[i]).id == id
}

/// Among components of different identities, a component is where its
/// identity is found.
pub proof fn lemma_mounted_at<ComponentT: Component>(
    components: Seq<MountedComponent<ComponentT>>,
    i: int,
)
    requires
        distinct(components),
        0 <= i < components.len(),
    ensures
        mounted_at(components, components[i].id) == i,
{
    let j = mounted_at(components, components[i].id);
    if j < i {
        assert(components[j].id != components[i].id);
    } else if i < j {
        assert(components[i].id != components[j].id);
    }
}

} // verus!
