//! The application runtime: what is mounted, what is due, and how a frame
//! is drawn.
//!
//! [`App`] keeps the components alive across frames. Every frame it walks
//! the tree that they declare (see [`walk`]), finds again the components
//! that are declared where they were, mounts the ones that are new and
//! drops the ones that are gone. A tree in which nothing changed is found as
//! it is (see [`settled`] and [`orderly`]).
//!
//! What a walk hands to the components that it reaches is stated in
//! [`handed`], what it notes of their subscriptions in [`listed`], what it
//! paints in [`shown`], and how many components it keeps in [`tally`]. What
//! a message, a key or the passing of time does to the components is stated
//! in [`dispatch`].

pub mod dispatch;
pub mod handed;
pub mod listed;
pub mod mounted;
pub mod orderly;
pub mod poll;
pub mod settled;
pub mod shown;
pub mod tally;
pub mod walk;

pub use self::dispatch::{all_dispatched, all_told};
pub use self::mounted::{DrawStatistics, MountedComponent, TickSubscription};
pub use self::poll::PollState;

use vstd::prelude::*;

use crate::app::dispatch::{
    commands_ran, got_answer, handed, keeps_sequence, keymap_of, lemma_keymap_of, others_untouched,
    ran, ran_command, routed, tick_asks_render, ticks_chain, ticks_handed, transition_for,
    transition_of,
};
use crate::app::mounted::{
    all_mounted, distinct, is_mounted, lemma_same_ids_keep_subscriptions, lemma_told_keeps_mounts,
    position, same_ids,
};
use crate::app::settled::{
    calm, lemma_rooted_kept, lemma_settled_kept, rested, rested_from, rooted, settled,
};
use crate::app::orderly::walked_through;
use crate::app::shown::{
    holds_layout, lemma_same_cell, lemma_same_walk, lemma_walk_kept, painted_cell, root_painted,
    screen_shows, shown_cell, shown_first, under,
};
use crate::app::handed::{
    all_asked, all_told_from, all_wanted, lemma_reconciled_same, lemma_told_same_places,
    reconciled, tick_noted,
};
use crate::app::listed::{exact, lemma_exact_same, noted_in};
use crate::app::walk::{draw_tree, lemma_outcome_by_ids, subscribed, visits, walk_outcome};
use crate::component::{
    BindingTransition, Component, ComponentMessage, LinkMessage, MessageSender, SharedSender,
};
use crate::component::bindings::{NamedBindingQuery, Query, resolve};
use crate::component::layout::{laid_out, Layout};
use crate::component::template::ComponentId;
use crate::small::{IdList, KeySequence};
use crate::terminal::{Event, Key, Position, Rect, Size};
use crate::terminal::canvas::Canvas;

verus! {

/// Everything that an application holds besides its root and its sender,
/// as values to reason about.
#[verifier::reject_recursive_types(ComponentT)]
pub struct Snapshot<ComponentT: Component> {
    /// The mounted components, in the order in which they were mounted.
    pub components: Seq<MountedComponent<ComponentT>>,
    /// The components that take the chords typed, in the order in which the
    /// last walk of the tree reached them.
    pub focused: Seq<ComponentId>,
    /// The components that are told what the focused ones make of the chords.
    pub notify: Seq<ComponentId>,
    /// The messages to hand out when time passes.
    pub tickable: Seq<TickSubscription<ComponentT::Message>>,
    /// The chords typed so far that may still become a bound chord.
    pub keys: Seq<Key>,
    /// The screen as it was last drawn.
    pub screen: Canvas,
    /// What is to do next.
    pub poll_state: PollState,
    /// How many frames were drawn.
    pub num_frame: usize,
    /// What the walk of the tree for the last frame found.
    pub statistics: DrawStatistics,
}

/// Whether the parts of a runtime fit together: no two components go by the
/// same identity, the components that are subscribed to chords are mounted,
/// no walk of the tree that reached a component is yet to come, and a new
/// size that the screen is to take can be held in memory.
pub open spec fn coherent<ComponentT: Component>(state: Snapshot<ComponentT>) -> bool {
    &&& distinct(state.components)
    &&& all_mounted(state.components, state.focused)
    &&& all_mounted(state.components, state.notify)
    &&& state.focused.no_duplicates()
    &&& state.notify.no_duplicates()
    &&& forall|i: int|
        0 <= i < state.components.len() ==> (#[trigger] state.components[i]).generation
            < state.num_frame && state.components[i].reached < state.num_frame
    &&& state.poll_state matches PollState::Dirty(Some(size)) ==> size.addressable()
}

/// The state of a running application.
#[verifier::reject_recursive_types(ComponentT)]
pub struct AppRuntime<ComponentT: Component> {
    components: Vec<MountedComponent<ComponentT>>,
    focused: IdList,
    notify: IdList,
    tickable: Vec<TickSubscription<ComponentT::Message>>,
    keys: KeySequence,
    screen: Canvas,
    poll_state: PollState,
    num_frame: usize,
    statistics: DrawStatistics,
}

impl<ComponentT: Component> View for AppRuntime<ComponentT> {
    type V = Snapshot<ComponentT>;

    closed spec fn view(&self) -> Snapshot<ComponentT> {
        Snapshot {
            components: self.components@,
            focused: self.focused@,
            notify: self.notify@,
            tickable: self.tickable@,
            keys: self.keys@,
            screen: self.screen,
            poll_state: self.poll_state,
            num_frame: self.num_frame,
            statistics: self.statistics,
        }
    }
}

impl<ComponentT: Component> AppRuntime<ComponentT> {
    #[verifier::type_invariant]
    spec fn wf(self) -> bool {
        coherent(self@)
    }

    /// The state of an application that is about to draw its first frame on
    /// a screen of the given size.
    pub fn new(size: Size) -> (runtime: Self)
        requires
            size.addressable(),
        ensures
            runtime@.components.len() == 0,
            runtime@.focused.len() == 0,
            runtime@.notify.len() == 0,
            runtime@.tickable.len() == 0,
            runtime@.keys.len() == 0,
            runtime@.screen.extent() == size,
            forall|x: int, y: int|
                runtime@.screen.has(x, y) ==> runtime@.screen.cell(x, y) is None,
            runtime@.poll_state == PollState::Dirty(None),
            runtime@.num_frame == 0,
            runtime@.statistics == DrawStatistics::none(),
    {
        AppRuntime {
            components: Vec::new(),
            focused: IdList::new(),
            notify: IdList::new(),
            tickable: Vec::new(),
            keys: KeySequence::new(),
            screen: Canvas::new(size),
            poll_state: PollState::Dirty(None),
            num_frame: 0,
            statistics: DrawStatistics::empty(),
        }
    }

    /// A state to stand in for one that is being worked on: it holds no
    /// component, no subscription and no chord, a screen without cells, and
    /// nothing is due in it.
    fn vacant() -> (runtime: Self)
        ensures
            runtime@.components.len() == 0,
            runtime@.focused.len() == 0,
            runtime@.notify.len() == 0,
            runtime@.tickable.len() == 0,
            runtime@.keys.len() == 0,
            runtime@.screen.extent() == (Size { width: 0, height: 0 }),
            runtime@.poll_state == PollState::Clean,
            runtime@.num_frame == 0,
            runtime@.statistics == DrawStatistics::none(),
    {
        AppRuntime {
            components: Vec::new(),
            focused: IdList::new(),
            notify: IdList::new(),
            tickable: Vec::new(),
            keys: KeySequence::new(),
            screen: Canvas::new(Size { width: 0, height: 0 }),
            poll_state: PollState::Clean,
            num_frame: 0,
            statistics: DrawStatistics::empty(),
        }
    }
}

/// What the delivery of a message makes of an application.
///
/// A request to stop makes the state `Exit`. A message for a component that
/// is mounted is handed to that component and to no other: the component is
/// what its `update` makes of it. The application is dirty afterwards if the
/// component asks to be rendered, by its answer or from before, and what
/// was due before stays due. A message for a component that is not mounted
/// changes nothing.
pub open spec fn delivered<ComponentT: Component>(
    before: Snapshot<ComponentT>,
    after: Snapshot<ComponentT>,
    message: ComponentMessage<ComponentT::Message>,
) -> bool {
    match message.0 {
        LinkMessage::Exit => after == (Snapshot {
            poll_state: before.poll_state.merged(PollState::Exit),
            ..before
        }),
        LinkMessage::Component(id, handed) => if is_mounted(before.components, id) {
            exists|i: int|
                {
                    &&& 0 <= i < before.components.len()
                    &&& before.components[i].id == id
                    &&& after.components[i].told(before.components[i])
                    &&& after.components[i].was_updated(before.components[i], handed)
                    &&& after == (Snapshot {
                        components: before.components.update(i, after.components[i]),
                        poll_state: before.poll_state.merged(
                            if after.components[i].should_render {
                                PollState::Dirty(None)
                            } else {
                                PollState::Clean
                            },
                        ),
                        ..before
                    })
                }
        } else {
            after == before
        },
        LinkMessage::RunExclusive(id, process) => exists|answer: Option<ComponentT::Message>|
            #[trigger] process.gives(answer) && exclusive_done(before, after, id, answer),
    }
}

/// What handing over the answer of something that was run with the device
/// to itself makes of an application: the answer, if there is one, is
/// handed to the component like any message, and a redraw is due, whatever
/// the component says, since the device was not the application's.
pub open spec fn exclusive_done<ComponentT: Component>(
    before: Snapshot<ComponentT>,
    after: Snapshot<ComponentT>,
    id: ComponentId,
    answer: Option<ComponentT::Message>,
) -> bool {
    &&& after == (Snapshot {
        components: after.components,
        poll_state: before.poll_state.merged(PollState::Dirty(None)),
        ..before
    })
    &&& match answer {
        Some(message) => handed(before.components, after.components, id, message),
        None => after.components == before.components,
    }
}

/// What the dispatch of a key makes of an application.
///
/// The key is added to the chords typed so far and the focused components
/// are served in their order, each by what its keymap makes of the chords.
/// The chords are kept if one of them takes them for the beginning of a
/// chord and the focus did not change, and are done with otherwise. Nothing
/// else of the application changes but what the components make of the
/// messages that their commands answer with: a component that ran no
/// command is left as it was, and one whose keymap takes the chords for a
/// bound chord ran the command and got what it answered.
pub open spec fn keyed<ComponentT: Component>(
    before: Snapshot<ComponentT>,
    after: Snapshot<ComponentT>,
    key: Key,
) -> bool {
    &&& all_dispatched(before.components, after.components)
    &&& after.focused == before.focused
    &&& after.notify == before.notify
    &&& after.tickable == before.tickable
    &&& after.screen == before.screen
    &&& after.poll_state == before.poll_state
    &&& after.num_frame == before.num_frame
    &&& after.statistics == before.statistics
    &&& exists|transitions: Seq<BindingTransition>|
        {
            &&& #[trigger] routed(
                before.components,
                before.focused,
                KeySequence::typed(before.keys, key),
                transitions,
            )
            &&& after.keys == if keeps_sequence(transitions) {
                KeySequence::typed(before.keys, key)
            } else {
                Seq::empty()
            }
            &&& others_untouched(
                before.components,
                after.components,
                before.focused,
                KeySequence::typed(before.keys, key),
                transitions.len() as int,
            )
            &&& commands_ran(
                before.components,
                after.components,
                before.focused,
                KeySequence::typed(before.keys, key),
                transitions.len() as int,
            )
        }
}

/// What is due after the messages for the passing of time were handed out:
/// a redraw, if one of the components that got one asks to be rendered,
/// besides what was due before.
pub open spec fn tick_state<ComponentT: Component>(
    before: Snapshot<ComponentT>,
    after: Snapshot<ComponentT>,
) -> PollState {
    before.poll_state.merged(
        if tick_asks_render(after.components, before.tickable, before.tickable.len() as int) {
            PollState::Dirty(None)
        } else {
            PollState::Clean
        },
    )
}

/// What handing out the messages for the passing of time makes of an
/// application: each message is handed to its component, in the order of
/// the subscriptions, and the component is what its `update` makes of it;
/// each subscription is used up, and nothing else changes but what is due.
pub open spec fn ticked<ComponentT: Component>(
    before: Snapshot<ComponentT>,
    after: Snapshot<ComponentT>,
) -> bool {
    &&& all_told(before.components, after.components)
    &&& ticks_handed(
        before.components,
        after.components,
        before.tickable,
        before.tickable.len() as int,
    )
    &&& after.tickable.len() == 0
    &&& after.focused == before.focused
    &&& after.notify == before.notify
    &&& after.keys == before.keys
    &&& after.screen == before.screen
    &&& after.num_frame == before.num_frame
    &&& after.statistics == before.statistics
    &&& after.poll_state == tick_state(before, after)
}

/// What two walks of the tree, one after the other, leave: `between` is the
/// table after the first.
pub open spec fn both_walks<ComponentT: Component>(
    root: Layout<ComponentT::Properties>,
    extent: Size,
    before: Seq<MountedComponent<ComponentT>>,
    between: Seq<MountedComponent<ComponentT>>,
    after: Seq<MountedComponent<ComponentT>>,
    first: DrawStatistics,
    second: DrawStatistics,
) -> bool {
    let frame = Rect { origin: Position { x: 0, y: 0 }, size: extent };
    &&& walk_outcome(root, frame, before, between, first)
    &&& walk_outcome(root, frame, between, after, second)
}

/// The application runtime.
///
/// The runtime holds the whole state of an application. It owns the
/// components, creates them where the tree first declares them and drops
/// them where it no longer does, delivers messages and input to them, and
/// draws what they show to a canvas. It runs no loop of its own: a backend
/// hands it the events and presents the canvas.
#[verifier::reject_recursive_types(ComponentT)]
pub struct App<ComponentT: Component> {
    root: Layout<ComponentT::Properties>,
    sender: SharedSender<ComponentT::Message>,
    state: AppRuntime<ComponentT>,
}

impl<ComponentT: Component> View for App<ComponentT> {
    type V = Snapshot<ComponentT>;

    closed spec fn view(&self) -> Snapshot<ComponentT> {
        self.state@
    }
}

impl<ComponentT: Component> App<ComponentT> {
    /// The layout that the application shows.
    pub closed spec fn root(self) -> Layout<ComponentT::Properties> {
        self.root
    }

    /// A runtime for the application that shows `root` on a screen of the
    /// given size. The messages of its components go through `sender`.
    pub fn new<SenderT: MessageSender<ComponentT::Message> + 'static>(
        sender: SenderT,
        size: Size,
        root: Layout<ComponentT::Properties>,
    ) -> (app: Self)
        requires
            size.addressable(),
        ensures
            app.root() == root,
            app@.components.len() == 0,
            app@.focused.len() == 0,
            app@.notify.len() == 0,
            app@.tickable.len() == 0,
            app@.keys.len() == 0,
            app@.screen.extent() == size,
            app@.poll_state == PollState::Dirty(None),
            app@.num_frame == 0,
            app@.statistics == DrawStatistics::none(),
    {
        let boxed: Box<dyn MessageSender<ComponentT::Message>> = Box::new(sender);
        App { root, sender: SharedSender::new(boxed), state: AppRuntime::new(size) }
    }

    /// Does nothing, and thereby shows that the state of an application is
    /// coherent at every moment.
    #[inline]
    pub fn coherence(&self)
        ensures
            coherent(self@),
    {
        proof {
            use_type_invariant(&self.state);
        }
    }

    /// What the application has to do next.
    #[inline]
    pub fn poll_state(&self) -> (poll_state: PollState)
        ensures
            poll_state == self@.poll_state,
    {
        self.state.poll_state
    }

    /// Tells whether a component wants a message when time passes.
    #[inline]
    pub fn is_tickable(&self) -> (tickable: bool)
        ensures
            tickable == (self@.tickable.len() > 0),
    {
        self.state.tickable.len() > 0
    }

    /// The screen as it was last drawn.
    #[inline]
    pub fn screen(&self) -> (screen: &Canvas)
        ensures
            *screen == self@.screen,
    {
        &self.state.screen
    }

    /// How many components are mounted.
    #[inline]
    pub fn num_components(&self) -> (count: usize)
        ensures
            count == self@.components.len(),
    {
        self.state.components.len()
    }

    /// Tells whether a component goes by `id`.
    pub fn is_mounted(&self, id: ComponentId) -> (mounted: bool)
        ensures
            mounted == is_mounted(self@.components, id),
    {
        position(&self.state.components, id).is_some()
    }

    /// Notes that the screen has another size. The components learn of it
    /// when the next frame is drawn. Of two sizes that are noted before a
    /// frame is drawn the larger one is kept, see [`PollState::merged`].
    pub fn handle_resize(&mut self, size: Size)
        requires
            size.addressable(),
        ensures
            final(self).root() == old(self).root(),
            final(self)@ == (Snapshot {
                poll_state: old(self)@.poll_state.merged(PollState::Dirty(Some(size))),
                ..old(self)@
            }),
    {
        proof {
            use_type_invariant(&self.state);
        }
        let mut state = AppRuntime::vacant();
        std::mem::swap(&mut self.state, &mut state);
        let AppRuntime {
            components,
            focused,
            notify,
            tickable,
            keys,
            screen,
            mut poll_state,
            num_frame,
            statistics,
        } = state;
        poll_state.merge(PollState::Dirty(Some(size)));
        self.state = AppRuntime {
            components,
            focused,
            notify,
            tickable,
            keys,
            screen,
            poll_state,
            num_frame,
            statistics,
        };
    }

    /// Delivers a message.
    ///
    /// A message for a component is handed to the component, which may then
    /// ask to be rendered; the application is dirty afterwards if the
    /// component has asked to be rendered, now or earlier. A message for a
    /// component that is no longer mounted is dropped: messages may be on
    /// their way when a component leaves the tree. A request to stop makes
    /// the state `Exit`.
    pub fn handle_message(&mut self, message: ComponentMessage<ComponentT::Message>)
        requires
            message.0 matches LinkMessage::RunExclusive(_, process) ==> process.may_run(),
        ensures
            final(self).root() == old(self).root(),
            delivered(old(self)@, final(self)@, message),
    {
        match message.0 {
            LinkMessage::RunExclusive(id, mut process) => {
                let answer = process.run();
                self.handle_exclusive(id, answer);
            },
            LinkMessage::Component(id, handed) => {
                self.deliver(ComponentMessage(LinkMessage::Component(id, handed)));
            },
            LinkMessage::Exit => {
                self.deliver(ComponentMessage(LinkMessage::Exit));
            },
        }
    }

    /// Hands over the answer of something that was run with the device to
    /// itself. A backend that lets go of the device, runs what a component
    /// asked for and takes the device back hands the answer over here.
    pub fn handle_exclusive(&mut self, id: ComponentId, answer: Option<ComponentT::Message>)
        ensures
            final(self).root() == old(self).root(),
            exclusive_done(old(self)@, final(self)@, id, answer),
    {
        match answer {
            Some(message) => {
                self.deliver(ComponentMessage(LinkMessage::Component(id, message)));
            },
            None => {},
        }
        self.mark(PollState::Dirty(None));
    }

    /// Delivers a message for a component, or a request to stop.
    fn deliver(&mut self, message: ComponentMessage<ComponentT::Message>)
        requires
            !(message.0 is RunExclusive),
        ensures
            final(self).root() == old(self).root(),
            delivered(old(self)@, final(self)@, message),
    {
        proof {
            use_type_invariant(&self.state);
        }
        let mut state = AppRuntime::vacant();
        std::mem::swap(&mut self.state, &mut state);
        let AppRuntime {
            mut components,
            focused,
            notify,
            tickable,
            keys,
            screen,
            mut poll_state,
            num_frame,
            statistics,
        } = state;
        let ghost before = components@;
        match message.0 {
            LinkMessage::Component(id, component_message) => {
                match position(&components, id) {
                    Some(i) => {
                        let should_render = components[i].update(component_message);
                        poll_state.merge(
                            if should_render {
                                PollState::Dirty(None)
                            } else {
                                PollState::Clean
                            },
                        );
                        proof {
                            assert(components@ =~= before.update(i as int, components@[i as int]));
                            lemma_told_keeps_mounts(before, i as int, components@[i as int]);
                            assert(is_mounted(before, id));
                        }
                    },
                    None => {
                        poll_state.merge(PollState::Clean);
                    },
                }
            },
            LinkMessage::Exit => {
                poll_state.merge(PollState::Exit);
            },
            LinkMessage::RunExclusive(_, _) => {},
        }
        proof {
            lemma_same_ids_keep_subscriptions(before, components@, focused@);
            lemma_same_ids_keep_subscriptions(before, components@, notify@);
        }
        self.state = AppRuntime {
            components,
            focused,
            notify,
            tickable,
            keys,
            screen,
            poll_state,
            num_frame,
            statistics,
        };
    }
}

impl<ComponentT: Component> App<ComponentT> {
    /// Dispatches a key to the focused components.
    ///
    /// The key is added to the chords typed so far, and the focused
    /// components are served in their order. A component whose keymap takes
    /// the chords for a bound chord runs the command; where the command
    /// answers with a message, the component gets it and brings its bindings
    /// up to date, and if it thereby gives up the focus, no other component
    /// is served. Then the components that asked for it are told what the
    /// keymaps made of the chords. The chords are kept if a component takes
    /// them for the beginning of a chord and the focus did not change;
    /// otherwise they are done with.
    pub fn handle_key(&mut self, key: Key)
        ensures
            final(self).root() == old(self).root(),
            keyed(old(self)@, final(self)@, key),
    {
        proof {
            use_type_invariant(&self.state);
        }
        let mut state = AppRuntime::vacant();
        std::mem::swap(&mut self.state, &mut state);
        let AppRuntime {
            mut components,
            focused,
            notify,
            tickable,
            mut keys,
            screen,
            poll_state,
            num_frame,
            statistics,
        } = state;
        let ghost before = components@;
        keys.push(key);
        let ghost typed = keys@;
        let mut clear = true;
        let mut changed_focus = false;
        let mut queries: Vec<Option<NamedBindingQuery>> = Vec::new();
        let ghost typed_before = KeySequence::typed(old(self)@.keys, key);
        assert(typed == typed_before);
        let focused_ids = focused.as_slice();
        let notify_ids = notify.as_slice();
        let ghost mut transitions: Seq<BindingTransition> = Seq::empty();
        let mut k: usize = 0;
        while k < focused_ids.len() && !changed_focus
            invariant
                k <= focused@.len(),
                focused_ids@ == focused@,
                keys@ == typed,
                distinct(before),
                all_mounted(before, focused@),
                focused@.no_duplicates(),
                all_dispatched(before, components@),
                forall|i: int|
                    0 <= i < before.len() ==> (#[trigger] components@[i]).bindings
                        == before[i].bindings || exists|j: int|
                        0 <= j < k && focused@[j] == before[i].id,
                transitions.len() == k,
                forall|j: int|
                    0 <= j < k ==> {
                        let query = resolve(keymap_of(before, focused@[j]), typed);
                        if #[trigger] transitions[j] is ChangedFocus {
                            j == k - 1 && query matches Some(Query::Match(_))
                        } else {
                            transitions[j] == transition_of(query)
                        }
                    },
                changed_focus <==> (k > 0 && transitions[k - 1] is ChangedFocus),
                clear <==> forall|j: int| 0 <= j < k ==> !(#[trigger] transitions[j] is Continue),
                others_untouched(before, components@, focused@, typed, k as int),
                commands_ran(before, components@, focused@, typed, k as int),
            decreases focused@.len() - k,
        {
            let id = focused_ids[k];
            let ghost earlier = components@;
            let mut transition = BindingTransition::Clear;
            match position(&components, id) {
                Some(i) => {
                    proof {
                        assert(before[i as int].id == id);
                        lemma_keymap_of(before, i as int);
                        if components@[i as int].bindings != before[i as int].bindings {
                            let j = choose|j: int| 0 <= j < k && focused@[j] == before[i as int].id;
                            assert(focused@[j] == focused@[k as int]);
                        }
                    }
                    let keymap = components[i].bindings.keymap();
                    let query = keymap.check_sequence(keys.as_slice());
                    transition = transition_for(query);
                    let matched = match query {
                        Some(found) => found.matches(),
                        None => None,
                    };
                    let named_query = match query {
                        Some(found) => Some(NamedBindingQuery::new(keymap, found)),
                        None => None,
                    };
                    queries.push(named_query);
                    match matched {
                        Some(command_id) => {
                            let message = components[i].bindings.execute_command(
                                &components[i].component,
                                command_id,
                                keys.as_slice(),
                            );
                            let ghost answer = message;
                            proof {
                                assert(!ran_command(before, focused@, typed, k as int, id)) by {
                                    if ran_command(before, focused@, typed, k as int, id) {
                                        let q = choose|q: int|
                                            0 <= q < k && q < focused@.len() && #[trigger] focused@[q]
                                                == id;
                                        assert(focused@[q] == focused@[k as int]);
                                    }
                                }
                                assert(earlier[i as int] == before[i as int]);
                                assert(before[i as int].bindings.answers(
                                    command_id,
                                    &before[i as int].component,
                                    typed,
                                    answer,
                                ));
                            }
                            match message {
                                Some(message) => {
                                    components[i].update(message);
                                    let ghost told = components@[i as int];
                                    components[i].update_bindings();
                                    proof {
                                        assert(told.was_updated(before[i as int], answer->Some_0));
                                        assert(components@[i as int].was_rebound(told));
                                        assert(got_answer(
                                            components@[i as int],
                                            before[i as int],
                                            answer,
                                        ));
                                    }
                                    if !components[i].bindings.focused() {
                                        changed_focus = true;
                                        transition = BindingTransition::ChangedFocus;
                                    }
                                },
                                None => {},
                            }
                        },
                        None => {
                            match transition {
                                BindingTransition::Continue => {
                                    clear = false;
                                },
                                _ => {},
                            }
                        },
                    }
                    proof {
                        assert(components@ =~= earlier.update(i as int, components@[i as int]));
                    }
                },
                None => {
                    proof {
                        assert(is_mounted(before, focused@[k as int]));
                        let i = choose|i: int|
                            0 <= i < before.len() && (#[trigger] before[i]).id == id;
                        assert(components@[i].id == id);
                    }
                },
            }
            proof {
                assert forall|j: int|
                    0 <= j < before.len() && ran_command(
                        before,
                        focused@,
                        typed,
                        k + 1,
                        before[j].id,
                    ) implies ran(#[trigger] components@[j], before[j], typed) by {
                    if ran_command(before, focused@, typed, k as int, before[j].id) {
                        let q = choose|q: int|
                            0 <= q < k && q < focused@.len() && #[trigger] focused@[q]
                                == before[j].id;
                        assert(focused@[q] != focused@[k as int]);
                        assert(ran(earlier[j], before[j], typed));
                        assert(components@[j] == earlier[j]);
                    } else {
                        assert(before[j].id == focused@[k as int]);
                        lemma_keymap_of(before, j);
                        assert(earlier[j] == before[j]);
                    }
                }
                assert forall|i: int|
                    0 <= i < before.len() && !ran_command(
                        before,
                        focused@,
                        typed,
                        k + 1,
                        before[i].id,
                    ) implies #[trigger] components@[i] == before[i] by {
                    assert(!ran_command(before, focused@, typed, k as int, before[i].id));
                    assert(earlier[i] == before[i]);
                    if components@[i] != earlier[i] {
                        assert(before[i].id == focused@[k as int]);
                        lemma_keymap_of(before, i);
                    }
                }
                let ghost served = transitions;
                transitions = transitions.push(transition);
                assert forall|j: int| 0 <= j < k implies #[trigger] transitions[j] == served[j] by {}
                assert(transitions[k as int] == transition);
                if !clear {
                    if transition is Continue {
                        assert(transitions[k as int] is Continue);
                    } else {
                        let j = choose|j: int| 0 <= j < k && (#[trigger] served[j] is Continue);
                        assert(transitions[j] is Continue);
                    }
                }
            }
            k = k + 1;
        }
        let ghost served = components@;
        let mut n: usize = 0;
        while n < notify_ids.len()
            invariant
                n <= notify@.len(),
                notify_ids@ == notify@,
                all_dispatched(before, components@),
                components@ == served,
            decreases notify@.len() - n,
        {
            match position(&components, notify_ids[n]) {
                Some(i) => {
                    components[i].component.notify_binding_queries(
                        queries.as_slice(),
                        keys.as_slice(),
                    );
                },
                None => {},
            }
            n = n + 1;
        }
        if clear || changed_focus {
            keys.clear();
        }
        proof {
            assert(routed(before, focused@, typed, transitions));
            assert(keeps_sequence(transitions) <==> !(clear || changed_focus)) by {
                if changed_focus {
                    assert(transitions[k - 1] is ChangedFocus);
                }
                if !clear && !changed_focus {
                    assert forall|j: int| 0 <= j < transitions.len() implies !(transitions[j]
                        is ChangedFocus) by {
                        if transitions[j] is ChangedFocus {
                            assert(j == k - 1);
                        }
                    }
                }
            }
            assert(same_ids(before, components@));
            lemma_same_ids_keep_subscriptions(before, components@, focused@);
            lemma_same_ids_keep_subscriptions(before, components@, notify@);
        }
        self.state = AppRuntime {
            components,
            focused,
            notify,
            tickable,
            keys,
            screen,
            poll_state,
            num_frame,
            statistics,
        };
    }

    /// Takes an event from the backend: a key is dispatched, after which a
    /// redraw is due; a new size of the screen is noted.
    #[inline]
    pub fn handle_input(&mut self, event: Event)
        requires
            event matches Event::Resize(size) ==> size.addressable(),
        ensures
            final(self).root() == old(self).root(),
            match event {
                Event::KeyPress(key) => {
                    &&& keyed(
                        old(self)@,
                        Snapshot { poll_state: old(self)@.poll_state, ..final(self)@ },
                        key,
                    )
                    &&& final(self)@.poll_state == old(self)@.poll_state.merged(
                        PollState::Dirty(None),
                    )
                },
                Event::Resize(size) => final(self)@ == (Snapshot {
                    poll_state: old(self)@.poll_state.merged(PollState::Dirty(Some(size))),
                    ..old(self)@
                }),
            },
    {
        match event {
            Event::KeyPress(key) => {
                self.handle_key(key);
                self.mark(PollState::Dirty(None));
            },
            Event::Resize(size) => {
                self.handle_resize(size);
            },
        }
    }

    /// Notes that a redraw is due.
    pub fn mark_dirty(&mut self)
        ensures
            final(self).root() == old(self).root(),
            final(self)@ == (Snapshot {
                poll_state: old(self)@.poll_state.merged(PollState::Dirty(None)),
                ..old(self)@
            }),
    {
        self.mark(PollState::Dirty(None));
    }

    /// Folds another state into what the application has to do next.
    fn mark(&mut self, poll_state: PollState)
        requires
            poll_state matches PollState::Dirty(Some(size)) ==> size.addressable(),
        ensures
            final(self).root() == old(self).root(),
            final(self)@ == (Snapshot {
                poll_state: old(self)@.poll_state.merged(poll_state),
                ..old(self)@
            }),
    {
        proof {
            use_type_invariant(&self.state);
        }
        let mut state = AppRuntime::vacant();
        std::mem::swap(&mut self.state, &mut state);
        let AppRuntime {
            components,
            focused,
            notify,
            tickable,
            keys,
            screen,
            poll_state: mut current,
            num_frame,
            statistics,
        } = state;
        current.merge(poll_state);
        self.state = AppRuntime {
            components,
            focused,
            notify,
            tickable,
            keys,
            screen,
            poll_state: current,
            num_frame,
            statistics,
        };
    }

    /// Hands out the messages that components asked to get when time passes,
    /// each once and in the order in which they were asked for.
    ///
    /// A message for a component that is no longer mounted is dropped. A
    /// redraw is due afterwards if one of the components that got a message
    /// has asked to be rendered, now or earlier.
    pub fn tick(&mut self)
        ensures
            final(self).root() == old(self).root(),
            ticked(old(self)@, final(self)@),
    {
        proof {
            use_type_invariant(&self.state);
        }
        let mut state = AppRuntime::vacant();
        std::mem::swap(&mut self.state, &mut state);
        let AppRuntime {
            mut components,
            focused,
            notify,
            mut tickable,
            keys,
            screen,
            mut poll_state,
            num_frame,
            statistics,
        } = state;
        let ghost before = components@;
        let ghost subscriptions = tickable@;
        let ghost start = poll_state;
        let mut done: usize = 0;
        let ghost mut tables = seq![before];
        assert(subscriptions.len() == tickable.len());
        while tickable.len() > 0
            invariant
                done + tickable@.len() == subscriptions.len(),
                subscriptions.len() <= usize::MAX,
                distinct(before),
                forall|k: int|
                    0 <= k < tickable@.len() ==> (#[trigger] tickable@[k]).component_id
                        == subscriptions[done + k].component_id,
                tickable@ == subscriptions.skip(done as int),
                ticks_chain(tables, before, components@, subscriptions, done as int),
                all_told(before, components@),
                start matches PollState::Dirty(Some(size)) ==> size.addressable(),
                poll_state == start.merged(
                    if tick_asks_render(components@, subscriptions, done as int) {
                        PollState::Dirty(None)
                    } else {
                        PollState::Clean
                    },
                ),
            decreases tickable@.len(),
        {
            let ghost next = tickable@[0];
            let TickSubscription { component_id, message } = tickable.remove(0);
            let ghost earlier = components@;
            proof {
                assert(next == subscriptions[done as int]);
                assert(tickable@ =~= subscriptions.skip(done as int + 1));
            }
            match position(&components, component_id) {
                Some(i) => {
                    let render = components[i].update(message);
                    if render {
                        poll_state.merge(PollState::Dirty(None));
                    }
                    proof {
                        assert(components@ =~= earlier.update(i as int, components@[i as int]));
                        assert(is_mounted(earlier, component_id));
                        assert(handed(earlier, components@, component_id, next.message));
                        let ghost so_far = tables;
                        tables = tables.push(components@);
                        assert forall|k: int| 0 <= k < done + 1 implies handed(
                            #[trigger] tables[k],
                            tables[k + 1],
                            subscriptions[k].component_id,
                            subscriptions[k].message,
                        ) by {
                            if k < done {
                                assert(tables[k] == so_far[k] && tables[k + 1] == so_far[k + 1]);
                            }
                        }
                        if tick_asks_render(earlier, subscriptions, done as int) {
                            let (k, j) = choose|k: int, j: int|
                                0 <= k < done && 0 <= j < earlier.len() && (
                                #[trigger] earlier[j]).id == (
                                #[trigger] subscriptions[k]).component_id
                                    && earlier[j].should_render;
                            assert(components@[j].id == subscriptions[k].component_id
                                && components@[j].should_render);
                        }
                        if render {
                            assert(components@[i as int].id == subscriptions[done as int].component_id
                                && components@[i as int].should_render);
                        }
                        if tick_asks_render(components@, subscriptions, done as int + 1) {
                            let (k, j) = choose|k: int, j: int|
                                0 <= k < done + 1 && 0 <= j < components@.len() && (
                                #[trigger] components@[j]).id == (
                                #[trigger] subscriptions[k]).component_id
                                    && components@[j].should_render;
                            if !render {
                                if j == i {
                                } else {
                                    assert(earlier[j] == components@[j]);
                                }
                                if k == done {
                                    assert(before[j].id == before[i as int].id);
                                }
                                assert(k < done);
                                assert(earlier[j].id == subscriptions[k].component_id
                                    && earlier[j].should_render);
                            }
                        }
                    }
                },
                None => {
                    proof {
                        assert(handed(earlier, components@, component_id, next.message));
                        let ghost so_far = tables;
                        tables = tables.push(components@);
                        assert forall|k: int| 0 <= k < done + 1 implies handed(
                            #[trigger] tables[k],
                            tables[k + 1],
                            subscriptions[k].component_id,
                            subscriptions[k].message,
                        ) by {
                            if k < done {
                                assert(tables[k] == so_far[k] && tables[k + 1] == so_far[k + 1]);
                            }
                        }
                        if tick_asks_render(components@, subscriptions, done as int + 1) {
                            let (k, j) = choose|k: int, j: int|
                                0 <= k < done + 1 && 0 <= j < components@.len() && (
                                #[trigger] components@[j]).id == (
                                #[trigger] subscriptions[k]).component_id
                                    && components@[j].should_render;
                            if k == done {
                                assert(is_mounted(components@, component_id));
                            }
                            assert(k < done);
                        }
                    }
                },
            }
            done = done + 1;
        }
        proof {
            assert(ticks_chain(tables, before, components@, subscriptions, subscriptions.len() as int));
            assert(same_ids(before, components@));
            lemma_same_ids_keep_subscriptions(before, components@, focused@);
            lemma_same_ids_keep_subscriptions(before, components@, notify@);
        }
        self.state = AppRuntime {
            components,
            focused,
            notify,
            tickable,
            keys,
            screen,
            poll_state,
            num_frame,
            statistics,
        };
    }
}

impl<ComponentT: Component> App<ComponentT> {
    /// What the last walk of the tree found.
    #[inline]
    pub fn statistics(&self) -> (statistics: DrawStatistics)
        ensures
            statistics == self@.statistics,
    {
        self.state.statistics
    }

    /// How many frames were drawn.
    #[inline]
    pub fn num_frame(&self) -> (count: usize)
        ensures
            count == self@.num_frame,
    {
        self.state.num_frame
    }

    /// The chords typed so far that may still become a bound chord.
    #[inline]
    pub fn pending_keys(&self) -> (keys: &[Key])
        ensures
            keys@ == self@.keys,
    {
        self.state.keys.as_slice()
    }

    /// Draws a frame whether one is due or not, and gives the screen.
    ///
    /// A tree that is settled and in which every component is shown is
    /// found as it is: no component is mounted, none is changed and none is
    /// dropped, and the tree is settled still. A walk that reaches no
    /// component twice leaves such a tree; so drawing one frame after
    /// another, with nothing told to a component in between, changes
    /// nothing after the first.
    pub fn redraw(&mut self) -> (canvas: &Canvas)
        requires
            !old(self)@.poll_state.is_exit(),
        ensures
            *canvas == final(self)@.screen,
            final(self).root() == old(self).root(),
            final(self)@.poll_state == PollState::Clean,
            final(self)@.keys == old(self)@.keys,
            final(self)@.screen.extent() == match old(self)@.poll_state {
                PollState::Dirty(Some(size)) => size,
                _ => old(self)@.screen.extent(),
            },
            walk_outcome(
                final(self).root(),
                Rect { origin: Position { x: 0, y: 0 }, size: final(self)@.screen.extent() },
                old(self)@.components,
                final(self)@.components,
                final(self)@.statistics,
            ),
            root_painted(
                final(self)@.screen,
                old(self)@.screen,
                old(self)@.poll_state matches PollState::Dirty(Some(_)),
                final(self).root(),
            ),
            subscribed(
                final(self)@.components,
                final(self)@.focused,
                final(self)@.notify,
                final(self)@.tickable,
            ),
            all_told_from(old(self)@.components, final(self)@.components),
            all_wanted::<ComponentT>(final(self)@.tickable),
            all_asked(final(self)@.components, final(self)@.tickable),
            final(self)@.statistics.revisited == 0 ==> exact(
                final(self)@.components,
                final(self)@.focused,
                final(self)@.notify,
            ),
            final(self)@.statistics.revisited == 0 && visits(final(self)@.statistics) < usize::MAX
                ==> exists|middle: Seq<MountedComponent<ComponentT>>| #[trigger]
                reconciled(
                    final(self).root(),
                    Rect { origin: Position { x: 0, y: 0 }, size: final(self)@.screen.extent() },
                    old(self)@.components,
                    middle,
                    final(self)@.components,
                    final(self)@.tickable,
                    old(self)@.num_frame,
                ),
            final(self)@.statistics.revisited == 0 && visits(final(self)@.statistics) < usize::MAX
                ==> {
                &&& settled(
                    final(self).root(),
                    Rect {
                        origin: Position { x: 0, y: 0 },
                        size: final(self)@.screen.extent(),
                    },
                    final(self)@.components,
                )
                &&& rooted(
                    final(self).root(),
                    Rect {
                        origin: Position { x: 0, y: 0 },
                        size: final(self)@.screen.extent(),
                    },
                    final(self)@.components,
                )
                &&& screen_shows(
                    final(self)@.screen,
                    old(self)@.screen,
                    old(self)@.poll_state matches PollState::Dirty(Some(_)),
                    final(self).root(),
                    final(self)@.components,
                    visits(final(self)@.statistics) as nat,
                )
            },
            settled(
                old(self).root(),
                Rect { origin: Position { x: 0, y: 0 }, size: final(self)@.screen.extent() },
                old(self)@.components,
            ) && rooted(
                old(self).root(),
                Rect { origin: Position { x: 0, y: 0 }, size: final(self)@.screen.extent() },
                old(self)@.components,
            ) && visits(final(self)@.statistics) < usize::MAX ==> {
                &&& final(self)@.statistics.new == 0
                &&& final(self)@.statistics.changed == 0
                &&& final(self)@.statistics.deleted == 0
                &&& calm(old(self)@.components, final(self)@.components)
            },
    {
        self.mark_dirty();
        self.draw()
    }

    /// Draws two frames, one after the other, and gives what the walk for
    /// each found.
    ///
    /// Identities are stable: where the first walk reaches no component
    /// twice, the second finds every component again and none changed. No
    /// component is mounted, none is dropped, and none is asked to render.
    pub fn draw_twice(&mut self) -> (found: (DrawStatistics, DrawStatistics))
        requires
            !old(self)@.poll_state.is_exit(),
        ensures
            final(self).root() == old(self).root(),
            final(self)@.poll_state == PollState::Clean,
            found.1 == final(self)@.statistics,
            // Each of the two walks leaves what every walk leaves.
            exists|between: Seq<MountedComponent<ComponentT>>| #[trigger]
                both_walks(
                    final(self).root(),
                    final(self)@.screen.extent(),
                    old(self)@.components,
                    between,
                    final(self)@.components,
                    found.0,
                    found.1,
                ),
            subscribed(
                final(self)@.components,
                final(self)@.focused,
                final(self)@.notify,
                final(self)@.tickable,
            ),
            found.0.revisited == 0 && visits(found.0) < usize::MAX && visits(found.1) < usize::MAX
                ==> {
                &&& found.1.new == 0
                &&& found.1.changed == 0
                &&& found.1.deleted == 0
                &&& found.1.nop == visits(found.1)
            },
    {
        let _ = self.redraw();
        let first = self.statistics();
        let ghost between = self@.components;
        let _ = self.redraw();
        let second = self.statistics();
        let found = (first, second);
        proof {
            assert(both_walks(
                self.root(),
                self@.screen.extent(),
                old(self)@.components,
                between,
                self@.components,
                found.0,
                found.1,
            ));
        }
        found
    }

    /// Draws a frame, if one is due, and gives the screen.
    ///
    /// Where the application is dirty, the screen first takes its new size,
    /// if it has one; then the tree of components is walked: components
    /// that it declares for the first time are mounted, components that it
    /// declares again are kept and told what changed, every component that
    /// asks for it is rendered, and the components that it no longer
    /// declares are dropped. Where the application is clean nothing
    /// happens. Either way the application is clean afterwards.
    ///
    /// Whatever the components show, every component that the root shows is
    /// mounted afterwards, every mounted component was reached by this walk
    /// and rendered, the ones that stay come before the new ones, and the
    /// statistics count them: see [`walk_outcome`]. The canvases that the
    /// root shows are painted: see [`root_painted`]. The subscriptions hold
    /// what the components ask for: see [`subscribed`].
    ///
    /// Where the walk reaches no component twice, the screen shows what the
    /// canvases hold that the walk came by, a later one over an earlier
    /// one, and what it held before where no canvas covers it: see
    /// [`screen_shows`].
    ///
    /// An application that is about to stop draws no more frames.
    pub fn draw(&mut self) -> (canvas: &Canvas)
        requires
            !old(self)@.poll_state.is_exit(),
        ensures
            *canvas == final(self)@.screen,
            final(self).root() == old(self).root(),
            final(self)@.poll_state == PollState::Clean,
            final(self)@.keys == old(self)@.keys,
            old(self)@.poll_state is Clean ==> final(self)@ == old(self)@,
            old(self)@.poll_state matches PollState::Dirty(resized) ==> {
                &&& final(self)@.screen.extent() == match resized {
                    Some(size) => size,
                    None => old(self)@.screen.extent(),
                }
                &&& forall|j: int|
                    0 <= j < final(self)@.components.len() ==> (
                    #[trigger] final(self)@.components[j]).generation + 1 == final(self)@.num_frame
                &&& final(self)@.num_frame == if old(self)@.num_frame == usize::MAX {
                    1
                } else {
                    old(self)@.num_frame + 1
                }
                &&& walk_outcome(
                    final(self).root(),
                    Rect {
                        origin: Position { x: 0, y: 0 },
                        size: final(self)@.screen.extent(),
                    },
                    old(self)@.components,
                    final(self)@.components,
                    final(self)@.statistics,
                )
                &&& root_painted(
                    final(self)@.screen,
                    old(self)@.screen,
                    resized is Some,
                    final(self).root(),
                )
                &&& subscribed(
                    final(self)@.components,
                    final(self)@.focused,
                    final(self)@.notify,
                    final(self)@.tickable,
                )
                &&& all_told_from(old(self)@.components, final(self)@.components)
                &&& all_wanted::<ComponentT>(final(self)@.tickable)
                &&& all_asked(final(self)@.components, final(self)@.tickable)
                &&& final(self)@.statistics.revisited == 0 ==> exact(
                    final(self)@.components,
                    final(self)@.focused,
                    final(self)@.notify,
                )
                &&& final(self)@.statistics.revisited == 0 && visits(final(self)@.statistics)
                    < usize::MAX ==> exists|middle: Seq<MountedComponent<ComponentT>>| #[trigger]
                    reconciled(
                        final(self).root(),
                        Rect {
                            origin: Position { x: 0, y: 0 },
                            size: final(self)@.screen.extent(),
                        },
                        old(self)@.components,
                        middle,
                        final(self)@.components,
                        final(self)@.tickable,
                        old(self)@.num_frame,
                    )
                &&& forall|i: int|
                    0 <= i < old(self)@.components.len() ==> (is_mounted(
                        final(self)@.components,
                        (#[trigger] old(self)@.components[i]).id,
                    ) || final(self)@.statistics.deleted > 0)
                &&& final(self)@.statistics.revisited == 0 && visits(final(self)@.statistics)
                    < usize::MAX ==> {
                    &&& settled(
                        final(self).root(),
                        Rect {
                            origin: Position { x: 0, y: 0 },
                            size: final(self)@.screen.extent(),
                        },
                        final(self)@.components,
                    )
                    &&& rooted(
                        final(self).root(),
                        Rect {
                            origin: Position { x: 0, y: 0 },
                            size: final(self)@.screen.extent(),
                        },
                        final(self)@.components,
                    )
                    &&& screen_shows(
                        final(self)@.screen,
                        old(self)@.screen,
                        resized is Some,
                        final(self).root(),
                        final(self)@.components,
                        visits(final(self)@.statistics) as nat,
                    )
                }
                &&& settled(
                    old(self).root(),
                    Rect {
                        origin: Position { x: 0, y: 0 },
                        size: final(self)@.screen.extent(),
                    },
                    old(self)@.components,
                ) ==> {
                    &&& final(self)@.statistics.new == 0
                    &&& final(self)@.statistics.changed == 0
                    &&& forall|j: int|
                        0 <= j < final(self)@.components.len() ==> rested_from(
                            old(self)@.components,
                            #[trigger] final(self)@.components[j],
                        )
                }
                &&& settled(
                    old(self).root(),
                    Rect {
                        origin: Position { x: 0, y: 0 },
                        size: final(self)@.screen.extent(),
                    },
                    old(self)@.components,
                ) && rooted(
                    old(self).root(),
                    Rect {
                        origin: Position { x: 0, y: 0 },
                        size: final(self)@.screen.extent(),
                    },
                    old(self)@.components,
                ) && visits(final(self)@.statistics) < usize::MAX ==> {
                    &&& final(self)@.statistics.deleted == 0
                    &&& calm(old(self)@.components, final(self)@.components)
                    &&& settled(
                        final(self).root(),
                        Rect {
                            origin: Position { x: 0, y: 0 },
                            size: final(self)@.screen.extent(),
                        },
                        final(self)@.components,
                    )
                    &&& rooted(
                        final(self).root(),
                        Rect {
                            origin: Position { x: 0, y: 0 },
                            size: final(self)@.screen.extent(),
                        },
                        final(self)@.components,
                    )
                }
            },
    {
        proof {
            use_type_invariant(&self.state);
        }
        let mut state = AppRuntime::vacant();
        std::mem::swap(&mut self.state, &mut state);
        let AppRuntime {
            mut components,
            mut focused,
            mut notify,
            mut tickable,
            keys,
            mut screen,
            poll_state,
            mut num_frame,
            mut statistics,
        } = state;
        let ghost mut handed: Seq<MountedComponent<ComponentT>> = Seq::empty();
        match poll_state {
            PollState::Dirty(maybe_new_size) => {
                match maybe_new_size {
                    Some(new_size) => {
                        screen.resize(new_size);
                    },
                    None => {},
                }
                let frame = Rect::new(Position::new(0, 0), screen.size());
                let ghost base = screen;
                proof {
                    assert forall|x: int, y: int| base.has(x, y) implies #[trigger] base.cell(x, y)
                        == under(maybe_new_size is Some, old(self)@.screen, x, y) by {}
                }
                statistics = draw_tree(
                    &self.root,
                    &self.sender,
                    &mut components,
                    &mut focused,
                    &mut notify,
                    &mut tickable,
                    &mut screen,
                    frame,
                    num_frame,
                );
                let ghost walked = screen;
                if num_frame == usize::MAX {
                    // Start counting the walks afresh.
                    let ghost reached = components@;
                    let mut i: usize = 0;
                    while i < components.len()
                        invariant
                            i <= components@.len(),
                            components@.len() == reached.len(),
                            forall|j: int|
                                0 <= j < components@.len() ==> rested(
                                    reached[j],
                                    #[trigger] components@[j],
                                ) && components@[j].bindings == reached[j].bindings,
                            forall|j: int|
                                0 <= j < i ==> (#[trigger] components@[j]).generation == 0
                                    && components@[j].reached == 0,
                        decreases components@.len() - i,
                    {
                        components[i].set_generation(0);
                        components[i].set_reached(0);
                        i = i + 1;
                    }
                    num_frame = 1;
                    proof {
                        assert forall|j: int| 0 <= j < components@.len() implies (
                        #[trigger] components@[j]).id == reached[j].id by {
                            assert(rested(reached[j], components@[j]));
                        }
                        lemma_outcome_by_ids(
                            self.root,
                            frame,
                            old(self)@.components,
                            reached,
                            components@,
                            statistics,
                        );
                        assert forall|j: int| 0 <= j < components@.len() implies (
                        #[trigger] components@[j]).layout == reached[j].layout
                            && components@[j].frame == reached[j].frame && components@[j].bindings
                            == reached[j].bindings by {
                            assert(rested(reached[j], components@[j]));
                        }
                        lemma_told_same_places(
                            old(self)@.components,
                            old(self)@.components,
                            components@,
                            reached,
                        );
                        assert forall|j: int| 0 <= j < components@.len() implies tick_noted::<
                            ComponentT,
                        >(tickable@, (#[trigger] components@[j]).id) by {
                            assert(tick_noted::<ComponentT>(tickable@, reached[j].id));
                        }
                        if statistics.revisited == 0 && visits(statistics) < usize::MAX {
                            let middle = choose|middle: Seq<MountedComponent<ComponentT>>| #[trigger]
                                reconciled(
                                    self.root,
                                    frame,
                                    old(self)@.components,
                                    middle,
                                    reached,
                                    tickable@,
                                    usize::MAX,
                                );
                            assert forall|j: int| 0 <= j < reached.len() implies #[trigger] components@[j]
                                == (MountedComponent {
                                generation: components@[j].generation,
                                reached: components@[j].reached,
                                ..reached[j]
                            }) by {
                                assert(rested(reached[j], components@[j]));
                            }
                            lemma_reconciled_same(
                                self.root,
                                frame,
                                old(self)@.components,
                                middle,
                                reached,
                                components@,
                                tickable@,
                                usize::MAX,
                            );
                            assert(reconciled(
                                self.root,
                                frame,
                                old(self)@.components,
                                middle,
                                components@,
                                tickable@,
                                old(self)@.num_frame,
                            ));
                            handed = middle;
                        }
                        if statistics.revisited == 0 {
                            assert forall|j: int| 0 <= j < reached.len() implies (
                            #[trigger] components@[j]).id == reached[j].id
                                && components@[j].bindings == reached[j].bindings by {
                                assert(rested(reached[j], components@[j]));
                            }
                            lemma_exact_same(reached, components@, focused@, notify@);
                        }
                        assert(subscribed(components@, focused@, notify@, tickable@)) by {
                            assert forall|j: int|
                                0 <= j < components@.len() && (
                                #[trigger] components@[j]).bindings.has_focus() implies noted_in(
                                focused@,
                                components@[j].id,
                            ) by {
                                assert(rested(reached[j], components@[j]));
                                assert(reached[j].bindings.has_focus());
                            }
                            assert forall|j: int|
                                0 <= j < components@.len() && (
                                #[trigger] components@[j]).bindings.wants_notice() implies noted_in(
                                notify@,
                                components@[j].id,
                            ) by {
                                assert(rested(reached[j], components@[j]));
                                assert(reached[j].bindings.wants_notice());
                            }
                            assert forall|t: int| 0 <= t < tickable@.len() implies is_mounted(
                                components@,
                                (#[trigger] tickable@[t]).component_id,
                            ) by {
                                let id = tickable@[t].component_id;
                                assert(is_mounted(reached, id));
                                let at = choose|at: int|
                                    0 <= at < reached.len() && (#[trigger] reached[at]).id == id;
                                assert(rested(reached[at], components@[at]));
                            }
                        }
                        if statistics.revisited == 0 && visits(statistics) < usize::MAX {
                            assert(calm(reached, components@));
                            lemma_settled_kept(self.root, frame, reached, components@);
                            lemma_rooted_kept(self.root, frame, reached, components@);
                            // The walk goes the same way once the walks
                            // are counted afresh.
                            let first = shown_first(self.root, frame);
                            let steps = visits(statistics) as nat;
                            assert forall|w: int|
                                0 <= w < reached.len() && walked_through(
                                    #[trigger] reached[w],
                                    usize::MAX,
                                ) implies holds_layout(
                                components@,
                                reached[w].id,
                                reached[w].layout,
                            ) by {
                                assert(rested(reached[w], components@[w]));
                            }
                            assert(distinct(components@)) by {
                                assert forall|a: int, b: int|
                                    0 <= a < b < components@.len() implies (
                                #[trigger] components@[a]).id != (#[trigger] components@[b]).id by {
                                    assert(reached[a].id != reached[b].id);
                                }
                            }
                            lemma_walk_kept(reached, components@, first, usize::MAX, steps);
                            lemma_same_walk(reached, components@, first, steps);
                            assert forall|x: int, y: int| walked.has(x, y) implies (
                            #[trigger] walked.cell(x, y)) == shown_cell(
                                self.root,
                                frame,
                                components@,
                                walked.extent(),
                                under(maybe_new_size is Some, old(self)@.screen, x, y),
                                steps,
                                x,
                                y,
                            ) by {
                                assert(base.has(x, y));
                                assert(base.cell(x, y) == under(
                                    maybe_new_size is Some,
                                    old(self)@.screen,
                                    x,
                                    y,
                                ));
                                lemma_same_cell(
                                    reached,
                                    components@,
                                    walked.extent(),
                                    first,
                                    painted_cell(
                                        walked.extent(),
                                        under(maybe_new_size is Some, old(self)@.screen, x, y),
                                        laid_out(&self.root.0, frame, 0),
                                        laid_out(&self.root.0, frame, 0).len() as int,
                                        x,
                                        y,
                                    ),
                                    steps,
                                    x,
                                    y,
                                );
                            }
                        }
                        if settled(self.root, frame, old(self)@.components) && rooted(
                            self.root,
                            frame,
                            old(self)@.components,
                        ) && visits(statistics) < usize::MAX {
                            assert(calm(reached, components@));
                            assert forall|j: int|
                                0 <= j < old(self)@.components.len() implies rested(
                                old(self)@.components[j],
                                #[trigger] components@[j],
                            ) by {
                                assert(rested(old(self)@.components[j], reached[j]));
                                assert(rested(reached[j], components@[j]));
                            }
                            lemma_settled_kept(
                                self.root,
                                frame,
                                old(self)@.components,
                                components@,
                            );
                            lemma_rooted_kept(
                                self.root,
                                frame,
                                old(self)@.components,
                                components@,
                            );
                        }
                        if settled(
                            self.root,
                            frame,
                            old(self)@.components,
                        ) {
                            assert forall|j: int| 0 <= j < components@.len() implies rested_from(
                                old(self)@.components,
                                #[trigger] components@[j],
                            ) by {
                                assert(rested_from(old(self)@.components, reached[j]));
                                let at = choose|at: int|
                                    0 <= at < old(self)@.components.len() && rested(
                                        #[trigger] old(self)@.components[at],
                                        reached[j],
                                    );
                                assert(rested(reached[j], components@[j]));
                                assert(rested(old(self)@.components[at], components@[j]));
                            }
                        }
                        assert forall|k: int| 0 <= k < focused@.len() implies is_mounted(
                            components@,
                            #[trigger] focused@[k],
                        ) by {
                            let at = choose|at: int|
                                0 <= at < reached.len() && (#[trigger] reached[at]).id
                                    == focused@[k];
                            assert(components@[at].id == focused@[k]);
                        }
                        assert forall|k: int| 0 <= k < notify@.len() implies is_mounted(
                            components@,
                            #[trigger] notify@[k],
                        ) by {
                            let at = choose|at: int|
                                0 <= at < reached.len() && (#[trigger] reached[at]).id
                                    == notify@[k];
                            assert(components@[at].id == notify@[k]);
                        }
                        assert forall|a: int, b: int| 0 <= a < b < components@.len() implies (
                        #[trigger] components@[a]).id != (#[trigger] components@[b]).id by {
                            assert(reached[a].id != reached[b].id);
                        }
                        assert forall|i: int| 0 <= i < old(self)@.components.len() implies (
                        is_mounted(components@, (#[trigger] old(self)@.components[i]).id)
                            || statistics.deleted > 0) by {
                            if statistics.deleted == 0 {
                                let at = choose|at: int|
                                    0 <= at < reached.len() && (#[trigger] reached[at]).id == old(
                                        self,
                                    )@.components[i].id;
                                assert(components@[at].id == old(self)@.components[i].id);
                            }
                        }
                    }
                } else {
                    proof {
                        if statistics.revisited == 0 && visits(statistics) < usize::MAX {
                            let middle = choose|middle: Seq<MountedComponent<ComponentT>>| #[trigger]
                                reconciled(
                                    self.root,
                                    frame,
                                    old(self)@.components,
                                    middle,
                                    components@,
                                    tickable@,
                                    num_frame,
                                );
                            assert(reconciled(
                                self.root,
                                frame,
                                old(self)@.components,
                                middle,
                                components@,
                                tickable@,
                                old(self)@.num_frame,
                            ));
                            handed = middle;
                        }
                    }
                    num_frame = num_frame + 1;
                }
            },
            _ => {},
        }
        self.state = AppRuntime {
            components,
            focused,
            notify,
            tickable,
            keys,
            screen,
            poll_state: PollState::Clean,
            num_frame,
            statistics,
        };
        proof {
            if old(self)@.poll_state is Dirty && self@.statistics.revisited == 0 && visits(
                self@.statistics,
            ) < usize::MAX {
                assert(reconciled(
                    self.root(),
                    Rect { origin: Position { x: 0, y: 0 }, size: self@.screen.extent() },
                    old(self)@.components,
                    handed,
                    self@.components,
                    self@.tickable,
                    old(self)@.num_frame,
                ));
            }
        }
        &self.state.screen
    }
}

} // verus!
