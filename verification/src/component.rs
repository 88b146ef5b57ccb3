//! Components and what they are made of: layouts, key bindings, identities.

use std::rc::Rc;
use std::sync::Arc;

use vstd::prelude::*;

use self::bindings::{Bindings, NamedBindingQuery};
use self::layout::{FlexBasis, Item, Layout, LayoutNode};
use self::template::{ComponentId, ComponentKey};
use crate::terminal::{Key, Rect};

pub mod bindings;
pub mod flex;
pub mod layout;
pub mod template;

verus! {

/// Whether a component asks to be rendered again.
#[derive(Clone, Copy, Debug, PartialEq, Eq, Structural)]
pub enum ShouldRender {
    Yes,
    No,
}

impl ShouldRender {
    /// The answer as a truth value.
    pub open spec fn as_bool(self) -> bool {
        self is Yes
    }

    /// The answer as a truth value.
    pub fn to_bool(self) -> (yes: bool)
        ensures
            yes == self.as_bool(),
    {
        match self {
            ShouldRender::Yes => true,
            ShouldRender::No => false,
        }
    }

    /// The answer that stands for a truth value.
    pub fn from_bool(should_render: bool) -> (answer: Self)
        ensures
            answer.as_bool() == should_render,
    {
        if should_render {
            ShouldRender::Yes
        } else {
            ShouldRender::No
        }
    }
}

impl From<ShouldRender> for bool {
    fn from(should_render: ShouldRender) -> (yes: Self) {
        should_render.to_bool()
    }
}

impl vstd::std_specs::convert::FromSpecImpl<ShouldRender> for bool {
    open spec fn obeys_from_spec() -> bool {
        true
    }

    open spec fn from_spec(should_render: ShouldRender) -> Self {
        should_render.as_bool()
    }
}

impl From<bool> for ShouldRender {
    fn from(should_render: bool) -> (answer: Self) {
        if should_render {
            ShouldRender::Yes
        } else {
            ShouldRender::No
        }
    }
}

impl vstd::std_specs::convert::FromSpecImpl<bool> for ShouldRender {
    open spec fn obeys_from_spec() -> bool {
        true
    }

    open spec fn from_spec(should_render: bool) -> Self {
        if should_render {
            ShouldRender::Yes
        } else {
            ShouldRender::No
        }
    }
}

/// What becomes of the sequence of chords typed so far, once a component
/// has seen it.
#[derive(Clone, Copy, Debug, PartialEq, Eq, Structural)]
pub enum BindingTransition {
    /// The sequence is kept: it may be the beginning of a chord.
    Continue,
    /// The sequence is done with.
    Clear,
    /// The sequence is done with and the focus went elsewhere: no other
    /// component gets to see it.
    ChangedFocus,
}

/// What a component makes of the sequence of chords typed so far.
#[derive(Debug, Clone, PartialEq, Eq)]
pub struct BindingMatch<Message> {
    pub transition: BindingTransition,
    pub message: Option<Message>,
}

impl<Message> BindingMatch<Message> {
    /// The sequence is done with, and the component gets `message`, if any.
    pub fn clear(message: Option<Message>) -> (outcome: Self)
        ensures
            outcome.transition == BindingTransition::Clear,
            outcome.message == message,
    {
        Self { transition: BindingTransition::Clear, message }
    }

    /// The sequence is kept for more chords to come.
    pub fn proceed() -> (outcome: Self)
        ensures
            outcome.transition == BindingTransition::Continue,
            outcome.message is None,
    {
        Self { transition: BindingTransition::Continue, message: None }
    }

    /// The focus went elsewhere, and the component gets `message`, if any.
    pub fn changed_focus(message: Option<Message>) -> (outcome: Self)
        ensures
            outcome.transition == BindingTransition::ChangedFocus,
            outcome.message == message,
    {
        Self { transition: BindingTransition::ChangedFocus, message }
    }
}

/// Something that can be called with an input, as a closure can.
pub trait Handler<InputT, OutputT> {
    /// Whether the handler may be called with `input`.
    spec fn accepts(&self, input: InputT) -> bool;

    /// Whether the handler may answer `input` with `output`.
    spec fn yields(&self, input: InputT, output: OutputT) -> bool;

    fn handle(&self, input: InputT) -> (output: OutputT)
        requires
            self.accepts(input),
        ensures
            self.yields(input, output),
    ;
}

impl<InputT, OutputT, FnT: Fn(InputT) -> OutputT> Handler<InputT, OutputT> for FnT {
    open spec fn accepts(&self, input: InputT) -> bool {
        call_requires(*self, (input,))
    }

    open spec fn yields(&self, input: InputT, output: OutputT) -> bool {
        call_ensures(*self, (input,), output)
    }

    fn handle(&self, input: InputT) -> (output: OutputT) {
        (self)(input)
    }
}

/// A callback that can be cloned and handed on, for instance to a child
/// component in its properties.
#[derive(Clone)]
#[verifier::reject_recursive_types(InputT)]
#[verifier::reject_recursive_types(OutputT)]
pub struct Callback<InputT, OutputT = ()>(pub Rc<Box<dyn Handler<InputT, OutputT>>>);

impl<InputT, OutputT> Callback<InputT, OutputT> {
    /// Whether the callback may be called with `value`.
    pub open spec fn accepts(&self, value: InputT) -> bool {
        self.0.accepts(value)
    }

    /// Whether the callback may answer `value` with `output`.
    pub open spec fn yields(&self, value: InputT, output: OutputT) -> bool {
        self.0.yields(value, output)
    }

    /// The callback that calls `function`.
    pub fn new<FnT: Fn(InputT) -> OutputT + 'static>(function: FnT) -> (callback: Self)
        ensures
            forall|value: InputT|
                #[trigger] callback.accepts(value) == call_requires(function, (value,)),
            forall|value: InputT, output: OutputT|
                #[trigger] callback.yields(value, output) == call_ensures(
                    function,
                    (value,),
                    output,
                ),
    {
        let boxed: Box<dyn Handler<InputT, OutputT>> = Box::new(function);
        Callback(Rc::new(boxed))
    }

    /// Calls the callback.
    pub fn emit(&self, value: InputT) -> (output: OutputT)
        requires
            self.accepts(value),
        ensures
            self.yields(value, output),
    {
        self.0.handle(value)
    }

}

/// What a component, through its link, asks of the runtime.
#[verifier::reject_recursive_types(MessageT)]
pub enum LinkMessage<MessageT> {
    /// Hand the message to the component with this identity.
    Component(ComponentId, MessageT),
    /// Stop the application.
    Exit,
    /// Run something that needs the device for itself, and hand what it
    /// answers to the component.
    RunExclusive(ComponentId, Box<dyn Exclusive<MessageT>>),
}

/// Something to run while the application has let go of the device, for
/// instance an editor that takes the terminal. It is run once.
pub trait Exclusive<MessageT>: Send {
    /// Whether it may be run.
    spec fn may_run(&self) -> bool;

    /// Whether it may answer with `message`.
    spec fn gives(&self, message: Option<MessageT>) -> bool;

    fn run(&mut self) -> (message: Option<MessageT>)
        requires
            old(self).may_run(),
        ensures
            old(self).gives(message),
    ;
}

/// A closure to run once.
pub struct Once<FnT>(pub Option<FnT>);

impl<MessageT, FnT: FnOnce() -> Option<MessageT> + Send> Exclusive<MessageT> for Once<FnT> {
    open spec fn may_run(&self) -> bool {
        self.0 matches Some(process) ==> call_requires(process, ())
    }

    open spec fn gives(&self, message: Option<MessageT>) -> bool {
        match self.0 {
            Some(process) => call_ensures(process, (), message),
            None => message is None,
        }
    }

    fn run(&mut self) -> (message: Option<MessageT>) {
        match self.0.take() {
            Some(process) => process(),
            None => None,
        }
    }
}

/// A message on its way from a component's link to the runtime.
#[verifier::reject_recursive_types(MessageT)]
pub struct ComponentMessage<MessageT>(pub LinkMessage<MessageT>);

/// What carries the messages of components to the runtime. The backend
/// that runs the application provides it.
pub trait MessageSender<MessageT>: Send + Sync {
    /// Hands a message over for delivery.
    fn send(&self, message: ComponentMessage<MessageT>);
}

/// A sender that the runtime and the links of its components share.
#[verifier::reject_recursive_types(MessageT)]
pub struct SharedSender<MessageT>(pub Arc<Box<dyn MessageSender<MessageT>>>);

impl<MessageT> SharedSender<MessageT> {
    /// Shares a sender: what is shared is the sender that was given.
    pub fn new(sender: Box<dyn MessageSender<MessageT>>) -> (shared: Self)
        ensures
            shared.0 == sender,
    {
        let shared = Arc::new(sender);
        SharedSender(shared)
    }

    /// Another handle on the same sender. This is `Arc::clone`, which hands
    /// out one more pointer to the value that the first one points to.
    #[verifier::external_body]
    pub(crate) fn share(&self) -> (shared: Self)
        ensures
            shared == *self,
    {
        SharedSender(Arc::clone(&self.0))
    }
}

/// What a component holds on to in order to send messages: to itself, for
/// its `update` to get, or to the runtime, to stop the application.
#[verifier::reject_recursive_types(MessageT)]
pub struct ComponentLink<MessageT> {
    sender: SharedSender<MessageT>,
    component_id: ComponentId,
}

impl<MessageT> ComponentLink<MessageT> {
    /// The identity of the component that the link belongs to.
    pub closed spec fn owner(&self) -> ComponentId {
        self.component_id
    }

    /// A link for the component with the given identity.
    pub fn new(sender: SharedSender<MessageT>, component_id: ComponentId) -> (link: Self)
        ensures
            link.owner() == component_id,
    {
        Self { sender, component_id }
    }

    /// The identity of the component that the link belongs to.
    pub fn component_id(&self) -> (id: ComponentId)
        ensures
            id == self.owner(),
    {
        self.component_id
    }

    /// A message as it goes to the runtime: with the identity of the
    /// component that is to get it.
    pub fn addressed(&self, message: MessageT) -> (sent: ComponentMessage<MessageT>)
        ensures
            sent.0 == LinkMessage::Component(self.owner(), message),
    {
        ComponentMessage(LinkMessage::Component(self.component_id, message))
    }

    /// Sends a message to the component: hands it, addressed, to the
    /// sender of the runtime.
    pub fn send(&self, message: MessageT) {
        self.sender.0.send(self.addressed(message));
    }

    /// Asks the runtime to stop the application. The request is delivered
    /// like any other message: messages that are on their way may still
    /// arrive before the application stops.
    pub fn exit(&self) {
        self.sender.0.send(ComponentMessage(LinkMessage::Exit));
    }

    /// Asks the runtime to run `process` with the device to itself, and to
    /// hand what it answers to the component.
    pub fn run_exclusive<FnT: FnOnce() -> Option<MessageT> + Send + 'static>(&self, process: FnT)
        requires
            call_requires(process, ()),
    {
        let boxed: Box<dyn Exclusive<MessageT>> = Box::new(Once(Some(process)));
        self.sender.0.send(ComponentMessage(LinkMessage::RunExclusive(self.component_id, boxed)));
    }

    /// Another link for the same component.
    pub fn duplicate(&self) -> (copy: Self)
        ensures
            copy.owner() == self.owner(),
    {
        Self { sender: self.sender.share(), component_id: self.component_id }
    }
}

impl<MessageT: 'static> ComponentLink<MessageT> {
    /// A callback that makes a message of its input and sends it to the
    /// component.
    pub fn callback<InputT, FnT: Fn(InputT) -> MessageT + 'static>(&self, convert: FnT) -> (callback:
        Callback<InputT>)
        ensures
            forall|input: InputT|
                #[trigger] callback.accepts(input) == call_requires(convert, (input,)),
            forall|input: InputT| #[trigger] callback.yields(input, ()) == converts(convert, input),
    {
        let boxed: Box<dyn Handler<InputT, ()>> = Box::new(
            LinkCallback { link: self.duplicate(), convert },
        );
        Callback(Rc::new(boxed))
    }
}

/// Whether `convert` answers `input` with a message: what holds once it was
/// called with the input and has come back.
pub open spec fn converts<InputT, MessageT, FnT: Fn(InputT) -> MessageT>(
    convert: FnT,
    input: InputT,
) -> bool {
    exists|message: MessageT| #[trigger] call_ensures(convert, (input,), message)
}

/// What a callback of a link calls: it makes a message of its input and
/// sends it through the link.
#[verifier::reject_recursive_types(MessageT)]
pub struct LinkCallback<MessageT, FnT> {
    pub link: ComponentLink<MessageT>,
    pub convert: FnT,
}

impl<InputT, MessageT, FnT: Fn(InputT) -> MessageT> Handler<InputT, ()> for LinkCallback<
    MessageT,
    FnT,
> {
    open spec fn accepts(&self, input: InputT) -> bool {
        call_requires(self.convert, (input,))
    }

    open spec fn yields(&self, input: InputT, output: ()) -> bool {
        converts(self.convert, input)
    }

    fn handle(&self, input: InputT) -> (output: ()) {
        let message = (self.convert)(input);
        self.link.send(message);
    }
}

/// A stateful part of the user interface.
///
/// What a component does is its own: the runtime knows of it what the
/// component says of itself, through the relations `created`, `shows`,
/// `changed`, `resized`, `updated`, `bound` and `ticks`. The contracts of
/// the runtime state, over these, what each component was handed and what
/// was made of its answers.
///
/// The runtime creates a component where a layout first declares it, keeps
/// it for as long as layouts declare it at the same place, and drops it
/// when none does any more. In between it tells the component of new
/// properties, of a new region on the screen and of messages, and asks it
/// to render where one of those made it ask for that.
pub trait Component: Sized {
    /// What the component is told through its link.
    type Message;

    /// What the layout that declares the component hands to it.
    type Properties;

    /// Whether `made` is a component that `create` may make from the
    /// properties, in the region, with a link for the component that goes
    /// by `owner`. A component that says nothing of itself leaves this as
    /// it is.
    open spec fn created(
        properties: Self::Properties,
        frame: Rect,
        owner: ComponentId,
        made: Self,
    ) -> bool {
        true
    }

    /// Whether the component may show `layout`.
    open spec fn shows(&self, layout: Layout<Self::Properties>) -> bool {
        true
    }

    /// Whether new properties may make `after` of the component `before`,
    /// with `answer` for whether it is to be rendered.
    open spec fn changed(
        before: Self,
        properties: Self::Properties,
        after: Self,
        answer: ShouldRender,
    ) -> bool {
        true
    }

    /// Whether a new region may make `after` of the component `before`,
    /// with `answer` for whether it is to be rendered.
    open spec fn resized(before: Self, frame: Rect, after: Self, answer: ShouldRender) -> bool {
        true
    }

    /// Whether a message may make `after` of the component `before`, with
    /// `answer` for whether it is to be rendered.
    open spec fn updated(
        before: Self,
        message: Self::Message,
        after: Self,
        answer: ShouldRender,
    ) -> bool {
        true
    }

    /// Whether the component may make the bindings `after` of the bindings
    /// `before`.
    open spec fn bound(&self, before: Bindings<Self>, after: Bindings<Self>) -> bool {
        true
    }

    /// Whether the component may ask for `message` when time passes, or,
    /// with `None`, for nothing.
    open spec fn ticks(&self, message: Option<Self::Message>) -> bool {
        true
    }

    /// Makes the component from the properties that its declaration holds,
    /// the region that the layout gives it and a link to send messages with.
    fn create(properties: &Self::Properties, frame: Rect, link: ComponentLink<Self::Message>) -> (made:
        Self)
        ensures
            Self::created(*properties, frame, link.owner(), made),
    ;

    /// What the component shows.
    fn view(&self) -> (layout: Layout<Self::Properties>)
        ensures
            self.shows(layout),
    ;

    /// The kind that a component with the given properties is of. It goes
    /// into the identity of the component: components of different kinds
    /// that are declared at the same place are different components.
    fn kind(properties: &Self::Properties) -> u64 {
        0
    }

    /// Takes new properties, after the component that declares this one was
    /// rendered again.
    fn change(&mut self, properties: &Self::Properties) -> (answer: ShouldRender)
        ensures
            Self::changed(*old(self), *properties, *final(self), answer),
    ;

    /// Takes a new region on the screen.
    fn resize(&mut self, frame: Rect) -> (answer: ShouldRender)
        ensures
            Self::resized(*old(self), frame, *final(self), answer),
    ;

    /// Takes a message.
    fn update(&mut self, message: Self::Message) -> (answer: ShouldRender)
        ensures
            Self::updated(*old(self), message, *final(self), answer),
    ;

    /// Brings the key bindings of the component up to date. The runtime
    /// calls this on every walk of the tree.
    fn bindings(&self, bindings: &mut Bindings<Self>)
        ensures
            self.bound(*old(bindings), *final(bindings)),
    ;

    /// Takes note of what the keymaps of the focused components made of the
    /// chords typed so far. Only components that asked to be notified are
    /// told.
    fn notify_binding_queries(&self, queries: &[Option<NamedBindingQuery>], keys: &[Key]) {
    }

    /// The message that the component wants to get when time passes, if it
    /// wants any.
    fn tick(&self) -> (message: Option<Self::Message>)
        ensures
            self.ticks(message),
    ;
}

/// Declaring components in layouts.
pub trait ComponentExt: Component {
    /// The layout that is one component with the given properties.
    fn with(properties: Self::Properties) -> (layout: Layout<Self::Properties>)
        ensures
            layout.0 matches LayoutNode::Component(template) && template.key is None
                && template.properties == properties,
    {
        let kind = Self::kind(&properties);
        Layout::component(kind, properties)
    }

    /// The layout that is one component with the given properties, told
    /// from its siblings of the same kind by `key`. With a key, a component
    /// is found again where the number of its siblings changes.
    fn with_key(key: ComponentKey, properties: Self::Properties) -> (layout: Layout<
        Self::Properties,
    >)
        ensures
            layout.0 matches LayoutNode::Component(template) && template.key == Some(key)
                && template.properties == properties,
    {
        let kind = Self::kind(&properties);
        Layout::component_with_key(kind, key, properties)
    }

    /// An item that is one component with the given properties.
    fn item_with(flex: FlexBasis, properties: Self::Properties) -> (item: Item<Self::Properties>)
        ensures
            item.flex == flex,
            item.node.0 matches LayoutNode::Component(template) && template.key is None
                && template.properties == properties,
    {
        Item { flex, node: Self::with(properties) }
    }

    /// An item that is one component with the given properties and key.
    fn item_with_key(flex: FlexBasis, key: ComponentKey, properties: Self::Properties) -> (item:
        Item<Self::Properties>)
        ensures
            item.flex == flex,
            item.node.0 matches LayoutNode::Component(template) && template.key == Some(key)
                && template.properties == properties,
    {
        Item { flex, node: Self::with_key(key, properties) }
    }
}

impl<ComponentT: Component> ComponentExt for ComponentT {

}

} // verus!
