//! A retained-mode runtime for user interfaces drawn on a grid of character
//! cells.
//!
//! An application declares a tree of stateful components. The runtime in
//! [`app`] mounts them, keeps them alive across frames, lays them out and
//! composes what they render into one screen-sized [`Canvas`]. Every function
//! of the library carries a contract that Verus proves.

pub mod app;
pub mod component;
pub mod components;
pub mod raster;
pub mod scheduler;
pub mod small;
pub mod terminal;
pub mod text;

pub use app::{
    App, AppRuntime, DrawStatistics, MountedComponent, PollState, Snapshot, TickSubscription,
};
pub use component::bindings::{
    AnyCharacter, BindingBuilder, BindingConflict, BindingQuery, Bindings, Command, CommandFn,
    CommandId, DynamicBindings, EndsWith, KeyPattern, Keymap, NamedBindingQuery,
};
pub use component::layout::{
    Container, FlexBasis, FlexDirection, Item, Laid, Layout, LayoutNode, Span, Template,
};
pub use component::template::{ComponentId, ComponentKey};
pub use component::{
    BindingMatch, BindingTransition, Callback, Component, ComponentExt, ComponentLink,
    ComponentMessage, Exclusive, Handler, LinkMessage, MessageSender, Once, SharedSender,
    ShouldRender,
};
pub use terminal::canvas::{AnsiColor, BaseColor, Canvas, Colour, RgbColor, Style, Textel};
pub use terminal::{Event, Key, Position, Rect, Size};
