//! A list of items of which one is selected and as many are shown as fit.
//!
//! `Select` keeps the selected item in view. It is a building block: a
//! component holds one, hands it what it is told, and shows the layout that
//! it makes.

use vstd::prelude::*;

use crate::component::layout::{FlexDirection, Item, Layout};
use crate::component::{BindingMatch, BindingTransition, Callback, ShouldRender};
use crate::terminal::{Key, Rect};

verus! {

/// What a list of items is asked to do.
#[derive(Clone, Copy, Debug, PartialEq, Eq, Structural)]
pub enum Message {
    NextItem,
    PreviousItem,
    FirstItem,
    LastItem,
    NextPage,
    PreviousPage,
}

/// The smaller of two numbers.
pub open spec fn least(a: int, b: int) -> int {
    if a <= b {
        a
    } else {
        b
    }
}

/// The item that is selected after `message`, in a list of `num_items`
/// items of which `selected` is selected and a page holds `page` items. In
/// a list that runs the other way, next and previous, first and last change
/// places.
pub open spec fn selection_after(
    message: Message,
    reversed: bool,
    selected: usize,
    num_items: usize,
    page: usize,
) -> int {
    let last = if num_items > 0 {
        num_items - 1
    } else {
        0
    };
    let forward = match message {
        Message::NextItem | Message::LastItem | Message::NextPage => !reversed,
        Message::PreviousItem | Message::FirstItem | Message::PreviousPage => reversed,
    };
    match message {
        Message::NextItem | Message::PreviousItem => if forward {
            least(selected + 1, last)
        } else if selected > 0 {
            selected - 1
        } else {
            0
        },
        Message::FirstItem | Message::LastItem => if forward {
            last
        } else {
            0
        },
        Message::NextPage | Message::PreviousPage => if forward {
            least(selected + page, last)
        } else if selected > page {
            selected - page
        } else {
            0
        },
    }
}

/// Computes the item that is selected after `message`.
pub fn select_after(
    message: Message,
    reversed: bool,
    selected: usize,
    num_items: usize,
    page: usize,
) -> (next: usize)
    ensures
        next == selection_after(message, reversed, selected, num_items, page),
        selected < num_items ==> next < num_items,
{
    let last = num_items.saturating_sub(1);
    match (message, reversed) {
        (Message::NextItem, false) | (Message::PreviousItem, true) => {
            let next = selected.saturating_add(1);
            if next <= last {
                next
            } else {
                last
            }
        },
        (Message::PreviousItem, false) | (Message::NextItem, true) => selected.saturating_sub(1),
        (Message::FirstItem, false) | (Message::LastItem, true) => 0,
        (Message::LastItem, false) | (Message::FirstItem, true) => last,
        (Message::NextPage, false) | (Message::PreviousPage, true) => {
            let next = selected.saturating_add(page);
            if next <= last {
                next
            } else {
                last
            }
        },
        (Message::PreviousPage, false) | (Message::NextPage, true) => selected.saturating_sub(page),
    }
}

/// The first item that is shown once the selected one is brought into
/// view, where `offset` was the first and `visible` items fit. The view is
/// moved as little as it takes, except that the selected item is never the
/// last one shown unless it is the only one that fits.
pub open spec fn offset_in_view(offset: usize, selected: usize, visible: usize) -> int {
    let first = least(offset as int, selected as int);
    let room = if visible > 0 {
        visible - 1
    } else {
        0
    };
    if selected - first >= room {
        if visible > 0 {
            selected + 1 - visible
        } else {
            selected as int
        }
    } else {
        first
    }
}

/// Computes the first item to show for the selected one to be in view.
pub fn bring_into_view(offset: usize, selected: usize, visible: usize) -> (first: usize)
    ensures
        first == offset_in_view(offset, selected, visible),
        first <= selected,
        visible > 0 ==> selected < first + visible,
{
    let first = if offset <= selected {
        offset
    } else {
        selected
    };
    if selected - first >= visible.saturating_sub(1) {
        if visible > 0 {
            selected - (visible - 1)
        } else {
            selected
        }
    } else {
        first
    }
}

/// How many items are shown: as many as fit, if there are that many from
/// the first one shown on.
pub open spec fn shown_items(num_items: usize, offset: usize, height: usize, item_size: usize)
    -> int {
    least(
        if num_items > offset {
            num_items - offset
        } else {
            0
        },
        height as int / item_size as int,
    )
}

/// Computes how many items are shown.
pub fn count_shown(num_items: usize, offset: usize, height: usize, item_size: usize) -> (shown:
    usize)
    requires
        item_size > 0,
    ensures
        shown == shown_items(num_items, offset, height, item_size),
        shown * item_size <= height,
        offset + shown <= usize::MAX,
{
    let left = num_items.saturating_sub(offset);
    let fit = height / item_size;
    let shown = if left <= fit {
        left
    } else {
        fit
    };
    assert(shown * item_size <= height) by (nonlinear_arith)
        requires
            shown <= height / item_size,
            item_size > 0,
    ;
    shown
}

/// What a list of items makes of the chords typed so far.
pub open spec fn binding_for(pressed: Seq<Key>) -> BindingMatch<Message> {
    if pressed.len() != 1 {
        BindingMatch { transition: BindingTransition::Clear, message: None }
    } else {
        match pressed[0] {
            Key::Ctrl(character) => if character == 'n' {
                BindingMatch {
                    transition: BindingTransition::Clear,
                    message: Some(Message::NextItem),
                }
            } else if character == 'p' {
                BindingMatch {
                    transition: BindingTransition::Clear,
                    message: Some(Message::PreviousItem),
                }
            } else if character == 'v' {
                BindingMatch {
                    transition: BindingTransition::Clear,
                    message: Some(Message::NextPage),
                }
            } else if character == 'x' {
                BindingMatch { transition: BindingTransition::Continue, message: None }
            } else {
                BindingMatch { transition: BindingTransition::Clear, message: None }
            },
            Key::Alt(character) => if character == '<' {
                BindingMatch {
                    transition: BindingTransition::Clear,
                    message: Some(Message::FirstItem),
                }
            } else if character == '>' {
                BindingMatch {
                    transition: BindingTransition::Clear,
                    message: Some(Message::LastItem),
                }
            } else if character == 'v' {
                BindingMatch {
                    transition: BindingTransition::Clear,
                    message: Some(Message::PreviousPage),
                }
            } else {
                BindingMatch { transition: BindingTransition::Clear, message: None }
            },
            Key::Down => BindingMatch {
                transition: BindingTransition::Clear,
                message: Some(Message::NextItem),
            },
            Key::Up => BindingMatch {
                transition: BindingTransition::Clear,
                message: Some(Message::PreviousItem),
            },
            Key::PageDown => BindingMatch {
                transition: BindingTransition::Clear,
                message: Some(Message::NextPage),
            },
            Key::PageUp => BindingMatch {
                transition: BindingTransition::Clear,
                message: Some(Message::PreviousPage),
            },
            _ => BindingMatch { transition: BindingTransition::Clear, message: None },
        }
    }
}

/// Tells what a list of items makes of the chords typed so far: which
/// message they stand for, if any, and whether they may be the beginning of
/// a chord.
pub fn input_binding(pressed: &[Key]) -> (binding: BindingMatch<Message>)
    ensures
        binding == binding_for(pressed@),
{
    if pressed.len() != 1 {
        return BindingMatch::clear(None);
    }
    match pressed[0] {
        Key::Ctrl(character) => {
            if character == 'n' {
                BindingMatch::clear(Some(Message::NextItem))
            } else if character == 'p' {
                BindingMatch::clear(Some(Message::PreviousItem))
            } else if character == 'v' {
                BindingMatch::clear(Some(Message::NextPage))
            } else if character == 'x' {
                BindingMatch::proceed()
            } else {
                BindingMatch::clear(None)
            }
        },
        Key::Alt(character) => {
            if character == '<' {
                BindingMatch::clear(Some(Message::FirstItem))
            } else if character == '>' {
                BindingMatch::clear(Some(Message::LastItem))
            } else if character == 'v' {
                BindingMatch::clear(Some(Message::PreviousPage))
            } else {
                BindingMatch::clear(None)
            }
        },
        Key::Down => BindingMatch::clear(Some(Message::NextItem)),
        Key::Up => BindingMatch::clear(Some(Message::PreviousItem)),
        Key::PageDown => BindingMatch::clear(Some(Message::NextPage)),
        Key::PageUp => BindingMatch::clear(Some(Message::PreviousPage)),
        _ => BindingMatch::clear(None),
    }
}

/// What a list of items is made with.
#[verifier::reject_recursive_types(P)]
pub struct SelectProperties<P> {
    /// In which direction the items follow one another.
    pub direction: FlexDirection,
    /// Whether the list takes the chords that are typed.
    pub focused: bool,
    /// Makes the item at a place in the list.
    pub item_at: Callback<usize, Item<P>>,
    /// How many items the list has.
    pub num_items: usize,
    /// How much room an item takes along the list; at least one cell.
    pub item_size: usize,
    /// The place of the selected item.
    pub selected: usize,
    /// What to call when another item is selected.
    pub on_change: Option<Callback<usize>>,
}

impl<P> SelectProperties<P> {
    /// Whether the list can be made with the properties: an item takes
    /// room, and every item can be made.
    pub open spec fn valid(self) -> bool {
        &&& self.item_size > 0
        &&& forall|index: usize| #[trigger] self.item_at.accepts(index)
        &&& self.on_change matches Some(on_change) ==> forall|index: usize|
            #[trigger] on_change.accepts(index)
    }
}

/// A list of items of which one is selected and as many are shown as fit.
#[verifier::reject_recursive_types(P)]
pub struct Select<P> {
    pub properties: SelectProperties<P>,
    pub frame: Rect,
    pub offset: usize,
}

impl<P> Select<P> {
    /// Whether the list runs from the last item to the first.
    pub fn is_reversed(&self) -> (reversed: bool)
        ensures
            reversed == self.properties.direction.reversed(),
    {
        self.properties.direction.is_reversed()
    }

    /// Whether the list takes the chords that are typed.
    pub fn has_focus(&self) -> (focused: bool)
        ensures
            focused == self.properties.focused,
    {
        self.properties.focused
    }

    /// Brings the selected item into view.
    pub fn ensure_selected_item_in_view(&mut self)
        requires
            old(self).properties.item_size > 0,
        ensures
            final(self).properties == old(self).properties,
            final(self).frame == old(self).frame,
            final(self).offset == offset_in_view(
                old(self).offset,
                old(self).properties.selected,
                (old(self).frame.size.height / old(self).properties.item_size) as usize,
            ),
    {
        let num_visible_items = self.frame.size.height / self.properties.item_size;
        self.offset = bring_into_view(self.offset, self.properties.selected, num_visible_items);
    }

    /// A list with the given properties in the given region, with the
    /// selected item in view.
    pub fn create(properties: SelectProperties<P>, frame: Rect) -> (select: Self)
        requires
            properties.item_size > 0,
        ensures
            select.properties == properties,
            select.frame == frame,
            select.offset == offset_in_view(
                0,
                properties.selected,
                (frame.size.height / properties.item_size) as usize,
            ),
    {
        let mut select = Self { properties, frame, offset: 0 };
        select.ensure_selected_item_in_view();
        select
    }

    /// Takes new properties and brings the selected item into view.
    pub fn change(&mut self, properties: SelectProperties<P>) -> (render: ShouldRender)
        requires
            properties.item_size > 0,
        ensures
            render == ShouldRender::Yes,
            final(self).properties == properties,
            final(self).frame == old(self).frame,
            final(self).offset == offset_in_view(
                old(self).offset,
                properties.selected,
                (old(self).frame.size.height / properties.item_size) as usize,
            ),
    {
        self.properties = properties;
        self.ensure_selected_item_in_view();
        ShouldRender::Yes
    }

    /// Takes a new region and brings the selected item into view.
    pub fn resize(&mut self, frame: Rect) -> (render: ShouldRender)
        requires
            old(self).properties.item_size > 0,
        ensures
            render == ShouldRender::Yes,
            final(self).properties == old(self).properties,
            final(self).frame == frame,
            final(self).offset == offset_in_view(
                old(self).offset,
                old(self).properties.selected,
                (frame.size.height / old(self).properties.item_size) as usize,
            ),
    {
        self.frame = frame;
        self.ensure_selected_item_in_view();
        ShouldRender::Yes
    }

    /// The item that the owner of the list is told of when the list takes
    /// `message`: the item that is to be selected then, if it is another
    /// than the selected one.
    pub open spec fn announced(self, message: Message) -> Option<usize> {
        let next = selection_after(
            message,
            self.properties.direction.reversed(),
            self.properties.selected,
            self.properties.num_items,
            self.frame.size.height,
        );
        if next != self.properties.selected {
            Some(next as usize)
        } else {
            None
        }
    }

    /// Computes the item that the owner of the list is to be told of when
    /// the list takes `message`.
    pub fn announce(&self, message: Message) -> (item: Option<usize>)
        ensures
            item == self.announced(message),
    {
        let current_selected = self.properties.selected;
        let new_selected = select_after(
            message,
            self.is_reversed(),
            current_selected,
            self.properties.num_items,
            self.frame.size.height,
        );
        if current_selected != new_selected {
            Some(new_selected)
        } else {
            None
        }
    }

    /// Takes a message: tells the owner of the list which item is to be
    /// selected, if it is another than the selected one. The list itself
    /// stays as it is until it is handed new properties, and does not ask
    /// to be rendered.
    ///
    /// Where the owner is told, its callback was called with the item and
    /// has answered.
    pub fn update(&self, message: Message) -> (render: ShouldRender)
        requires
            self.properties.valid(),
        ensures
            render == ShouldRender::No,
            self.announced(message) matches Some(item) ==> (self.properties.on_change matches Some(
                on_change,
            ) ==> on_change.yields(item, ())),
    {
        match self.announce(message) {
            Some(item) => {
                match &self.properties.on_change {
                    Some(on_change) => {
                        on_change.emit(item);
                    },
                    None => {},
                }
            },
            None => {},
        }
        ShouldRender::No
    }

    /// What the list shows: the items from the first one in view on, as
    /// many as fit, and after them `spacer`, if there is room left.
    pub fn view(&self, spacer: Item<P>) -> (layout: Layout<P>)
        requires
            self.properties.valid(),
        ensures
            layout.0 matches crate::component::layout::LayoutNode::Container(container) && {
                let shown = shown_items(
                    self.properties.num_items,
                    self.offset,
                    self.frame.size.height,
                    self.properties.item_size,
                );
                let room_left = self.properties.item_size * shown < self.frame.size.height;
                &&& container.direction == self.properties.direction
                &&& container.children@.len() == if room_left {
                    shown + 1
                } else {
                    shown
                }
                &&& forall|index: int|
                    0 <= index < shown ==> self.properties.item_at.yields(
                        (self.offset + index) as usize,
                        #[trigger] container.children@[index],
                    )
                &&& room_left ==> container.children@[shown] == spacer
            },
    {
        let num_visible_items = count_shown(
            self.properties.num_items,
            self.offset,
            self.frame.size.height,
            self.properties.item_size,
        );
        let mut items: Vec<Item<P>> = Vec::new();
        let mut index: usize = 0;
        while index < num_visible_items
            invariant
                index <= num_visible_items,
                self.offset + num_visible_items <= usize::MAX,
                self.properties.valid(),
                items@.len() == index,
                forall|at: int|
                    0 <= at < index ==> self.properties.item_at.yields(
                        (self.offset + at) as usize,
                        #[trigger] items@[at],
                    ),
            decreases num_visible_items - index,
        {
            items.push(self.properties.item_at.emit(self.offset + index));
            index = index + 1;
        }
        if self.properties.item_size * num_visible_items < self.frame.size.height {
            items.push(spacer);
        }
        Layout::container(self.properties.direction, items)
    }
}

} // verus!
