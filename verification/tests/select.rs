use std::rc::Rc;

use zi::components::select::{
    bring_into_view, count_shown, input_binding, select_after, Message, Select, SelectProperties,
};
use zi::{
    BindingMatch, BindingTransition, Callback, Canvas, FlexDirection, Item, Key, Layout,
    LayoutNode, Position, Rect, ShouldRender, Size,
};

#[test]
fn the_selection_moves_and_stops_at_the_ends() {
    assert_eq!(select_after(Message::NextItem, false, 3, 10, 4), 4);
    assert_eq!(select_after(Message::NextItem, false, 9, 10, 4), 9);
    assert_eq!(select_after(Message::PreviousItem, false, 0, 10, 4), 0);
    assert_eq!(select_after(Message::PreviousItem, false, 3, 10, 4), 2);
    assert_eq!(select_after(Message::FirstItem, false, 3, 10, 4), 0);
    assert_eq!(select_after(Message::LastItem, false, 3, 10, 4), 9);
    assert_eq!(select_after(Message::NextPage, false, 3, 10, 4), 7);
    assert_eq!(select_after(Message::NextPage, false, 8, 10, 4), 9);
    assert_eq!(select_after(Message::PreviousPage, false, 3, 10, 4), 0);
    assert_eq!(select_after(Message::PreviousPage, false, 7, 10, 4), 3);
    assert_eq!(select_after(Message::NextItem, false, 0, 0, 4), 0);
    assert_eq!(select_after(Message::NextItem, false, usize::MAX, usize::MAX, 4), usize::MAX - 1);
}

#[test]
fn a_reversed_list_swaps_next_and_previous() {
    assert_eq!(select_after(Message::NextItem, true, 3, 10, 4), 2);
    assert_eq!(select_after(Message::PreviousItem, true, 3, 10, 4), 4);
    assert_eq!(select_after(Message::FirstItem, true, 3, 10, 4), 9);
    assert_eq!(select_after(Message::LastItem, true, 3, 10, 4), 0);
    assert_eq!(select_after(Message::NextPage, true, 7, 10, 4), 3);
    assert_eq!(select_after(Message::PreviousPage, true, 3, 10, 4), 7);
}

#[test]
fn the_selected_item_is_brought_into_view() {
    assert_eq!(bring_into_view(0, 0, 5), 0);
    assert_eq!(bring_into_view(0, 3, 5), 0);
    assert_eq!(bring_into_view(0, 4, 5), 0);
    assert_eq!(bring_into_view(0, 9, 5), 5);
    assert_eq!(bring_into_view(7, 2, 5), 2);
    assert_eq!(bring_into_view(3, 9, 1), 9);
    assert_eq!(bring_into_view(3, 9, 0), 9);
}

#[test]
fn as_many_items_are_shown_as_fit() {
    assert_eq!(count_shown(10, 0, 6, 2), 3);
    assert_eq!(count_shown(10, 8, 6, 2), 2);
    assert_eq!(count_shown(10, 12, 6, 2), 0);
    assert_eq!(count_shown(10, 0, 1, 2), 0);
}

#[test]
fn keys_stand_for_messages() {
    assert_eq!(input_binding(&[Key::Ctrl('n')]), BindingMatch::clear(Some(Message::NextItem)));
    assert_eq!(input_binding(&[Key::Down]), BindingMatch::clear(Some(Message::NextItem)));
    assert_eq!(input_binding(&[Key::Ctrl('p')]), BindingMatch::clear(Some(Message::PreviousItem)));
    assert_eq!(input_binding(&[Key::Up]), BindingMatch::clear(Some(Message::PreviousItem)));
    assert_eq!(input_binding(&[Key::Alt('<')]), BindingMatch::clear(Some(Message::FirstItem)));
    assert_eq!(input_binding(&[Key::Alt('>')]), BindingMatch::clear(Some(Message::LastItem)));
    assert_eq!(input_binding(&[Key::Ctrl('v')]), BindingMatch::clear(Some(Message::NextPage)));
    assert_eq!(input_binding(&[Key::PageDown]), BindingMatch::clear(Some(Message::NextPage)));
    assert_eq!(input_binding(&[Key::Alt('v')]), BindingMatch::clear(Some(Message::PreviousPage)));
    assert_eq!(input_binding(&[Key::PageUp]), BindingMatch::clear(Some(Message::PreviousPage)));
    assert_eq!(input_binding(&[Key::Ctrl('x')]), BindingMatch::proceed());
    assert_eq!(input_binding(&[Key::Ctrl('x')]).transition, BindingTransition::Continue);
    assert_eq!(input_binding(&[Key::Char('n')]), BindingMatch::clear(None));
    assert_eq!(input_binding(&[Key::Ctrl('n'), Key::Ctrl('n')]), BindingMatch::clear(None));
    assert_eq!(input_binding(&[]), BindingMatch::clear(None));
    assert_eq!(
        BindingMatch::changed_focus(Some(Message::LastItem)).transition,
        BindingTransition::ChangedFocus
    );
}

fn properties(selected: usize, changes: Rc<std::cell::RefCell<Vec<usize>>>) -> SelectProperties<usize> {
    SelectProperties {
        direction: FlexDirection::Column,
        focused: true,
        item_at: Callback::new(|index: usize| Item::fixed(2, Layout::component(1, index))),
        num_items: 10,
        item_size: 2,
        selected,
        on_change: Some(Callback::new(move |index: usize| changes.borrow_mut().push(index))),
    }
}

#[test]
fn a_list_shows_the_items_in_view_and_tells_of_changes() {
    let changes = Rc::new(std::cell::RefCell::new(Vec::new()));
    let frame = Rect::new(Position::new(0, 0), Size::new(10, 7));
    let mut select = Select::create(properties(5, changes.clone()), frame);
    assert!(select.has_focus());
    assert!(!select.is_reversed());
    // Three items fit: the selected one is shown last but one.
    assert_eq!(select.offset, 3);

    let spacer = Item::auto(Layout::canvas(Canvas::new(Size::new(0, 0))));
    match select.view(spacer).0 {
        LayoutNode::Container(container) => {
            assert_eq!(container.direction, FlexDirection::Column);
            let shown: Vec<Option<usize>> = container
                .children
                .iter()
                .map(|item| match &item.node.0 {
                    LayoutNode::Component(template) => Some(template.properties),
                    _ => None,
                })
                .collect();
            assert_eq!(shown, vec![Some(3), Some(4), Some(5), None]);
        }
        _ => panic!("a list shows a container"),
    }

    assert_eq!(select.update(Message::NextItem), ShouldRender::No);
    assert_eq!(select.update(Message::LastItem), ShouldRender::No);
    assert_eq!(*changes.borrow(), vec![6, 9]);

    assert_eq!(select.change(properties(9, changes.clone())), ShouldRender::Yes);
    assert_eq!(select.offset, 7);
    // With more room the view stays where it is: the selected item is in it.
    assert_eq!(select.resize(Rect::new(Position::new(0, 0), Size::new(10, 20))), ShouldRender::Yes);
    assert_eq!(select.offset, 7);
}

#[test]
fn the_owner_is_told_of_another_item_only() {
    let changes = Rc::new(std::cell::RefCell::new(Vec::new()));
    let frame = Rect::new(Position::new(0, 0), Size::new(10, 7));
    let select = Select::create(properties(9, changes.clone()), frame);
    assert_eq!(select.announce(Message::NextItem), None);
    assert_eq!(select.announce(Message::LastItem), None);
    assert_eq!(select.announce(Message::PreviousItem), Some(8));
    assert_eq!(select.announce(Message::FirstItem), Some(0));
    assert_eq!(select.announce(Message::PreviousPage), Some(2));
    assert!(changes.borrow().is_empty());
    // An item that stays selected is not told of.
    assert_eq!(select.update(Message::NextItem), ShouldRender::No);
    assert!(changes.borrow().is_empty());
    assert_eq!(select.update(Message::PreviousItem), ShouldRender::No);
    assert_eq!(*changes.borrow(), vec![8]);
}
