use zi::{Event, Key, Position, Rect, Size};

#[test]
fn a_character_becomes_a_key_with_its_modifiers() {
    assert_eq!(Key::from_char('a', false, false), Key::Char('a'));
    assert_eq!(Key::from_char('a', true, false), Key::Ctrl('a'));
    assert_eq!(Key::from_char('a', false, true), Key::Alt('a'));
    assert!(Key::Char('q').is_char());
    assert!(!Key::Ctrl('q').is_char());
    assert!(!Key::Esc.is_char());
}

#[test]
fn a_grid_is_addressable_where_its_area_fits() {
    assert!(Size::new(80, 24).is_addressable());
    assert!(Size::new(0, usize::MAX).is_addressable());
    assert!(Size::new(1, usize::MAX).is_addressable());
    assert!(!Size::new(2, usize::MAX).is_addressable());
    assert!(!Size::new(usize::MAX, usize::MAX).is_addressable());
}

#[test]
fn a_region_is_representable_where_its_far_corner_is() {
    assert!(Rect::new(Position::new(3, 4), Size::new(10, 10)).is_representable());
    assert!(Rect::new(Position::new(usize::MAX, 0), Size::new(0, 0)).is_representable());
    assert!(!Rect::new(Position::new(usize::MAX, 0), Size::new(1, 0)).is_representable());
    assert!(!Rect::new(Position::new(0, 1), Size::new(0, usize::MAX)).is_representable());
}

#[test]
fn events_carry_a_key_or_a_size() {
    assert!(Event::KeyPress(Key::Esc) == Event::KeyPress(Key::Esc));
    assert!(Event::Resize(Size::new(1, 2)) != Event::Resize(Size::new(2, 1)));
    assert!(Event::KeyPress(Key::Esc) != Event::Resize(Size::new(0, 0)));
}
