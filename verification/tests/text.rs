use zi::app::DrawStatistics;
use zi::component::bindings::{typed_to_string, KeySequenceSlice};
use zi::{AnyCharacter, EndsWith, Key, KeyPattern, Keymap};

#[test]
fn keys_are_written_as_emacs_writes_them() {
    let keys = [
        Key::Ctrl('x'),
        Key::Alt('f'),
        Key::Char('a'),
        Key::Char(' '),
        Key::Char('\n'),
        Key::Char('\t'),
        Key::F(12),
        Key::F(0),
        Key::F(255),
        Key::Esc,
        Key::PageUp,
        Key::Backspace,
    ];
    assert_eq!(
        KeySequenceSlice::from_keys(&keys).to_string(),
        "C-x A-f a SPC RET TAB F12 F0 F255 ESC PageUp Backspace"
    );
    assert_eq!(KeySequenceSlice::from_keys(&[]).to_string(), "");
    assert_eq!(KeySequenceSlice::from_keys(&[Key::Null]).to_string(), "Null");
}

#[test]
fn every_named_key_is_written_by_its_name() {
    let named = [
        (Key::Left, "Left"),
        (Key::Right, "Right"),
        (Key::Up, "Up"),
        (Key::Down, "Down"),
        (Key::Home, "Home"),
        (Key::End, "End"),
        (Key::PageDown, "PageDown"),
        (Key::BackTab, "BackTab"),
        (Key::Delete, "Delete"),
        (Key::Insert, "Insert"),
    ];
    for (key, name) in named {
        assert_eq!(KeySequenceSlice::from_keys(&[key]).to_string(), name);
    }
}

#[test]
fn typed_chords_are_written_with_a_space_after_each() {
    assert_eq!(typed_to_string(&[Key::Ctrl('x'), Key::Char('4')]), "C-x 4 ");
    assert_eq!(typed_to_string(&[]), "");
}

#[test]
fn patterns_are_written() {
    assert_eq!(KeyPattern::any_character(AnyCharacter).to_string(), "Char(*)");
    assert_eq!(KeyPattern::ends_with(EndsWith(Key::Ctrl('g'))).to_string(), "C-g");
    assert_eq!(KeyPattern::keys(&[Key::Ctrl('x'), Key::Ctrl('s')]).to_string(), "C-x C-s");
}

#[test]
fn a_conflict_names_both_commands() {
    let mut keymap = Keymap::new();
    keymap.add("find-file", KeyPattern::keys(&[Key::Ctrl('x'), Key::Ctrl('f')]));
    let conflict = keymap.try_add("cut", KeyPattern::keys(&[Key::Ctrl('x')])).unwrap_err();
    assert_eq!(
        conflict.message("cut", keymap.name(&conflict.existing_command)),
        "Binding `C-x` for `cut` is ambiguous as it overlaps with binding `C-x` for command \
         `find-file`"
    );
}

#[test]
fn statistics_are_written() {
    let statistics = DrawStatistics { new: 12, changed: 0, deleted: 3, nop: 405, revisited: 0 };
    assert_eq!(statistics.to_string(), "12 new 0 upd 3 del 405 nop");
}
