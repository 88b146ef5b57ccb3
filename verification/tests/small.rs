use zi::small::{CommandList, IdList, KeySequence};
use zi::{CommandId, ComponentId, Key};

#[test]
fn a_key_sequence_holds_the_keys_in_the_order_typed() {
    let mut sequence = KeySequence::new();
    assert_eq!(sequence.len(), 0);
    sequence.push(Key::Ctrl('x'));
    sequence.push(Key::Char('s'));
    assert_eq!(sequence.len(), 2);
    assert_eq!(sequence.as_slice(), &[Key::Ctrl('x'), Key::Char('s')]);
    let copy = sequence.clone();
    assert_eq!(copy.as_slice(), sequence.as_slice());
    sequence.clear();
    assert_eq!(sequence.as_slice(), &[] as &[Key]);
    assert_eq!(copy.len(), 2);
}

#[test]
fn a_key_sequence_is_made_of_a_slice_or_of_its_start() {
    let keys = [Key::Esc, Key::Up, Key::Down];
    assert_eq!(KeySequence::from_slice(&keys).as_slice(), &keys);
    assert_eq!(KeySequence::from_prefix(&keys, 2).as_slice(), &keys[..2]);
    assert_eq!(KeySequence::from_prefix(&keys, 0).len(), 0);
    assert_eq!(KeySequence::from_prefix(&keys, 3).as_slice(), &keys);
}

#[test]
fn a_command_list_grows_by_one_command() {
    let list = CommandList::from_slice(&[CommandId(2), CommandId(5)]);
    assert_eq!(list.as_slice(), &[CommandId(2), CommandId(5)]);
    let longer = list.with(CommandId(1));
    assert_eq!(longer.as_slice(), &[CommandId(2), CommandId(5), CommandId(1)]);
    assert_eq!(list.as_slice().len(), 2);
    assert_eq!(longer.clone().as_slice(), longer.as_slice());
}

#[test]
fn an_identity_is_noted_once() {
    let first = ComponentId { kind: 1, id: 10 };
    let second = ComponentId { kind: 1, id: 11 };
    let mut list = IdList::new();
    list.add_once(first);
    list.add_once(second);
    list.add_once(first);
    assert_eq!(list.len(), 2);
    assert_eq!(list.as_slice(), &[first, second]);
    list.clear();
    assert_eq!(list.len(), 0);
}
