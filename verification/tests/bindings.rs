use std::cell::RefCell;
use std::rc::Rc;

use zi::component::bindings::{Command, DynamicCommandFn};
use zi::small::CommandList;
use zi::{
    AnyCharacter, BindingQuery, Bindings, Canvas, Component, ComponentId, ComponentLink,
    DynamicBindings, EndsWith, Key, KeyPattern, Keymap, Layout, MountedComponent,
    NamedBindingQuery, Position, Rect, ShouldRender, Size,
};

struct Empty;

impl Component for Empty {
    type Message = ();
    type Properties = ();

    fn create(_: &Self::Properties, _: Rect, _: ComponentLink<()>) -> Self {
        Self
    }

    fn view(&self) -> Layout<()> {
        Layout::canvas(Canvas::new(Size::new(10, 10)))
    }
    fn change(&mut self, _: &()) -> ShouldRender {
        ShouldRender::No
    }

    fn resize(&mut self, _: Rect) -> ShouldRender {
        ShouldRender::No
    }

    fn update(&mut self, _: ()) -> ShouldRender {
        ShouldRender::No
    }

    fn bindings(&self, _: &mut Bindings<Self>) {}

    fn tick(&self) -> Option<()> {
        None
    }
}

fn chord(keys: &[Key]) -> KeyPattern {
    KeyPattern::keys(keys)
}

fn prefix_of(commands: &[zi::CommandId]) -> BindingQuery {
    BindingQuery::PrefixOf(CommandList::from_slice(commands))
}

#[test]
fn keymap_alternative_binding_for_same_command() {
    let mut keymap = Keymap::new();
    let right_id = keymap.add("right", chord(&[Key::Right]));
    let left_id = keymap.add("left", chord(&[Key::Left]));
    assert_ne!(left_id, right_id);
    let alternate_left_id = keymap.add("left", chord(&[Key::Ctrl('b')]));
    assert_eq!(left_id, alternate_left_id);
}

#[test]
fn controller_one_command_end_to_end() {
    let called = Rc::new(RefCell::new(false));

    // Create a controller with one registered command
    let mut controller = DynamicBindings::<Empty>::new();
    let test_command_id = controller
        .add(
            "test-command",
            chord(&[Key::Ctrl('x'), Key::Ctrl('f')]),
            {
                let called = Rc::clone(&called);
                move |_: &Empty| {
                    *called.borrow_mut() = true;
                    None
                }
            },
        );

    // Check no key sequence is a prefix of test-command
    assert_eq!(controller.keymap().check_sequence(&[]), Some(&prefix_of(&[test_command_id])));
    // Check C-x is a prefix of test-command
    assert_eq!(
        controller.keymap().check_sequence(&[Key::Ctrl('x')]),
        Some(&prefix_of(&[test_command_id]))
    );
    // Check C-x C-f is a match for test-command
    assert_eq!(
        controller.keymap().check_sequence(&[Key::Ctrl('x'), Key::Ctrl('f')]),
        Some(&BindingQuery::Match(test_command_id))
    );

    // Check C-f doesn't match any command
    assert_eq!(controller.keymap().check_sequence(&[Key::Ctrl('f')]), None);
    // Check C-x C-x doesn't match any command
    assert_eq!(controller.keymap().check_sequence(&[Key::Ctrl('x'), Key::Ctrl('x')]), None);

    controller.execute_command(&Empty, test_command_id, &[]);
    assert!(*called.borrow(), "set-controller wasn't called");
}

#[test]
fn a_prefix_of_a_bound_chord_is_refused() {
    let mut keymap = Keymap::new();
    let find = keymap.add("find-file", chord(&[Key::Ctrl('x'), Key::Ctrl('f')]));
    let conflict = keymap.try_add("cut", chord(&[Key::Ctrl('x')])).unwrap_err();
    assert_eq!(conflict.existing_command, find);
    assert_eq!(conflict.existing_pattern, chord(&[Key::Ctrl('x')]));
    assert_eq!(conflict.pattern, chord(&[Key::Ctrl('x')]));
    // The refused command was not added.
    assert_eq!(keymap.command_count(), 1);
    assert_eq!(keymap.name(&conflict.existing_command), "find-file");
}

#[test]
fn a_chord_that_begins_with_a_bound_chord_is_refused() {
    let mut keymap = Keymap::new();
    let cut = keymap.add("cut", chord(&[Key::Ctrl('x')]));
    let conflict = keymap.try_add("find-file", chord(&[Key::Ctrl('x'), Key::Ctrl('f')])).unwrap_err();
    assert_eq!(conflict.existing_command, cut);
    assert_eq!(conflict.existing_pattern, chord(&[Key::Ctrl('x')]));
    assert_eq!(conflict.pattern, chord(&[Key::Ctrl('x'), Key::Ctrl('f')]));
    assert_eq!(keymap.check_sequence(&[Key::Ctrl('x')]), Some(&BindingQuery::Match(cut)));
}

#[test]
fn binding_a_pattern_twice_is_refused() {
    let mut keymap = Keymap::new();
    let left = keymap.add("left", chord(&[Key::Left]));
    let conflict = keymap.try_add("back", chord(&[Key::Left])).unwrap_err();
    assert_eq!(conflict.command, zi::CommandId(1));
    assert_eq!(conflict.existing_command, left);
    assert_eq!(conflict.existing_pattern, chord(&[Key::Left]));
    assert_eq!(keymap.command("back"), None);
    // The same command may be bound to the pattern again: nothing changes.
    assert_eq!(keymap.try_add("left", chord(&[Key::Left])), Ok(left));
    assert_eq!(keymap.check_sequence(&[Key::Left]), Some(&BindingQuery::Match(left)));
    assert_eq!(keymap.command_count(), 1);
}

#[test]
fn chords_of_one_command_merge() {
    let mut keymap = Keymap::new();
    let find = keymap.add("find-file", chord(&[Key::Ctrl('x'), Key::Ctrl('f')]));
    // A prefix of a chord of the same command is bound without a refusal.
    assert_eq!(keymap.refusal(find, &chord(&[Key::Ctrl('x')])), None);
    keymap.bind_command(find, chord(&[Key::Ctrl('x')]));
    assert_eq!(keymap.check_sequence(&[Key::Ctrl('x')]), Some(&BindingQuery::Match(find)));
    assert_eq!(
        keymap.check_sequence(&[Key::Ctrl('x'), Key::Ctrl('f')]),
        Some(&BindingQuery::Match(find))
    );
    // So is a chord that begins with a chord of the same command.
    let quit = keymap.add("quit", chord(&[Key::Esc]));
    assert_eq!(keymap.try_bind_command(quit, chord(&[Key::Esc, Key::Esc])), Ok(()));
    assert_eq!(
        keymap.check_sequence(&[Key::Esc, Key::Esc]),
        Some(&BindingQuery::Match(quit))
    );
    assert_eq!(keymap.check_sequence(&[Key::Esc]), Some(&BindingQuery::Match(quit)));
    // Another command is refused both.
    let other = keymap.add_command("other").0;
    let conflict = keymap.try_bind_command(other, chord(&[Key::Esc, Key::Up])).unwrap_err();
    assert_eq!(conflict.existing_command, quit);
    assert_eq!(conflict.existing_pattern, chord(&[Key::Esc]));
    assert!(keymap.try_bind_command(other, chord(&[Key::Ctrl('x')])).is_err());
}

#[test]
fn chords_that_do_not_begin_one_another_bind_together() {
    let mut keymap = Keymap::new();
    let find = keymap.add("find-file", chord(&[Key::Ctrl('x'), Key::Ctrl('f')]));
    let save = keymap.add("save", chord(&[Key::Ctrl('x'), Key::Ctrl('s')]));
    let quit = keymap.add("quit", chord(&[Key::Ctrl('c')]));
    assert_eq!(keymap.check_sequence(&[Key::Ctrl('x')]), Some(&prefix_of(&[find, save])));
    assert_eq!(keymap.check_sequence(&[]), Some(&prefix_of(&[find, save, quit])));
    assert_eq!(
        keymap.check_sequence(&[Key::Ctrl('x'), Key::Ctrl('s')]),
        Some(&BindingQuery::Match(save))
    );
    assert_eq!(keymap.check_sequence(&[Key::Ctrl('c')]), Some(&BindingQuery::Match(quit)));
}

#[test]
fn any_character_and_suffix_patterns_are_fallbacks() {
    let mut keymap = Keymap::new();
    let insert = keymap.add("insert", KeyPattern::any_character(AnyCharacter));
    let cancel = keymap.add("cancel", KeyPattern::ends_with(EndsWith(Key::Ctrl('g'))));
    let space = keymap.add("space", chord(&[Key::Char(' ')]));

    assert_eq!(keymap.check_sequence(&[Key::Char('a')]), Some(&BindingQuery::Match(insert)));
    assert_eq!(keymap.check_sequence(&[Key::Char(' ')]), Some(&BindingQuery::Match(space)));
    assert_eq!(keymap.check_sequence(&[Key::Ctrl('g')]), Some(&BindingQuery::Match(cancel)));
    assert_eq!(
        keymap.check_sequence(&[Key::Ctrl('x'), Key::Ctrl('g')]),
        Some(&BindingQuery::Match(cancel))
    );
    assert_eq!(
        keymap.check_sequence(&[Key::Ctrl('x'), Key::Ctrl('y'), Key::Ctrl('g')]),
        Some(&BindingQuery::Match(cancel))
    );
    assert_eq!(keymap.check_sequence(&[Key::Char('a'), Key::Char('b')]), None);
    assert_eq!(keymap.check_sequence(&[Key::Alt('a')]), None);
}

#[test]
fn queries_are_named_after_their_commands() {
    let mut keymap = Keymap::new();
    let find = keymap.add("find-file", chord(&[Key::Ctrl('x'), Key::Ctrl('f')]));
    keymap.add("save", chord(&[Key::Ctrl('x'), Key::Ctrl('s')]));
    let prefix = keymap.check_sequence(&[Key::Ctrl('x')]).unwrap();
    assert_eq!(prefix.matches(), None);
    assert_eq!(prefix.prefix_of().map(|commands| commands.len()), Some(2));
    assert_eq!(
        NamedBindingQuery::new(&keymap, prefix),
        NamedBindingQuery::PrefixOf(vec!["find-file".to_string(), "save".to_string()])
    );
    let matched = keymap.check_sequence(&[Key::Ctrl('x'), Key::Ctrl('f')]).unwrap();
    assert_eq!(matched.matches(), Some(find));
    assert_eq!(
        NamedBindingQuery::new(&keymap, matched),
        NamedBindingQuery::Match("find-file".to_string())
    );
}

#[test]
fn bindings_remember_focus_and_notice() {
    let mut bindings = DynamicBindings::<Empty>::new();
    assert!(bindings.is_empty());
    assert!(!bindings.focused());
    assert!(!bindings.notify());
    bindings.set_focus(true);
    bindings.set_notify(true);
    assert!(bindings.focused());
    assert!(bindings.notify());
    let id = bindings.add_command("noop", |_: &Empty, _: &[Key]| None);
    assert!(bindings.is_empty());
    bindings.bind_command(id, chord(&[Key::Esc]));
    assert!(!bindings.is_empty());
    assert!(bindings.focused());

    // The component sees the same bindings.
    let mut typed = bindings.typed();
    assert!(!typed.is_empty());
    assert!(typed.focused());
    assert!(typed.notify());
    typed.set_focus(false);
    typed.set_notify(false);
    typed.add("other", chord(&[Key::Up]), |_: &Empty| {});
    assert!(typed.try_add("up", chord(&[Key::Up]), |_: &Empty| {}).is_err());
    assert!(typed.try_add("down", chord(&[Key::Down]), |_: &Empty| {}).is_ok());
    let bindings = typed.bindings;
    assert!(!bindings.focused());
    assert!(!bindings.notify());
    assert_eq!(bindings.keymap().command_count(), 3);
}

#[test]
fn a_command_is_bound_chord_by_chord() {
    let mut typed = DynamicBindings::<Empty>::new().typed();
    let bound = typed
        .command("quit", || ())
        .with(chord(&[Key::Ctrl('x'), Key::Ctrl('c')]))
        .try_with(chord(&[Key::Esc]));
    assert!(bound.is_ok());
    let mut bindings = typed.bindings;
    let quit = bindings.keymap().command("quit").unwrap();
    assert_eq!(bindings.keymap().name(&quit), "quit");
    assert_eq!(
        bindings.keymap().check_sequence(&[Key::Ctrl('x'), Key::Ctrl('c')]),
        Some(&BindingQuery::Match(quit))
    );
    assert_eq!(bindings.keymap().check_sequence(&[Key::Esc]), Some(&BindingQuery::Match(quit)));
    assert_eq!(bindings.execute_command(&Empty, quit, &[Key::Esc]), Some(()));

    let mut typed = bindings.typed();
    let refused = typed
        .command("other", |_: &Empty, _: &[Key]| {})
        .try_with(chord(&[Key::Ctrl('x')]));
    match refused {
        Err(conflict) => {
            assert_eq!(conflict.existing_command, quit);
            assert_eq!(conflict.pattern, chord(&[Key::Ctrl('x')]));
        }
        Ok(_) => panic!("a prefix of a bound chord cannot be bound"),
    }
    bindings = typed.bindings;
    let other = bindings.keymap().command("other").unwrap();
    assert_eq!(bindings.execute_command(&Empty, other, &[]), None);
}

#[test]
fn a_command_gets_the_chord_that_called_it() {
    let mut bindings = DynamicBindings::<Empty>::new();
    let count = Rc::new(RefCell::new(Vec::new()));
    let seen = count.clone();
    let id = bindings
        .add(
            "insert",
            KeyPattern::any_character(AnyCharacter),
            move |keys: &[Key]| {
                seen.borrow_mut().push(keys.to_vec());
                None
            },
        );
    assert_eq!(bindings.execute_command(&Empty, id, &[Key::Char('z')]), None);
    assert_eq!(*count.borrow(), vec![vec![Key::Char('z')]]);
}

#[test]
fn a_boxed_command_runs_what_it_was_made_of() {
    let command: Command<Empty> = Command::new(|_: &Empty, keys: &[Key]| {
        if keys.is_empty() {
            None
        } else {
            Some(())
        }
    });
    assert_eq!(command.0.run(&Empty, &[]), None);
    assert_eq!(command.0.run(&Empty, &[Key::Esc]), Some(()));
    let plain: Command<Empty> = Command::boxed(|_: &Empty, _: &[Key]| Some(()));
    assert_eq!(plain.0.run(&Empty, &[]), Some(()));
}

#[test]
fn a_refused_binding_leaves_the_keymap_as_it_was() {
    let mut keymap = Keymap::new();
    let find = keymap.add("find-file", chord(&[Key::Ctrl('x'), Key::Ctrl('f')]));
    let save = keymap.add("save", chord(&[Key::Ctrl('x'), Key::Ctrl('s')]));
    assert!(keymap.try_bind_command(find, chord(&[Key::Ctrl('x')])).is_err());
    assert!(keymap.try_add("cut", chord(&[Key::Ctrl('x')])).is_err());
    assert_eq!(keymap.command_count(), 2);
    assert_eq!(keymap.command("cut"), None);
    assert_eq!(keymap.check_sequence(&[Key::Ctrl('x')]), Some(&prefix_of(&[find, save])));
    assert!(keymap.try_bind_command(find, chord(&[Key::Ctrl('f')])).is_ok());
    assert_eq!(keymap.check_sequence(&[Key::Ctrl('f')]), Some(&BindingQuery::Match(find)));
}

#[test]
fn bindings_are_lent_to_the_component_and_kept_as_it_leaves_them() {
    let mut bindings = DynamicBindings::<Empty>::new();
    bindings.set_focus(true);
    let quit = bindings.add("quit", chord(&[Key::Esc]), || ());
    let mut mounted = MountedComponent {
        id: ComponentId::generate(0, 0, None),
        component: Empty,
        frame: Rect::new(Position::new(0, 0), Size::new(1, 1)),
        bindings,
        reached: 0,
        generation: 0,
        should_render: true,
        layout: None,
    };

    let mut typed = mounted.lend_bindings();
    assert!(typed.focused());
    assert!(!typed.is_empty());
    assert_eq!(typed.bindings.keymap().command("quit"), Some(quit));
    // While the bindings are out, the component has none.
    assert!(mounted.bindings.is_empty());
    assert!(!mounted.bindings.focused());
    assert_eq!(mounted.bindings.keymap().command_count(), 0);

    typed.set_notify(true);
    let save = typed.add("save", chord(&[Key::Ctrl('s')]), || ());
    mounted.keep_bindings(typed);
    assert!(mounted.bindings.focused());
    assert!(mounted.bindings.notify());
    assert_eq!(mounted.bindings.keymap().command("save"), Some(save));
    assert_eq!(
        mounted.bindings.keymap().check_sequence(&[Key::Esc]),
        Some(&BindingQuery::Match(quit))
    );
    assert!(mounted.should_render);

    // A component without bindings of its own leaves them as they are.
    mounted.update_bindings();
    assert_eq!(mounted.bindings.keymap().command_count(), 2);
    assert!(mounted.bindings.focused());
}
