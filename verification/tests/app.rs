use std::sync::mpsc;

use zi::{
    App, Bindings, Canvas, Colour, Component, ComponentId, ComponentLink,
    ComponentMessage, FlexDirection, Item, Key, KeyPattern, Layout, LinkMessage, MessageSender,
    PollState, Position, Rect, ShouldRender, Size, Style, Textel,
};

type DynamicMessage = Box<dyn std::any::Any + Send + 'static>;

#[test]
fn app_sizes() {
    println!(
        "std::mem::size_of::<(ComponentId, DynamicMessage)>() == {}",
        std::mem::size_of::<(ComponentId, DynamicMessage)>()
    );
    println!(
        "std::mem::size_of::<LinkMessage>() == {}",
        std::mem::size_of::<LinkMessage<DynamicMessage>>()
    );
}

#[derive(Clone, Debug, PartialEq)]
enum Message {
    Hide,
    Find,
}

#[derive(Clone, Debug, PartialEq)]
enum Properties {
    Text(String),
    Screen,
    Sidebar,
    Body,
}

const TEXT: u64 = 1;
const SCREEN: u64 = 2;
const SIDEBAR: u64 = 3;
const BODY: u64 = 4;

struct Widget {
    properties: Properties,
    frame: Rect,
    body_hidden: bool,
}

fn style() -> Style {
    Style::normal(Colour::black(), Colour::white())
}

fn filled(size: Size, grapheme: &str) -> Canvas {
    let mut canvas = Canvas::new(size);
    for y in 0..size.height {
        for x in 0..size.width {
            canvas.put(x, y, Some(Textel { style: style(), grapheme: grapheme.to_string() }));
        }
    }
    canvas
}

impl Component for Widget {
    type Message = Message;
    type Properties = Properties;

    fn create(properties: &Properties, frame: Rect, _link: ComponentLink<Message>) -> Self {
        Widget { properties: properties.clone(), frame, body_hidden: false }
    }

    fn view(&self) -> Layout<Properties> {
        match &self.properties {
            Properties::Text(content) => {
                let mut canvas = Canvas::new(self.frame.size);
                for (x, character) in content.chars().enumerate() {
                    canvas.put(
                        x,
                        0,
                        Some(Textel { style: style(), grapheme: character.to_string() }),
                    );
                }
                Layout::canvas(canvas)
            }
            Properties::Screen => {
                let mut items =
                    vec![Item::fixed(5, Layout::component(SIDEBAR, Properties::Sidebar))];
                if !self.body_hidden {
                    items.push(Item::auto(Layout::component(BODY, Properties::Body)));
                }
                Layout::container(FlexDirection::Row, items)
            }
            Properties::Sidebar => Layout::canvas(filled(self.frame.size, "s")),
            Properties::Body => Layout::canvas(filled(self.frame.size, "b")),
        }
    }

    fn resize(&mut self, frame: Rect) -> ShouldRender {
        self.frame = frame;
        ShouldRender::Yes
    }

    fn update(&mut self, message: Message) -> ShouldRender {
        match message {
            Message::Hide => {
                self.body_hidden = true;
                ShouldRender::Yes
            }
            Message::Find => ShouldRender::No,
        }
    }

    fn bindings(&self, bindings: &mut Bindings<Self>) {
        if self.properties != Properties::Screen || !bindings.is_empty() {
            return;
        }
        bindings.set_focus(true);
        bindings
            .add(
                "find-file",
                KeyPattern::keys(&[Key::Ctrl('x'), Key::Ctrl('f')]),
                || Message::Find,
            );
    }
    fn change(&mut self, _: &Properties) -> ShouldRender {
        ShouldRender::No
    }

    fn tick(&self) -> Option<Message> {
        None
    }
}

#[derive(Clone, Debug)]
struct MessageQueue(mpsc::Sender<ComponentMessage<Message>>);

impl MessageSender<Message> for MessageQueue {
    fn send(&self, message: ComponentMessage<Message>) {
        self.0.send(message).unwrap();
    }
}

fn new_app(size: Size, root: Layout<Properties>) -> App<Widget> {
    let (sender, _receiver) = mpsc::channel();
    App::new(MessageQueue(sender), size, root)
}

fn grapheme_at(canvas: &Canvas, x: usize, y: usize) -> Option<String> {
    canvas.textel(x, y).map(|textel| textel.grapheme.clone())
}

#[test]
fn trivial_message_queue() {
    let mut app =
        new_app(Size::new(10, 10), Layout::component(TEXT, Properties::Text("Hello".to_string())));

    app.handle_resize(Size::new(20, 20));

    let canvas = app.draw();
    println!("{:?}", canvas.size());
    assert_eq!(canvas.size(), Size::new(20, 20));
    assert_eq!(grapheme_at(canvas, 0, 0), Some("H".to_string()));
    assert_eq!(grapheme_at(canvas, 4, 0), Some("o".to_string()));
    assert_eq!(grapheme_at(canvas, 5, 0), None);
}

#[test]
fn a_new_app_is_dirty_and_a_drawn_one_is_clean() {
    let mut app = new_app(Size::new(10, 10), Layout::component(SCREEN, Properties::Screen));
    assert_eq!(app.poll_state(), PollState::Dirty(None));
    app.draw();
    assert_eq!(app.poll_state(), PollState::Clean);
    assert_eq!(app.num_frame(), 1);
    app.draw();
    assert_eq!(app.num_frame(), 1);
}

#[test]
fn an_unchanged_tree_is_found_again() {
    let mut app = new_app(Size::new(10, 10), Layout::component(SCREEN, Properties::Screen));
    app.draw();
    let first = app.statistics();
    assert_eq!((first.new, first.changed, first.deleted, first.nop), (3, 0, 0, 0));
    assert_eq!(first.revisited, 0);
    assert_eq!(app.num_components(), 3);

    app.handle_input(zi::Event::KeyPress(Key::Char('a')));
    assert_eq!(app.poll_state(), PollState::Dirty(None));
    app.draw();
    let second = app.statistics();
    assert_eq!((second.new, second.changed, second.deleted, second.nop), (0, 0, 0, 3));
    assert_eq!(app.num_components(), 3);
}

#[test]
fn a_component_that_is_no_longer_declared_is_unmounted() {
    let mut app = new_app(Size::new(10, 10), Layout::component(SCREEN, Properties::Screen));
    app.draw();
    let root = ComponentId::generate(0, SCREEN, None);
    assert!(app.is_mounted(root));
    let body_position = zi::component::template::hash_container(root.position());
    let body = ComponentId::generate(body_position, BODY, None);
    assert!(app.is_mounted(body));

    app.handle_message(ComponentMessage(LinkMessage::Component(root, Message::Hide)));
    assert_eq!(app.poll_state(), PollState::Dirty(None));
    app.draw();
    let statistics = app.statistics();
    assert_eq!(statistics.deleted, 1);
    assert_eq!(statistics.new, 0);
    assert!(!app.is_mounted(body));
    assert_eq!(app.num_components(), 2);

    // A message that was on its way to the component is dropped.
    app.handle_message(ComponentMessage(LinkMessage::Component(body, Message::Hide)));
    assert_eq!(app.poll_state(), PollState::Clean);
    assert_eq!(app.num_components(), 2);
}

#[test]
fn a_sidebar_keeps_its_width_when_the_screen_grows() {
    let mut app = new_app(Size::new(10, 10), Layout::component(SCREEN, Properties::Screen));
    {
        let canvas = app.draw();
        assert_eq!(canvas.size(), Size::new(10, 10));
        for y in 0..10 {
            for x in 0..10 {
                let expected = if x < 5 { "s" } else { "b" };
                assert_eq!(grapheme_at(canvas, x, y), Some(expected.to_string()));
            }
        }
    }
    app.handle_resize(Size::new(20, 10));
    assert_eq!(app.poll_state(), PollState::Dirty(Some(Size::new(20, 10))));
    let canvas = app.draw();
    assert_eq!(canvas.size(), Size::new(20, 10));
    for y in 0..10 {
        for x in 0..20 {
            let expected = if x < 5 { "s" } else { "b" };
            assert_eq!(grapheme_at(canvas, x, y), Some(expected.to_string()));
        }
    }
}

#[test]
fn a_chord_is_kept_until_it_is_complete_or_broken() {
    let mut app = new_app(Size::new(10, 10), Layout::component(SCREEN, Properties::Screen));
    app.draw();

    app.handle_key(Key::Ctrl('x'));
    assert_eq!(app.pending_keys(), &[Key::Ctrl('x')]);
    app.handle_key(Key::Ctrl('f'));
    assert_eq!(app.pending_keys(), &[] as &[Key]);

    app.handle_key(Key::Ctrl('x'));
    assert_eq!(app.pending_keys(), &[Key::Ctrl('x')]);
    app.handle_key(Key::Ctrl('g'));
    assert_eq!(app.pending_keys(), &[] as &[Key]);
}

#[test]
fn exit_stands_whatever_comes_after() {
    let mut app = new_app(Size::new(10, 10), Layout::component(SCREEN, Properties::Screen));
    app.handle_message(ComponentMessage(LinkMessage::Exit));
    assert_eq!(app.poll_state(), PollState::Exit);
    app.handle_resize(Size::new(3, 3));
    assert_eq!(app.poll_state(), PollState::Exit);
    assert!(app.poll_state().exit());
}

#[test]
fn position_is_a_plain_pair() {
    assert_eq!(Position::new(1, 2), Position { x: 1, y: 2 });
}

#[test]
fn drawing_twice_finds_every_component_again() {
    let mut app = new_app(Size::new(10, 10), Layout::component(SCREEN, Properties::Screen));
    let (first, second) = app.draw_twice();
    assert_eq!((first.new, first.changed, first.deleted, first.nop), (3, 0, 0, 0));
    assert_eq!(first.revisited, 0);
    assert_eq!((second.new, second.changed, second.deleted, second.nop), (0, 0, 0, 3));
    assert_eq!(app.statistics(), second);
    assert_eq!(app.num_frame(), 2);
    assert_eq!(app.poll_state(), PollState::Clean);
}

#[test]
fn a_redraw_draws_a_frame_that_is_not_due() {
    let mut app = new_app(Size::new(6, 2), Layout::component(SCREEN, Properties::Screen));
    app.draw();
    assert_eq!(app.poll_state(), PollState::Clean);
    let canvas = app.redraw();
    assert_eq!(grapheme_at(canvas, 0, 0), Some("s".to_string()));
    assert_eq!(grapheme_at(canvas, 5, 1), Some("b".to_string()));
    assert_eq!(app.num_frame(), 2);
    assert_eq!(app.screen().size(), Size::new(6, 2));
    app.mark_dirty();
    assert_eq!(app.poll_state(), PollState::Dirty(None));
    app.draw();
    assert_eq!(app.num_frame(), 3);
}

#[test]
fn a_resize_event_is_a_resize() {
    let mut app = new_app(Size::new(6, 2), Layout::component(SCREEN, Properties::Screen));
    app.draw();
    app.handle_input(zi::Event::Resize(Size::new(7, 3)));
    assert_eq!(app.poll_state(), PollState::Dirty(Some(Size::new(7, 3))));
    assert_eq!(app.draw().size(), Size::new(7, 3));
    let statistics = app.statistics();
    assert_eq!((statistics.new, statistics.deleted), (0, 0));
    assert_eq!(statistics.changed + statistics.nop, 3);
}

#[test]
fn siblings_of_one_kind_are_told_apart_by_their_keys_only() {
    // Two declarations of one kind at one place, without keys, are one
    // component, which the walk reaches twice.
    let unkeyed = Layout::column(vec![
        Item::auto(Layout::component(TEXT, Properties::Text("a".to_string()))),
        Item::auto(Layout::component(TEXT, Properties::Text("b".to_string()))),
    ]);
    let mut app = new_app(Size::new(4, 4), unkeyed);
    app.draw();
    let found = app.statistics();
    assert_eq!(app.num_components(), 1);
    assert_eq!(found.new, 1);
    assert_eq!(found.revisited, 1);
    assert_eq!(found.new + found.changed + found.nop, app.num_components() + found.revisited);

    // With keys they are two.
    let keyed = Layout::column(vec![
        Item::auto(Layout::component_with_key(
            TEXT,
            zi::ComponentKey(1),
            Properties::Text("a".to_string()),
        )),
        Item::auto(Layout::component_with_key(
            TEXT,
            zi::ComponentKey(2),
            Properties::Text("b".to_string()),
        )),
    ]);
    let mut app = new_app(Size::new(4, 4), keyed);
    let canvas = app.draw();
    assert_eq!(grapheme_at(canvas, 0, 0), Some("a".to_string()));
    assert_eq!(grapheme_at(canvas, 0, 2), Some("b".to_string()));
    let found = app.statistics();
    assert_eq!(app.num_components(), 2);
    assert_eq!((found.new, found.changed, found.nop, found.deleted), (2, 0, 0, 0));
    assert_eq!(found.revisited, 0);
}

#[test]
fn the_components_that_stay_keep_their_order_and_the_new_ones_follow() {
    let mut app = new_app(Size::new(10, 10), Layout::component(SCREEN, Properties::Screen));
    app.draw();
    let root = ComponentId::generate(0, SCREEN, None);
    let inside = zi::component::template::hash_container(root.position());
    let sidebar = ComponentId::generate(inside, SIDEBAR, None);
    let body = ComponentId::generate(inside, BODY, None);
    assert!(app.is_mounted(root) && app.is_mounted(sidebar) && app.is_mounted(body));

    app.handle_message(ComponentMessage(LinkMessage::Component(root, Message::Hide)));
    app.draw();
    let found = app.statistics();
    assert_eq!((found.new, found.deleted, found.revisited), (0, 1, 0));
    assert_eq!(found.new + found.changed + found.nop, app.num_components());
    assert!(app.is_mounted(root) && app.is_mounted(sidebar) && !app.is_mounted(body));
}

#[test]
fn a_root_of_canvases_alone_is_painted_and_mounts_nothing() {
    let root = Layout::row(vec![
        Item::fixed(2, Layout::canvas(filled(Size::new(2, 2), "l"))),
        Item::auto(Layout::canvas(filled(Size::new(1, 1), "r"))),
    ]);
    let mut app = new_app(Size::new(4, 2), root);
    let canvas = app.draw();
    assert_eq!(grapheme_at(canvas, 0, 0), Some("l".to_string()));
    assert_eq!(grapheme_at(canvas, 1, 1), Some("l".to_string()));
    assert_eq!(grapheme_at(canvas, 2, 0), Some("r".to_string()));
    assert_eq!(grapheme_at(canvas, 3, 0), None);
    assert_eq!(grapheme_at(canvas, 2, 1), None);
    let found = app.statistics();
    assert_eq!(
        (found.new, found.changed, found.nop, found.deleted, found.revisited),
        (0, 0, 0, 0, 0)
    );
    assert_eq!(app.num_components(), 0);
    assert!(!app.is_tickable());
}

#[test]
fn of_two_sizes_noted_before_a_frame_the_larger_is_drawn() {
    let mut app = new_app(Size::new(10, 10), Layout::component(SCREEN, Properties::Screen));
    app.draw();
    app.handle_resize(Size::new(20, 10));
    app.handle_resize(Size::new(12, 10));
    assert_eq!(app.poll_state(), PollState::Dirty(Some(Size::new(20, 10))));
    assert_eq!(app.draw().size(), Size::new(20, 10));
    app.handle_resize(Size::new(12, 10));
    assert_eq!(app.draw().size(), Size::new(12, 10));
}
