use std::sync::mpsc;

use zi::{
    App, Bindings, Canvas, Component, ComponentId, ComponentLink, ComponentMessage, Layout,
    LinkMessage, MessageSender, PollState, Rect, SharedSender, ShouldRender, Size,
};

#[derive(Debug, PartialEq)]
enum Message {
    Tick,
    Ping,
    Pong(usize),
}

struct Clock {
    link: ComponentLink<Message>,
    ticks: usize,
    pongs: usize,
}

impl Component for Clock {
    type Message = Message;
    type Properties = ();

    fn create(_: &(), _: Rect, link: ComponentLink<Message>) -> Self {
        Clock { link, ticks: 0, pongs: 0 }
    }

    fn view(&self) -> Layout<()> {
        Layout::canvas(Canvas::new(Size::new(self.ticks, self.pongs)))
    }

    fn update(&mut self, message: Message) -> ShouldRender {
        match message {
            Message::Tick => {
                self.ticks += 1;
                ShouldRender::Yes
            }
            Message::Ping => {
                self.link.send(Message::Pong(self.ticks));
                let later = self.link.callback(|at: usize| Message::Pong(at));
                later.emit(self.ticks + 100);
                self.link.duplicate().exit();
                ShouldRender::No
            }
            Message::Pong(_) => {
                self.pongs += 1;
                ShouldRender::No
            }
        }
    }

    fn tick(&self) -> Option<Message> {
        Some(Message::Tick)
    }
    fn change(&mut self, _: &()) -> ShouldRender {
        ShouldRender::No
    }

    fn resize(&mut self, _: Rect) -> ShouldRender {
        ShouldRender::No
    }

    fn bindings(&self, _: &mut Bindings<Self>) {}
}

struct Queue(mpsc::Sender<ComponentMessage<Message>>);

impl MessageSender<Message> for Queue {
    fn send(&self, message: ComponentMessage<Message>) {
        self.0.send(message).unwrap();
    }
}

fn clock() -> (App<Clock>, mpsc::Receiver<ComponentMessage<Message>>) {
    let (sender, receiver) = mpsc::channel();
    (App::new(Queue(sender), Size::new(4, 4), Layout::component(0, ())), receiver)
}

#[test]
fn a_component_that_ticks_is_told_when_time_passes() {
    let (mut app, _receiver) = clock();
    assert!(!app.is_tickable());
    app.draw();
    assert!(app.is_tickable());
    assert_eq!(app.poll_state(), PollState::Clean);
    app.tick();
    assert_eq!(app.poll_state(), PollState::Dirty(None));
    assert!(!app.is_tickable());
    app.draw();
    assert!(app.is_tickable());
    assert_eq!(app.num_components(), 1);
}

#[test]
fn a_link_sends_to_its_component_and_to_the_runtime() {
    let (mut app, receiver) = clock();
    app.draw();
    let id = ComponentId::generate(0, 0, None);
    assert!(app.is_mounted(id));
    app.handle_message(ComponentMessage(LinkMessage::Component(id, Message::Ping)));
    assert_eq!(app.poll_state(), PollState::Clean);

    let sent: Vec<ComponentMessage<Message>> = receiver.try_iter().collect();
    assert_eq!(sent.len(), 3);
    match &sent[0].0 {
        LinkMessage::Component(to, message) => {
            assert_eq!(*to, id);
            assert_eq!(*message, Message::Pong(0));
        }
        _ => panic!("the first message goes to the component"),
    }
    match &sent[1].0 {
        LinkMessage::Component(to, message) => {
            assert_eq!(*to, id);
            assert_eq!(*message, Message::Pong(100));
        }
        _ => panic!("the second message goes to the component"),
    }
    assert!(matches!(sent[2].0, LinkMessage::Exit));

    for message in sent {
        app.handle_message(message);
    }
    assert_eq!(app.poll_state(), PollState::Exit);
}

#[test]
fn a_link_addresses_messages_to_its_component() {
    let (sender, receiver) = mpsc::channel();
    let id = ComponentId::generate(3, 1, None);
    let link = ComponentLink::new(SharedSender::new(Box::new(Queue(sender))), id);
    assert_eq!(link.component_id(), id);
    match link.addressed(Message::Ping).0 {
        LinkMessage::Component(to, message) => {
            assert_eq!(to, id);
            assert_eq!(message, Message::Ping);
        }
        _ => panic!("the message goes to the component"),
    }
    assert!(receiver.try_recv().is_err());
    link.send(Message::Tick);
    match receiver.try_recv().unwrap().0 {
        LinkMessage::Component(to, message) => {
            assert_eq!(to, id);
            assert_eq!(message, Message::Tick);
        }
        _ => panic!("the message goes to the component"),
    }
}

#[test]
fn what_is_run_with_the_device_to_itself_answers_to_the_component() {
    let (mut app, receiver) = clock();
    app.draw();
    let id = ComponentId::generate(0, 0, None);
    let (sender, _other) = mpsc::channel();
    let link = ComponentLink::new(SharedSender::new(Box::new(Queue(sender))), id);
    drop(receiver);

    // The runtime runs what the link sent and hands the answer over.
    let (sender, receiver) = mpsc::channel();
    let link_to_app = ComponentLink::new(SharedSender::new(Box::new(Queue(sender))), id);
    link_to_app.run_exclusive(|| Some(Message::Tick));
    let message = receiver.try_recv().unwrap();
    assert!(matches!(message.0, LinkMessage::RunExclusive(to, _) if to == id));
    assert_eq!(app.poll_state(), PollState::Clean);
    app.handle_message(message);
    assert_eq!(app.poll_state(), PollState::Dirty(None));

    // A backend that has run it itself hands the answer over; a redraw is
    // due even where there is none.
    app.draw();
    app.handle_exclusive(id, None);
    assert_eq!(app.poll_state(), PollState::Dirty(None));
    app.draw();
    app.handle_exclusive(ComponentId::generate(9, 9, None), Some(Message::Tick));
    assert_eq!(app.poll_state(), PollState::Dirty(None));
    assert_eq!(app.num_components(), 1);
    drop(link);
}
