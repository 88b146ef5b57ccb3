//! The decisions of the event loop.
//!
//! A backend runs the loop: it waits for a message of a component, for
//! input, or for time to pass, whichever comes first, hands what came to the
//! application and draws a frame when one is due. What to wait for and when
//! to draw is decided here, from the state of the application and the time
//! on a clock that the backend reads.
//!
//! Drawing is held back for a moment after the application became dirty, so
//! that events that come in bursts, such as fast typing, are drawn together.
//! It is not held back after a resize, nor once input has kept the
//! application dirty for longer than a burst lasts.

use vstd::prelude::*;

use crate::app::{delivered, keyed, tick_state, ticked, App, PollState, Snapshot};
use crate::component::{Component, ComponentMessage, LinkMessage};
use crate::terminal::Event;

verus! {

/// How long drawing is held back after the application became dirty, in
/// milliseconds.
pub const REDRAW_LATENCY: u64 = 10;

/// How long input may keep the application dirty before a frame is drawn
/// regardless, in milliseconds.
pub const SUSTAINED_IO_REDRAW_LATENCY: u64 = 100;

/// How long the loop waits for an event when nothing is due, in
/// milliseconds.
pub const IDLE_TIMEOUT: u64 = 240;

/// How long the loop waits for an event when nothing is due but a component
/// wants to be told that time passes, in milliseconds.
pub const TICK_TIMEOUT: u64 = 60;

/// How long to wait for the next event: no time at all if the application
/// is dirty and drawing was held back long enough; what is left of the
/// latency if it is dirty; and otherwise the idle timeout, which is shorter
/// where a component wants to be told that time passes.
pub open spec fn timeout_for(poll_state: PollState, since_last_drawn: u64, tickable: bool) -> u64 {
    if poll_state.is_dirty() {
        if since_last_drawn >= REDRAW_LATENCY {
            0
        } else {
            (REDRAW_LATENCY - since_last_drawn) as u64
        }
    } else if tickable {
        TICK_TIMEOUT
    } else {
        IDLE_TIMEOUT
    }
}

/// Whether a frame is to be drawn right after input arrived: the
/// application is dirty, and it was resized or input has been arriving for
/// as long as a burst may last.
pub open spec fn input_forces_redraw(poll_state: PollState, since_first_event: u64) -> bool {
    poll_state.is_dirty() && (since_first_event >= SUSTAINED_IO_REDRAW_LATENCY
        || poll_state.is_resized())
}

/// Computes how long to wait for the next event, in milliseconds.
pub fn wait_timeout(poll_state: PollState, since_last_drawn: u64, tickable: bool) -> (timeout: u64)
    ensures
        timeout == timeout_for(poll_state, since_last_drawn, tickable),
        timeout <= IDLE_TIMEOUT,
        poll_state.is_dirty() ==> timeout <= REDRAW_LATENCY,
{
    if poll_state.dirty() {
        if since_last_drawn >= REDRAW_LATENCY {
            0
        } else {
            REDRAW_LATENCY - since_last_drawn
        }
    } else if tickable {
        TICK_TIMEOUT
    } else {
        IDLE_TIMEOUT
    }
}

/// Decides whether a frame is to be drawn right after input arrived.
pub fn forces_redraw(poll_state: PollState, since_first_event: u64) -> (forced: bool)
    ensures
        forced == input_forces_redraw(poll_state, since_first_event),
{
    poll_state.dirty() && (since_first_event >= SUSTAINED_IO_REDRAW_LATENCY
        || poll_state.resized())
}

/// What woke the loop.
#[verifier::reject_recursive_types(MessageT)]
pub enum Wake<MessageT> {
    /// A component sent a message.
    Message(ComponentMessage<MessageT>),
    /// The backend has input.
    Input(Event),
    /// Time passed and nothing else happened.
    Timeout,
}

/// What the loop does next.
#[derive(Clone, Copy, Debug, PartialEq, Eq, Structural)]
pub enum Step {
    /// Wait for an event, for at most so many milliseconds.
    Wait(u64),
    /// Draw a frame and start another batch of events.
    Draw,
    /// Leave the loop without drawing.
    Stop,
}

/// The state of the loop while it gathers the events to draw together.
#[derive(Clone, Copy, Debug, PartialEq, Eq, Structural)]
pub struct EventBatch {
    /// When the last frame was drawn, in milliseconds on the clock of the
    /// backend.
    pub last_drawn: u64,
    /// When the first input of the batch arrived.
    pub first_event_time: Option<u64>,
    /// Whether a frame is to be drawn without waiting any longer.
    pub force_redraw: bool,
}

impl EventBatch {
    /// What the loop does next, as the batch and the application stand:
    /// leave if the application is about to stop, draw if a frame is due
    /// without waiting, and wait for an event otherwise.
    pub open spec fn step_for(self, poll_state: PollState, tickable: bool, now: u64) -> Step {
        if poll_state.is_exit() {
            Step::Stop
        } else if self.force_redraw {
            Step::Draw
        } else {
            Step::Wait(
                timeout_for(
                    poll_state,
                    if now >= self.last_drawn {
                        (now - self.last_drawn) as u64
                    } else {
                        0
                    },
                    tickable,
                ),
            )
        }
    }

    /// The batch as it is after input arrived at `now` and was handed to the
    /// application, which is in `poll_state` thereafter.
    pub open spec fn after_input(self, poll_state: PollState, now: u64) -> EventBatch {
        let first = match self.first_event_time {
            Some(first) => first,
            None => now,
        };
        EventBatch {
            last_drawn: self.last_drawn,
            first_event_time: Some(first),
            force_redraw: input_forces_redraw(
                poll_state,
                if now >= first {
                    (now - first) as u64
                } else {
                    0
                },
            ),
        }
    }

    /// A batch that begins when a frame was drawn.
    pub fn new(last_drawn: u64) -> (batch: Self)
        ensures
            batch == (EventBatch { last_drawn, first_event_time: None, force_redraw: false }),
    {
        EventBatch { last_drawn, first_event_time: None, force_redraw: false }
    }

    /// Decides what the loop does next.
    pub fn step(&self, poll_state: PollState, tickable: bool, now: u64) -> (step: Step)
        ensures
            step == self.step_for(poll_state, tickable, now),
    {
        if poll_state.exit() {
            Step::Stop
        } else if self.force_redraw {
            Step::Draw
        } else {
            Step::Wait(wait_timeout(poll_state, now.saturating_sub(self.last_drawn), tickable))
        }
    }

    /// Notes that input arrived at `now` and was handed to the application,
    /// which is in `poll_state` thereafter.
    pub fn note_input(&mut self, poll_state: PollState, now: u64)
        ensures
            *final(self) == old(self).after_input(poll_state, now),
    {
        let first = match self.first_event_time {
            Some(first) => first,
            None => now,
        };
        self.first_event_time = Some(first);
        self.force_redraw = forces_redraw(poll_state, now.saturating_sub(first));
    }

    /// Hands what woke the loop to the application and notes what follows
    /// for the batch.
    ///
    /// A message is delivered. Input is handed over, and a frame is drawn at
    /// once if the input resized the screen or has kept the application
    /// dirty for long. When time passed, the components that asked for it
    /// are told, the application is dirty, and a frame is drawn at once.
    pub fn handle<ComponentT: Component>(
        &mut self,
        app: &mut App<ComponentT>,
        wake: Wake<ComponentT::Message>,
        now: u64,
    )
        requires
            wake matches Wake::Input(Event::Resize(size)) ==> size.addressable(),
            wake matches Wake::Message(message) ==> (message.0 matches LinkMessage::RunExclusive(
                _,
                process,
            ) ==> process.may_run()),
        ensures
            final(app).root() == old(app).root(),
            final(self).last_drawn == old(self).last_drawn,
            match wake {
                Wake::Message(message) => {
                    &&& *final(self) == *old(self)
                    &&& delivered(old(app)@, final(app)@, message)
                },
                Wake::Input(event) => {
                    &&& *final(self) == old(self).after_input(final(app)@.poll_state, now)
                    &&& match event {
                        Event::KeyPress(key) => {
                            &&& keyed(
                                old(app)@,
                                Snapshot { poll_state: old(app)@.poll_state, ..final(app)@ },
                                key,
                            )
                            &&& final(app)@.poll_state == old(app)@.poll_state.merged(
                                PollState::Dirty(None),
                            )
                        },
                        Event::Resize(size) => final(app)@ == (Snapshot {
                            poll_state: old(app)@.poll_state.merged(PollState::Dirty(Some(size))),
                            ..old(app)@
                        }),
                    }
                },
                Wake::Timeout => {
                    &&& final(self).force_redraw
                    &&& final(self).first_event_time == old(self).first_event_time
                    &&& ticked(
                        old(app)@,
                        Snapshot { poll_state: tick_state(old(app)@, final(app)@), ..final(app)@ },
                    )
                    &&& final(app)@.poll_state == tick_state(old(app)@, final(app)@).merged(
                        PollState::Dirty(None),
                    )
                },
            },
    {
        match wake {
            Wake::Message(message) => {
                app.handle_message(message);
            },
            Wake::Input(event) => {
                app.handle_input(event);
                self.note_input(app.poll_state(), now);
            },
            Wake::Timeout => {
                app.tick();
                app.mark_dirty();
                self.force_redraw = true;
            },
        }
    }
}

} // verus!
