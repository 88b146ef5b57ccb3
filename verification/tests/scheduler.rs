use zi::scheduler::{
    forces_redraw, wait_timeout, EventBatch, Step, IDLE_TIMEOUT, REDRAW_LATENCY,
    SUSTAINED_IO_REDRAW_LATENCY, TICK_TIMEOUT,
};
use zi::{PollState, Size};

#[test]
fn a_dirty_application_waits_for_what_is_left_of_the_latency() {
    assert_eq!(wait_timeout(PollState::Dirty(None), 0, false), 10);
    assert_eq!(wait_timeout(PollState::Dirty(None), 4, true), 6);
    assert_eq!(wait_timeout(PollState::Dirty(None), REDRAW_LATENCY, false), 0);
    assert_eq!(wait_timeout(PollState::Dirty(Some(Size::new(1, 1))), 1000, false), 0);
}

#[test]
fn a_clean_application_waits_longer_unless_a_component_ticks() {
    assert_eq!(wait_timeout(PollState::Clean, 0, false), IDLE_TIMEOUT);
    assert_eq!(wait_timeout(PollState::Clean, 1000, false), 240);
    assert_eq!(wait_timeout(PollState::Clean, 1000, true), TICK_TIMEOUT);
    assert_eq!(wait_timeout(PollState::Clean, 0, true), 60);
}

#[test]
fn a_resize_or_sustained_input_forces_a_redraw() {
    assert!(!forces_redraw(PollState::Clean, 1000));
    assert!(!forces_redraw(PollState::Dirty(None), 99));
    assert!(forces_redraw(PollState::Dirty(None), SUSTAINED_IO_REDRAW_LATENCY));
    assert!(forces_redraw(PollState::Dirty(Some(Size::new(2, 2))), 0));
    assert!(!forces_redraw(PollState::Exit, 1000));
}

#[test]
fn a_batch_steps_from_waiting_to_drawing() {
    let mut batch = EventBatch::new(1000);
    assert_eq!(batch.step(PollState::Clean, false, 1003), Step::Wait(240));
    assert_eq!(batch.step(PollState::Dirty(None), false, 1003), Step::Wait(7));
    assert_eq!(batch.step(PollState::Dirty(None), false, 900), Step::Wait(10));
    assert_eq!(batch.step(PollState::Exit, false, 1003), Step::Stop);

    batch.note_input(PollState::Dirty(None), 1003);
    assert_eq!(batch.first_event_time, Some(1003));
    assert!(!batch.force_redraw);
    batch.note_input(PollState::Dirty(None), 1050);
    assert_eq!(batch.first_event_time, Some(1003));
    assert!(!batch.force_redraw);
    batch.note_input(PollState::Dirty(None), 1103);
    assert!(batch.force_redraw);
    assert_eq!(batch.step(PollState::Dirty(None), false, 1103), Step::Draw);
    assert_eq!(batch.step(PollState::Exit, false, 1103), Step::Stop);
}
