use tesseract::frame::{elapsed_ms, next_state, state_after_events, FrameEvent, LoopState};

#[test]
fn quit_event_stops_the_loop() {
    assert_eq!(next_state(LoopState::Running, FrameEvent::Quit), LoopState::Stopped);
    assert_eq!(next_state(LoopState::Running, FrameEvent::Other), LoopState::Running);
    assert_eq!(next_state(LoopState::Stopped, FrameEvent::Other), LoopState::Stopped);
}

#[test]
fn events_without_quit_keep_running() {
    let events = vec![FrameEvent::Other, FrameEvent::Other];
    assert_eq!(state_after_events(LoopState::Running, &events), LoopState::Running);
    assert_eq!(state_after_events(LoopState::Running, &Vec::new()), LoopState::Running);
}

#[test]
fn any_quit_among_events_stops() {
    let events = vec![FrameEvent::Other, FrameEvent::Quit, FrameEvent::Other];
    assert_eq!(state_after_events(LoopState::Running, &events), LoopState::Stopped);
    assert_eq!(state_after_events(LoopState::Stopped, &Vec::new()), LoopState::Stopped);
}

#[test]
fn elapsed_ticks_within_and_across_wrap() {
    assert_eq!(elapsed_ms(1000, 1016), 16);
    assert_eq!(elapsed_ms(5, 5), 0);
    assert_eq!(elapsed_ms(u32::MAX - 9, 6), 16);
}
