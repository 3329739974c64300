use vstd::prelude::*;

verus! {

/// The two states of the frame loop; `Stopped` is terminal.
#[derive(Clone, Copy, Debug, PartialEq, Eq, Structural)]
pub enum LoopState {
    Running,
    Stopped,
}

/// An input event as far as the frame loop cares: a request to quit, or anything else.
#[derive(Clone, Copy, Debug, PartialEq, Eq, Structural)]
pub enum FrameEvent {
    Quit,
    Other,
}

/// The state after one event: a quit request stops the loop, other events change nothing.
pub fn next_state(state: LoopState, event: FrameEvent) -> (r: LoopState)
    ensures
        r == (if event == FrameEvent::Quit {
            LoopState::Stopped
        } else {
            state
        }),
{
    match event {
        FrameEvent::Quit => LoopState::Stopped,
        FrameEvent::Other => state,
    }
}

/// The state after the events polled at the start of a frame: the loop stops
/// exactly when it was stopped already or one of the events asks to quit.
pub fn state_after_events(state: LoopState, events: &Vec<FrameEvent>) -> (r: LoopState)
    ensures
        r == LoopState::Stopped <==> (state == LoopState::Stopped || events@.contains(
            FrameEvent::Quit,
        )),
{
    let mut s = state;
    let mut i: usize = 0;
    while i < events.len()
        invariant
            0 <= i <= events@.len(),
            s == LoopState::Stopped <==> (state == LoopState::Stopped || exists|k: int|
                0 <= k < i && #[trigger] events@[k] == FrameEvent::Quit),
        decreases events@.len() - i,
    {
        if s == LoopState::Stopped {
            return s;
        }
        s = next_state(s, events[i]);
        i = i + 1;
    }
    s
}

/// Milliseconds from `begin` to `end` on a 32-bit tick counter that counts up
/// and wraps around at 2^32.
pub fn elapsed_ms(begin: u32, end: u32) -> (r: u32)
    ensures
        r as int == (end as int - begin as int) % 0x1_0000_0000,
        begin <= end ==> r == end - begin,
{
    end.wrapping_sub(begin)
}

} // verus!
