//! The event bus: an ordered, single-consumer FIFO queue of domain events.
//!
//! Components post events; the main loop drains them one at a time and
//! dispatches each to every handler in a fixed order.  There is no
//! priority and no dropping: whatever is posted is delivered, in post
//! order.

use std::collections::VecDeque;
use crate::midi::Message;
use vstd::prelude::*;

verus! {

#[derive(Debug, Eq, PartialEq, Clone, Structural)]
pub enum Button {
    Play,
    Stop,
    Record,
    Number(usize),
    Shift,
}

#[derive(Debug, Eq, PartialEq, Clone, Structural)]
pub enum AppEvent {
    MIDIMessage(Message),
    MIDIOutputMessage(Message),
    MIDIIOScan,
    ButtonPress(Button),
    ClockTick,
    InternalClockTick,
    GlobalQuantizerStep,
    UpdateDisplay,
}

/// The process-wide event queue.  Its view is the sequence of queued
/// events, front first.
pub struct EventLoop {
    events: VecDeque<AppEvent>,
}

impl View for EventLoop {
    type V = Seq<AppEvent>;

    closed spec fn view(&self) -> Seq<AppEvent> {
        self.events@
    }
}

impl EventLoop {
    pub fn new() -> (r: Self)
        ensures
            r@ == Seq::<AppEvent>::empty(),
    {
        Self { events: VecDeque::with_capacity(100) }
    }

    /// Appends an event at the back of the queue.
    pub fn post(&mut self, event: AppEvent)
        ensures
            final(self)@ == old(self)@.push(event),
    {
        self.events.push_back(event);
    }

    /// Removes and returns the front event, oldest first; `None` on an
    /// empty queue.
    pub fn get_event(&mut self) -> (r: Option<AppEvent>)
        ensures
            match r {
                Some(e) => old(self)@.len() > 0 && e == old(self)@[0]
                    && final(self)@ == old(self)@.drop_first(),
                None => old(self)@.len() == 0 && final(self)@ == old(self)@,
            },
    {
        self.events.pop_front()
    }
}

} // verus!
