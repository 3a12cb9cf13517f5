//! The shared application state and the core dispatch of one bus event.
//!
//! The main loop outside drains the bus and hands every event to
//! `dispatch_core`, which runs the fixed handler order the recorder
//! depends on: the clock first, then every track in index order.  Because
//! the clock posts `ClockTick` before any handler of that tick runs, and
//! posts `GlobalQuantizerStep` only while handling a `ClockTick`, a tick
//! always precedes the quantizer boundary derived from it on the FIFO
//! bus.

use crate::clock::{Clock, TICKS_PER_BEAT};
use crate::events::{AppEvent, EventLoop};
use crate::midi::Message;
use crate::sequencer::{Sequencer, TrackModel};
use vstd::prelude::*;

verus! {

/// How many tracks the recorder runs.
pub const TRACK_COUNT: usize = 16;

pub struct AppState {
    /// Beats per quantizer bar: deferred transport actions fire every
    /// `TICKS_PER_BEAT * global_q` ticks.
    pub global_q: u32,
    pub bar_size: u32,
    /// Configured tempo of the internal tick source.
    pub internal_bpm: u32,
    pub sequencers: Vec<Sequencer>,
    pub selected_sequencer: usize,
    pub selected_bank: usize,
}

/// The track models of a row of sequencers.
pub open spec fn models(ss: Seq<Sequencer>) -> Seq<TrackModel> {
    Seq::new(ss.len(), |i: int| ss[i]@)
}

/// Everything the tracks `0..k` post while handling `event`, in track
/// order.
pub open spec fn seqs_out_upto(ss: Seq<TrackModel>, event: AppEvent, k: int) -> Seq<AppEvent>
    decreases k,
{
    if k <= 0 {
        Seq::empty()
    } else {
        seqs_out_upto(ss, event, k - 1) + ss[k - 1].spec_handle(event).1
    }
}

impl AppState {
    pub open spec fn wf(self) -> bool {
        &&& 1 <= self.global_q
        &&& TICKS_PER_BEAT * self.global_q <= u32::MAX
        &&& forall|i: int| 0 <= i < self.sequencers@.len() ==> (#[trigger] self.sequencers@[i])@.wf()
    }

    /// A fresh state: sixteen idle tracks, a four-beat quantizer bar, and
    /// the default internal tempo.
    pub fn new() -> (s: AppState)
        ensures
            s.wf(),
            s.global_q == 4,
            s.bar_size == 4,
            s.internal_bpm == 120,
            s.sequencers@.len() == TRACK_COUNT,
            s.selected_sequencer == 0,
            s.selected_bank == 0,
    {
        let mut sequencers: Vec<Sequencer> = Vec::new();
        let mut i: usize = 0;
        while i < TRACK_COUNT
            invariant
                i <= TRACK_COUNT,
                sequencers@.len() == i,
                forall|j: int| 0 <= j < i ==> (#[trigger] sequencers@[j])@.wf(),
            decreases TRACK_COUNT - i,
        {
            sequencers.push(Sequencer::new());
            i += 1;
        }
        AppState {
            global_q: 4,
            bar_size: 4,
            internal_bpm: 120,
            sequencers,
            selected_sequencer: 0,
            selected_bank: 0,
        }
    }
}

/// Dispatches one bus event through the core in the fixed handler order:
/// the clock first, then every track in index order.  A `MIDIOutputMessage`
/// event is the output adapter's turn: its message is returned so the
/// caller can put it on the wire.
pub fn dispatch_core(
    state: &mut AppState,
    clock: &mut Clock,
    event_loop: &mut EventLoop,
    event: &AppEvent,
    now_us: u64,
) -> (out: Option<Message>)
    requires
        old(state).wf(),
        old(clock).wf(),
        old(clock)._last_tick <= now_us,
    ensures
        final(state).wf(),
        final(clock).wf(),
        *final(clock) == old(clock).spec_handle(*event, old(state).global_q, now_us).0,
        final(state).sequencers@.len() == old(state).sequencers@.len(),
        forall|i: int|
            0 <= i < old(state).sequencers@.len() ==> (#[trigger] final(state).sequencers@[i])@
                == old(state).sequencers@[i]@.spec_handle(*event).0,
        final(state).global_q == old(state).global_q,
        final(state).bar_size == old(state).bar_size,
        final(state).internal_bpm == old(state).internal_bpm,
        final(state).selected_sequencer == old(state).selected_sequencer,
        final(state).selected_bank == old(state).selected_bank,
        final(event_loop)@ == old(event_loop)@ + old(clock).spec_handle(
            *event,
            old(state).global_q,
            now_us,
        ).1 + seqs_out_upto(
            models(old(state).sequencers@),
            *event,
            old(state).sequencers@.len() as int,
        ),
        out == match *event {
            AppEvent::MIDIOutputMessage(m) => Some(m),
            _ => None::<Message>,
        },
{
    clock.handle_event(event, state.global_q, now_us, event_loop);
    let ghost orig = state.sequencers@;
    let ghost bus_after_clock = event_loop@;
    let mut handled: Vec<Sequencer> = Vec::new();
    while state.sequencers.len() > 0
        invariant
            state.global_q == old(state).global_q,
            state.bar_size == old(state).bar_size,
            state.internal_bpm == old(state).internal_bpm,
            state.selected_sequencer == old(state).selected_sequencer,
            state.selected_bank == old(state).selected_bank,
            handled@.len() + state.sequencers@.len() == orig.len(),
            forall|j: int|
                0 <= j < state.sequencers@.len() ==> (#[trigger] state.sequencers@[j]) == orig[j
                    + handled@.len()],
            forall|j: int|
                0 <= j < handled@.len() ==> (#[trigger] handled@[j])@ == orig[j]@.spec_handle(
                    *event,
                ).0,
            forall|j: int| 0 <= j < handled@.len() ==> (#[trigger] handled@[j])@.wf(),
            forall|j: int| 0 <= j < orig.len() ==> (#[trigger] orig[j])@.wf(),
            event_loop@ == bus_after_clock + seqs_out_upto(
                models(orig),
                *event,
                handled@.len() as int,
            ),
        decreases state.sequencers@.len(),
    {
        let mut s = state.sequencers.remove(0);
        let ghost k = handled@.len() as int;
        proof {
            assert(s == orig[k]);
            assert(models(orig)[k] == orig[k]@);
        }
        s.handle_event(event, event_loop);
        handled.push(s);
        proof {
            assert(event_loop@ =~= bus_after_clock + seqs_out_upto(models(orig), *event, k + 1));
        }
    }
    state.sequencers = handled;
    proof {
        assert(final(event_loop)@ == old(event_loop)@ + old(clock).spec_handle(
            *event,
            old(state).global_q,
            now_us,
        ).1 + seqs_out_upto(models(orig), *event, orig.len() as int));
    }
    match event {
        AppEvent::MIDIOutputMessage(message) => Some(*message),
        _ => None,
    }
}

} // verus!
