//! The clock: tick counting, smoothed tempo estimate, and arbitration
//! between the internal and the external timing source.
//!
//! Wall-clock time enters as microsecond readings of a monotonic clock.
//! The tempo estimate is held in thousandths of a beat per minute so that
//! the exponential moving average stays in integer arithmetic.

use crate::events::{AppEvent, EventLoop};
use crate::midi::MessageKind;
use vstd::prelude::*;

verus! {

/// Ticks per quarter-note beat, fixed by the MIDI clock standard.
pub const TICKS_PER_BEAT: u32 = 24;

/// How long, in microseconds, the last external tick keeps the external
/// source live.
pub const EXTERNAL_CLOCK_TIMEOUT_US: u64 = 1_000_000;

/// 60,000,000 microseconds per minute, divided by 24 ticks per beat, in
/// thousandths: dividing this by a tick period in microseconds gives the
/// tempo of that period in milli-BPM.
pub const MILLI_BPM_NUMERATOR: u64 = 2_500_000_000;

pub struct Clock {
    pub _ticks: u32,
    pub _last_tick: u64,
    pub _last_external_tick: Option<u64>,
    /// Smoothed tempo estimate, in thousandths of a beat per minute.
    pub bpm_millis: u64,
}

impl Clock {
    /// The estimate can never exceed the tempo of a one-microsecond tick,
    /// the largest sample the average ever absorbs.
    pub open spec fn wf(self) -> bool {
        self.bpm_millis <= MILLI_BPM_NUMERATOR
    }

    /// Every timestamp the clock holds lies at or before `now_us`.
    pub open spec fn seen_before(self, now_us: u64) -> bool {
        &&& self._last_tick <= now_us
        &&& (self._last_external_tick matches Some(t) ==> t <= now_us)
    }

    /// Exponential moving average with weight one tenth on the new sample;
    /// a zero delta (duplicate timestamp) leaves the estimate untouched.
    pub open spec fn spec_ema(bpm_millis: u64, dt_us: u64) -> u64 {
        if dt_us == 0 {
            bpm_millis
        } else {
            ((bpm_millis * 9 + (MILLI_BPM_NUMERATOR as int) / (dt_us as int)) / 10) as u64
        }
    }

    /// The tick counter wraps at the integer width, not at any loop length.
    pub open spec fn spec_wrapping_inc(t: u32) -> u32 {
        if t == u32::MAX {
            0
        } else {
            (t + 1) as u32
        }
    }

    pub open spec fn spec_tick(self, now_us: u64) -> Clock {
        Clock {
            _ticks: Clock::spec_wrapping_inc(self._ticks),
            _last_tick: now_us,
            bpm_millis: Clock::spec_ema(self.bpm_millis, (now_us - self._last_tick) as u64),
            ..self
        }
    }

    pub open spec fn spec_external_tick(self, now_us: u64) -> Clock {
        Clock { _last_external_tick: Some(now_us), ..self.spec_tick(now_us) }
    }

    /// The sole arbiter between timing sources: the external clock is live
    /// for strictly less than the timeout after its last tick.
    pub open spec fn spec_has_external_clock(self, now_us: u64) -> bool {
        self._last_external_tick matches Some(t) && now_us - t < EXTERNAL_CLOCK_TIMEOUT_US
    }

    pub fn new(now_us: u64) -> (c: Clock)
        ensures
            c == (Clock {
                _ticks: 0,
                _last_tick: now_us,
                _last_external_tick: None::<u64>,
                bpm_millis: 1000,
            }),
            c.wf(),
            c.seen_before(now_us),
    {
        Clock { _ticks: 0, _last_tick: now_us, _last_external_tick: None, bpm_millis: 1000 }
    }

    /// Counts one tick from either source and folds the tick period into
    /// the tempo estimate.
    pub fn tick(&mut self, now_us: u64)
        requires
            old(self).wf(),
            old(self)._last_tick <= now_us,
        ensures
            *final(self) == old(self).spec_tick(now_us),
            final(self).wf(),
    {
        self._ticks = if self._ticks == u32::MAX { 0 } else { self._ticks + 1 };
        let dt = now_us - self._last_tick;
        self._last_tick = now_us;
        if dt > 0 {
            let sample = MILLI_BPM_NUMERATOR / dt;
            self.bpm_millis = (self.bpm_millis * 9 + sample) / 10;
        }
    }

    /// A tick of the external source: counted like any tick, then recorded
    /// as the latest external activity.
    pub fn external_tick(&mut self, now_us: u64)
        requires
            old(self).wf(),
            old(self)._last_tick <= now_us,
        ensures
            *final(self) == old(self).spec_external_tick(now_us),
            final(self).wf(),
    {
        self.tick(now_us);
        self._last_external_tick = Some(now_us);
    }

    pub fn ticks(&self) -> (r: u32)
        ensures
            r == self._ticks,
    {
        self._ticks
    }

    pub fn beats(&self) -> (r: u32)
        ensures
            r == self._ticks / TICKS_PER_BEAT,
    {
        self._ticks / TICKS_PER_BEAT
    }

    pub fn has_external_clock(&self, now_us: u64) -> (r: bool)
        requires
            self.seen_before(now_us),
        ensures
            r == self.spec_has_external_clock(now_us),
    {
        match self._last_external_tick {
            Some(t) => now_us - t < EXTERNAL_CLOCK_TIMEOUT_US,
            None => false,
        }
    }

    /// The tempo handed to the internal tick source: zero (idle) while an
    /// external clock is live, else the configured tempo.
    pub fn effective_internal_bpm(&self, now_us: u64, configured_bpm: u32) -> (r: u32)
        requires
            self.seen_before(now_us),
        ensures
            r == if self.spec_has_external_clock(now_us) {
                0u32
            } else {
                configured_bpm
            },
    {
        if self.has_external_clock(now_us) {
            0
        } else {
            configured_bpm
        }
    }

    /// The clock's reaction to one bus event: the clock afterwards, and
    /// what it posts.  Both timing sources funnel into one normalized
    /// `ClockTick`; a `ClockTick` on a quantizer-bar multiple yields the
    /// `GlobalQuantizerStep` that fires deferred transport actions.
    pub open spec fn spec_handle(self, event: AppEvent, global_q: u32, now_us: u64) -> (Clock, Seq<
        AppEvent,
    >) {
        match event {
            AppEvent::MIDIMessage(m) => if m.kind is TimingClock {
                (self.spec_external_tick(now_us), seq![AppEvent::ClockTick])
            } else {
                (self, Seq::empty())
            },
            AppEvent::InternalClockTick => (self.spec_tick(now_us), seq![AppEvent::ClockTick]),
            AppEvent::ClockTick => if self._ticks % ((TICKS_PER_BEAT * global_q) as u32) == 0 {
                (self, seq![AppEvent::GlobalQuantizerStep])
            } else {
                (self, Seq::empty())
            },
            _ => (self, Seq::empty()),
        }
    }

    pub fn handle_event(
        &mut self,
        event: &AppEvent,
        global_q: u32,
        now_us: u64,
        event_loop: &mut EventLoop,
    )
        requires
            old(self).wf(),
            old(self)._last_tick <= now_us,
            1 <= global_q,
            TICKS_PER_BEAT * global_q <= u32::MAX,
        ensures
            *final(self) == old(self).spec_handle(*event, global_q, now_us).0,
            final(self).wf(),
            final(event_loop)@ == old(event_loop)@ + old(self).spec_handle(
                *event,
                global_q,
                now_us,
            ).1,
    {
        match event {
            AppEvent::MIDIMessage(message) => {
                if message.kind == MessageKind::TimingClock {
                    self.external_tick(now_us);
                    event_loop.post(AppEvent::ClockTick);
                }
            },
            AppEvent::InternalClockTick => {
                self.tick(now_us);
                event_loop.post(AppEvent::ClockTick);
            },
            AppEvent::ClockTick => {
                if self._ticks % (TICKS_PER_BEAT * global_q) == 0 {
                    event_loop.post(AppEvent::GlobalQuantizerStep);
                }
            },
            _ => {},
        }
    }
}

/// The external-clock window is exact: after an external tick at `t`, the
/// arbiter reports an external clock at query time `q` if and only if less
/// than the full timeout has passed.
pub proof fn lemma_external_clock_window(c: Clock, t: u64, q: u64)
    requires
        t <= q,
    ensures
        c.spec_external_tick(t).spec_has_external_clock(q) == (q - t < EXTERNAL_CLOCK_TIMEOUT_US),
{
}

/// One cycle of the internal tick source: whether to post `InternalClockTick`
/// now, and when the next cycle is due.  A positive tempo ticks every
/// 60/bpm/24 seconds (2,500,000/bpm microseconds); tempo zero idles for one
/// second and checks again.  Each deadline is computed from `now_us`, never
/// by a fixed increment, so the source cannot drift cumulatively.
pub fn plan_internal_tick(bpm: u32, now_us: u64) -> (r: (bool, u64))
    requires
        now_us + 2_500_000 <= u64::MAX,
    ensures
        r.0 == (bpm > 0),
        r.1 == now_us + if bpm > 0 {
            2_500_000u64 / bpm as u64
        } else {
            1_000_000u64
        },
{
    if bpm > 0 {
        (true, now_us + 2_500_000 / (bpm as u64))
    } else {
        (false, now_us + 1_000_000)
    }
}

} // verus!
