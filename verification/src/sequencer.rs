//! The per-track sequencer: quantized transport state machine, event
//! capture during recording, commit of a recording pass, and gated note
//! output during playback.
//!
//! A `Sequencer`'s ghost view is a `TrackModel`, a mathematical copy of its
//! state with sequences in place of vectors; every contract below is
//! stated over that model.

use crate::clock::TICKS_PER_BEAT;
use crate::events::{AppEvent, EventLoop};
use crate::midi::{Message, MessageKind};
use vstd::prelude::*;

verus! {

#[derive(PartialEq, Clone, Copy, Eq, Debug, Structural)]
pub struct SequencerEvent {
    /// Tick offset within the loop.
    pub position: u32,
    /// Sounding length in ticks; meaningful on note-on events.
    pub duration: u32,
    pub message: Message,
}

#[derive(PartialEq, Clone, Copy, Eq, Debug, Structural)]
pub enum SequencerAction {
    Start,
    Stop,
    Record,
}

/// A pluggable transform over a track's committed event list.
pub trait Filter {
    fn filter(&self, events: &mut Vec<SequencerEvent>, sequencer: &Sequencer);
}

pub struct QuantizerFilter {
    /// Subdivisions per four-beat bar; zero makes the filter a no-op.
    pub divisor: u32,
}

/// Rounding division: nearest multiple, ties rounded up.
pub open spec fn spec_div_round(a: u32, b: u32) -> int
    recommends
        b >= 1,
{
    a / b + (a % b) * 2 / (b as int)
}

/// The rounding term of `spec_div_round` is zero or one, never more.
pub proof fn lemma_div_round_bound(x: int, b: int)
    requires
        b >= 1,
        0 <= x < b,
    ensures
        0 <= x * 2 / b <= 1,
{
    let t = x * 2 / b;
    vstd::arithmetic::div_mod::lemma_fundamental_div_mod(x * 2, b);
    if t >= 2 {
        assert(b * t >= b * 2) by (nonlinear_arith)
            requires
                b >= 1,
                t >= 2,
        ;
        assert(false);
    }
    if t < 0 {
        assert(b * t <= b * -1) by (nonlinear_arith)
            requires
                b >= 1,
                t <= -1,
        ;
        assert(false);
    }
}

#[inline]
pub fn div_round(a: u32, b: u32) -> (r: u32)
    requires
        b >= 1,
    ensures
        r == spec_div_round(a, b),
{
    proof {
        lemma_div_round_bound((a % b) as int, b as int);
        if b >= 2 {
            vstd::arithmetic::div_mod::lemma_div_is_ordered_by_denominator(a as int, 2, b as int);
        }
    }
    let rounding = (((a % b) as u64 * 2) / (b as u64)) as u32;
    a / b + rounding
}

/// Events in ascending position order.
pub open spec fn sorted_by_position(s: Seq<SequencerEvent>) -> bool {
    forall|i: int, j: int|
        0 <= i < j < s.len() ==> (#[trigger] s[i]).position <= (#[trigger] s[j]).position
}

/// Insertion of one event into a sorted run: it lands before every event
/// at a strictly greater position and after every other, so equal
/// positions keep their prior relative order.
pub open spec fn insert_by_position(e: SequencerEvent, s: Seq<SequencerEvent>) -> Seq<
    SequencerEvent,
>
    decreases s.len(),
{
    if s.len() == 0 {
        seq![e]
    } else if s.last().position > e.position {
        insert_by_position(e, s.drop_last()).push(s.last())
    } else {
        s.push(e)
    }
}

/// Stable sort of an event list by position.
pub open spec fn sort_by_position(s: Seq<SequencerEvent>) -> Seq<SequencerEvent>
    decreases s.len(),
{
    if s.len() == 0 {
        Seq::empty()
    } else {
        insert_by_position(s.last(), sort_by_position(s.drop_last()))
    }
}

/// The subsequence of events standing exactly at position `p`, in order.
pub open spec fn at_position(s: Seq<SequencerEvent>, p: u32) -> Seq<SequencerEvent>
    decreases s.len(),
{
    if s.len() == 0 {
        Seq::empty()
    } else if s.last().position == p {
        at_position(s.drop_last(), p).push(s.last())
    } else {
        at_position(s.drop_last(), p)
    }
}

/// Inserting an event that satisfies a pointwise property into a list
/// whose events all satisfy it yields a list whose events all satisfy it.
pub proof fn lemma_insert_all(e: SequencerEvent, s: Seq<SequencerEvent>, p: spec_fn(
    SequencerEvent,
) -> bool)
    requires
        p(e),
        forall|k: int| 0 <= k < s.len() ==> p(#[trigger] s[k]),
    ensures
        insert_by_position(e, s).len() == s.len() + 1,
        forall|k: int|
            0 <= k < insert_by_position(e, s).len() ==> p(#[trigger] insert_by_position(e, s)[k]),
    decreases s.len(),
{
    if s.len() == 0 {
    } else if s.last().position > e.position {
        lemma_insert_all(e, s.drop_last(), p);
    }
}

/// Sorting preserves length and every pointwise property of the events.
pub proof fn lemma_sort_all(s: Seq<SequencerEvent>, p: spec_fn(SequencerEvent) -> bool)
    requires
        forall|k: int| 0 <= k < s.len() ==> p(#[trigger] s[k]),
    ensures
        sort_by_position(s).len() == s.len(),
        forall|k: int| 0 <= k < sort_by_position(s).len() ==> p(#[trigger] sort_by_position(s)[k]),
    decreases s.len(),
{
    if s.len() > 0 {
        lemma_sort_all(s.drop_last(), p);
        lemma_insert_all(s.last(), sort_by_position(s.drop_last()), p);
    }
}

/// Inserting into a sorted run keeps it sorted.
pub proof fn lemma_insert_sorted(e: SequencerEvent, s: Seq<SequencerEvent>)
    requires
        sorted_by_position(s),
    ensures
        sorted_by_position(insert_by_position(e, s)),
    decreases s.len(),
{
    if s.len() == 0 {
    } else if s.last().position > e.position {
        lemma_insert_sorted(e, s.drop_last());
        let bound = s.last().position;
        lemma_insert_all(
            e,
            s.drop_last(),
            |x: SequencerEvent| x.position <= bound,
        );
    }
}

/// The sort's result is sorted ascending by position.
pub proof fn lemma_sort_sorted(s: Seq<SequencerEvent>)
    ensures
        sorted_by_position(sort_by_position(s)),
    decreases s.len(),
{
    if s.len() > 0 {
        lemma_sort_sorted(s.drop_last());
        lemma_insert_sorted(s.last(), sort_by_position(s.drop_last()));
    }
}

/// Stability of insertion: at every position the run of events is either
/// unchanged or gains the new event at its end.
pub proof fn lemma_insert_stable(e: SequencerEvent, s: Seq<SequencerEvent>, p: u32)
    ensures
        e.position == p ==> at_position(insert_by_position(e, s), p) == at_position(s, p).push(e),
        e.position != p ==> at_position(insert_by_position(e, s), p) == at_position(s, p),
    decreases s.len(),
{
    if s.len() == 0 {
        assert(seq![e].drop_last() =~= Seq::<SequencerEvent>::empty());
        assert(seq![e].last() == e);
        assert(at_position(seq![e].drop_last(), p) == at_position(s, p));
    } else if s.last().position > e.position {
        lemma_insert_stable(e, s.drop_last(), p);
        let t = insert_by_position(e, s.drop_last());
        assert(insert_by_position(e, s) == t.push(s.last()));
        assert(t.push(s.last()).drop_last() =~= t);
        assert(t.push(s.last()).last() == s.last());
        assert(at_position(t.push(s.last()).drop_last(), p) == at_position(t, p));
        if s.last().position == p {
            assert(at_position(insert_by_position(e, s), p) == at_position(t, p).push(s.last()));
            assert(at_position(s, p) == at_position(s.drop_last(), p).push(s.last()));
        } else {
            assert(at_position(insert_by_position(e, s), p) == at_position(t, p));
            assert(at_position(s, p) == at_position(s.drop_last(), p));
        }
    } else {
        assert(s.push(e).drop_last() =~= s);
        assert(s.push(e).last() == e);
        assert(at_position(s.push(e).drop_last(), p) == at_position(s, p));
        if e.position == p {
            assert(at_position(insert_by_position(e, s), p) == at_position(s, p).push(e));
        } else {
            assert(at_position(insert_by_position(e, s), p) == at_position(s, p));
        }
    }
}

/// Stability of the sort: for every position, the subsequence of events at
/// that position is exactly what it was before sorting — ties keep their
/// prior relative order.
pub proof fn lemma_sort_stable(s: Seq<SequencerEvent>, p: u32)
    ensures
        at_position(sort_by_position(s), p) == at_position(s, p),
    decreases s.len(),
{
    if s.len() > 0 {
        lemma_sort_stable(s.drop_last(), p);
        lemma_insert_stable(s.last(), sort_by_position(s.drop_last()), p);
    }
}

/// One track of the recorder.  All fields are public state; the
/// well-formedness the verified methods preserve is `TrackModel::wf` on
/// the track's view.
pub struct Sequencer {
    /// Which notes are currently sounding during playback, so that only
    /// on/off transitions are emitted.
    pub open_notes: Vec<bool>,
    /// Current playhead tick, `0..=_length`.
    pub position: u32,
    /// Channel filter for recording; zero accepts any channel.
    pub input_channel: u8,
    /// Channel stamped on every emitted message, `1..=16`.
    pub output_channel: u8,
    /// Loop length in ticks; open-ended only during a first recording pass.
    pub _length: u32,
    /// The committed timeline, ascending by position.
    pub events: Vec<SequencerEvent>,
    /// Events captured in the in-progress pass, not yet committed.
    pub recording_events: Vec<SequencerEvent>,
    /// Per-note pending note-on awaiting its note-off during recording.
    pub recording_open_events: Vec<Option<SequencerEvent>>,
    pub running: bool,
    pub recording: bool,
    pub is_first_recording: bool,
    /// Deferred transport action, fired at the next quantizer boundary.
    pub scheduled_action: Option<SequencerAction>,
}

/// The mathematical state of one track: the `Sequencer` fields with
/// sequences for vectors.
#[verifier::ext_equal]
pub struct TrackModel {
    pub open_notes: Seq<bool>,
    pub position: u32,
    pub input_channel: u8,
    pub output_channel: u8,
    pub length: u32,
    pub events: Seq<SequencerEvent>,
    pub recording_events: Seq<SequencerEvent>,
    pub recording_open_events: Seq<Option<SequencerEvent>>,
    pub running: bool,
    pub recording: bool,
    pub is_first_recording: bool,
    pub scheduled_action: Option<SequencerAction>,
}

impl View for Sequencer {
    type V = TrackModel;

    open spec fn view(&self) -> TrackModel {
        TrackModel {
            open_notes: self.open_notes@,
            position: self.position,
            input_channel: self.input_channel,
            output_channel: self.output_channel,
            length: self._length,
            events: self.events@,
            recording_events: self.recording_events@,
            recording_open_events: self.recording_open_events@,
            running: self.running,
            recording: self.recording,
            is_first_recording: self.is_first_recording,
            scheduled_action: self.scheduled_action,
        }
    }
}

impl TrackModel {
    /// The open recording slot for note `n` holds only a pending note-on
    /// captured during the current pass: its note is `n`, it lies within
    /// the loop, and during an open-ended first pass it lies at or before
    /// the playhead.
    pub open spec fn slot_wf(self, n: int) -> bool {
        self.recording_open_events[n] matches Some(e) ==> {
            &&& self.recording
            &&& e.message.note == n
            &&& e.position <= self.length
            &&& (self.is_first_recording ==> e.position <= self.position)
        }
    }

    /// Track well-formedness: the two note tables have one slot per MIDI
    /// note, the loop has positive length and contains the playhead, the
    /// output channel is encodable, and all stored notes are in range.
    pub open spec fn wf(self) -> bool {
        &&& self.open_notes.len() == 128
        &&& self.recording_open_events.len() == 128
        &&& 1 <= self.length
        &&& self.position <= self.length
        &&& 1 <= self.output_channel <= 16
        &&& forall|i: int|
            0 <= i < self.events.len() ==> (#[trigger] self.events[i]).message.note < 128
        &&& forall|i: int|
            0 <= i < self.recording_events.len() ==> (
            #[trigger] self.recording_events[i]).message.note < 128
        &&& forall|n: int| 0 <= n < 128 ==> self.slot_wf(n)
    }

    /// Distance from `start` forward to `end` around the loop.
    pub open spec fn spec_normalize(self, end: u32, start: u32) -> u32
        recommends
            self.length >= 1,
    {
        ((end + self.length - start) % (self.length as int)) as u32
    }

    /// Closing a pending note: the finished event is appended to the
    /// recording buffer with the wrapped distance from its opening as its
    /// duration, and its slot is cleared.
    pub open spec fn close_one(self, e: SequencerEvent) -> TrackModel {
        TrackModel {
            recording_events: self.recording_events.push(
                SequencerEvent {
                    position: e.position,
                    duration: self.spec_normalize(self.position, e.position),
                    message: e.message,
                },
            ),
            recording_open_events: self.recording_open_events.update(e.message.note as int, None),
            ..self
        }
    }

    /// Slots `0..n` closed in note order, each at the current position.
    pub open spec fn close_upto(self, n: int) -> TrackModel
        decreases n,
    {
        if n <= 0 {
            self
        } else {
            let prev = self.close_upto(n - 1);
            match prev.recording_open_events[n - 1] {
                Some(e) => prev.close_one(e),
                None => prev,
            }
        }
    }

    /// Committing a recording pass: a first pass that played at least one
    /// tick fixes the loop length at the playhead; every still-open note is
    /// closed at the current position; the buffered events join the
    /// committed timeline, which is re-sorted stably by position.
    pub open spec fn spec_commit(self) -> TrackModel {
        let sized = TrackModel {
            length: if self.is_first_recording && self.position > 0 {
                self.position
            } else {
                self.length
            },
            ..self
        };
        let closed = sized.close_upto(128);
        TrackModel {
            events: sort_by_position(closed.events + closed.recording_events),
            recording_events: Seq::empty(),
            recording_open_events: Seq::new(128, |i: int| None),
            ..closed
        }
    }

    /// The transport state machine.  `Start` commits a running recording
    /// and keeps playing seamlessly, or rewinds and starts from idle;
    /// `Stop` commits and rewinds to idle; `Record` commits any running
    /// pass and re-arms a fresh one, open-ended exactly when the timeline
    /// is still empty.  Every action clears the deferred action.
    pub open spec fn spec_perform(self, action: SequencerAction) -> TrackModel {
        let stepped = match action {
            SequencerAction::Start => {
                let c = if self.recording {
                    TrackModel { recording: false, ..self.spec_commit() }
                } else {
                    TrackModel { position: 0, ..self }
                };
                TrackModel { running: true, ..c }
            },
            SequencerAction::Stop => {
                let c = if self.recording {
                    self.spec_commit()
                } else {
                    self
                };
                TrackModel { running: false, recording: false, position: 0, ..c }
            },
            SequencerAction::Record => {
                let c = if self.recording {
                    self.spec_commit()
                } else {
                    self
                };
                TrackModel {
                    running: true,
                    recording: true,
                    is_first_recording: c.events.len() == 0,
                    ..c
                }
            },
        };
        TrackModel { scheduled_action: None, ..stepped }
    }

    /// Recording capture of one incoming message.  While recording and
    /// within the channel filter, a note-on or note-off first closes any
    /// pending event for its note, and a note-on then opens a fresh one at
    /// the playhead.  A note number outside the table (malformed input) is
    /// discarded, as a protocol error never aborts.
    pub open spec fn spec_capture(self, m: Message) -> TrackModel {
        if self.recording && (self.input_channel == 0 || m.channel == self.input_channel) && (
        m.kind is NoteOn || m.kind is NoteOff) && m.note < 128 {
            let closed = match self.recording_open_events[m.note as int] {
                Some(e) => self.close_one(e),
                None => self,
            };
            if m.kind is NoteOn {
                TrackModel {
                    recording_open_events: closed.recording_open_events.update(
                        m.note as int,
                        Some(SequencerEvent { position: closed.position, duration: 0, message: m }),
                    ),
                    ..closed
                }
            } else {
                closed
            }
        } else {
            self
        }
    }

    /// The playhead after a running tick: advance one tick; an open-ended
    /// first recording pass grows the loop instead of wrapping, every
    /// other state wraps into the loop.  The advance saturates at the
    /// integer width.
    pub open spec fn spec_advance(self) -> TrackModel
        recommends
            self.length >= 1,
    {
        let p1 = if self.position == u32::MAX {
            u32::MAX
        } else {
            (self.position + 1) as u32
        };
        if self.recording && self.is_first_recording {
            TrackModel {
                position: p1,
                length: if self.length > p1 {
                    self.length
                } else {
                    p1
                },
                ..self
            }
        } else {
            TrackModel { position: ((p1 as int) % (self.length as int)) as u32, ..self }
        }
    }

    /// The track after one `ClockTick`: when running, the gates become
    /// exactly the set of notes open at the playhead and the playhead
    /// advances; when stopped, every gate is flushed closed.
    pub open spec fn spec_tick(self) -> TrackModel {
        if self.running {
            TrackModel {
                open_notes: Seq::new(128, |n: int| open_note_set(self.events, self.position)[n] is Some),
                ..self
            }.spec_advance()
        } else {
            TrackModel { open_notes: Seq::new(128, |n: int| false), ..self }
        }
    }

    /// What one `ClockTick` emits: the note-on/note-off transitions from
    /// the previous gate state to the notes open at the playhead — or to
    /// silence when the transport is stopped.
    pub open spec fn spec_tick_out(self) -> Seq<AppEvent> {
        if self.running {
            emission(
                open_note_set(self.events, self.position),
                self.open_notes,
                self.output_channel,
                128,
            )
        } else {
            emission(empty_table(), self.open_notes, self.output_channel, 128)
        }
    }

    /// The track's reaction to one bus event: the track afterwards and
    /// what it posts.
    pub open spec fn spec_handle(self, event: AppEvent) -> (TrackModel, Seq<AppEvent>) {
        match event {
            AppEvent::MIDIMessage(m) => (self.spec_capture(m), Seq::empty()),
            AppEvent::GlobalQuantizerStep => match self.scheduled_action {
                Some(a) => (self.spec_perform(a), Seq::empty()),
                None => (self, Seq::empty()),
            },
            AppEvent::ClockTick => (self.spec_tick(), self.spec_tick_out()),
            _ => (self, Seq::empty()),
        }
    }
}

/// A message redirected to the track's output channel.
pub open spec fn spec_with_channel(m: Message, ch: u8) -> Message {
    Message { channel: ch, ..m }
}

/// The bare note-off a stopping gate emits.
pub open spec fn spec_note_off_msg(ch: u8, note: u8) -> Message {
    Message { channel: ch, note, ..Message::blank(MessageKind::NoteOff) }
}

/// What one note's gating emits when moving from `gated` to `slot`:
/// a note-on when a held note was not yet gated, a note-off when a gated
/// note is no longer held, nothing otherwise.
pub open spec fn emit_for_note(
    slot: Option<SequencerEvent>,
    gated: bool,
    ch: u8,
    note: u8,
) -> Seq<AppEvent> {
    match slot {
        Some(e) => if !gated {
            seq![AppEvent::MIDIOutputMessage(spec_with_channel(e.message, ch))]
        } else {
            Seq::empty()
        },
        None => if gated {
            seq![AppEvent::MIDIOutputMessage(spec_note_off_msg(ch, note))]
        } else {
            Seq::empty()
        },
    }
}

/// Everything the gates for notes `0..n` emit, in ascending note order.
pub open spec fn emission(
    slots: Seq<Option<SequencerEvent>>,
    gates: Seq<bool>,
    ch: u8,
    n: int,
) -> Seq<AppEvent>
    decreases n,
{
    if n <= 0 {
        Seq::empty()
    } else {
        emission(slots, gates, ch, n - 1) + emit_for_note(
            slots[n - 1],
            gates[n - 1],
            ch,
            (n - 1) as u8,
        )
    }
}

/// A note table with every slot empty.
pub open spec fn empty_table() -> Seq<Option<SequencerEvent>> {
    Seq::new(128, |i: int| None)
}

/// The playback scan folded over a sorted event list, starting from
/// `table`: it stops at the first event at or past the playhead (no later
/// event of a sorted list can be open), skips events that ended before the
/// playhead, and records every other as the open event of its note — the
/// last one scanned wins.  An event whose duration crosses the loop end is
/// not wrapped around: openness is judged on the straight interval only.
pub open spec fn open_after(
    table: Seq<Option<SequencerEvent>>,
    events: Seq<SequencerEvent>,
    p: u32,
) -> Seq<Option<SequencerEvent>>
    decreases events.len(),
{
    if events.len() == 0 {
        table
    } else {
        let e = events[0];
        if e.position >= p {
            table
        } else if e.position + e.duration < p {
            open_after(table, events.drop_first(), p)
        } else {
            open_after(table.update(e.message.note as int, Some(e)), events.drop_first(), p)
        }
    }
}

/// The set of notes open at position `p`, one slot per note.
pub open spec fn open_note_set(events: Seq<SequencerEvent>, p: u32) -> Seq<Option<SequencerEvent>> {
    open_after(empty_table(), events, p)
}

impl Sequencer {
    pub fn new() -> (s: Sequencer)
        ensures
            s@.wf(),
            s@.position == 0,
            s@.length == 4 * TICKS_PER_BEAT,
            s@.input_channel == 0,
            s@.output_channel == 1,
            s@.events == Seq::<SequencerEvent>::empty(),
            s@.recording_events == Seq::<SequencerEvent>::empty(),
            s@.open_notes == Seq::new(128, |i: int| false),
            s@.recording_open_events == Seq::new(128, |i: int| None::<SequencerEvent>),
            !s@.running,
            !s@.recording,
            !s@.is_first_recording,
            s@.scheduled_action is None,
    {
        let mut open_notes: Vec<bool> = Vec::new();
        let mut recording_open_events: Vec<Option<SequencerEvent>> = Vec::new();
        let mut i: usize = 0;
        while i < 128
            invariant
                i <= 128,
                open_notes@.len() == i,
                recording_open_events@.len() == i,
                forall|j: int| 0 <= j < i ==> !(#[trigger] open_notes@[j]),
                forall|j: int| 0 <= j < i ==> (#[trigger] recording_open_events@[j]) is None,
            decreases 128 - i,
        {
            open_notes.push(false);
            recording_open_events.push(None);
            i += 1;
        }
        proof {
            assert(open_notes@ =~= Seq::new(128, |i: int| false));
            assert(recording_open_events@ =~= Seq::new(128, |i: int| None::<SequencerEvent>));
        }
        Sequencer {
            position: 0,
            _length: 4 * TICKS_PER_BEAT,
            input_channel: 0,
            output_channel: 1,
            open_notes,
            recording_events: Vec::new(),
            recording_open_events,
            events: Vec::new(),
            running: false,
            recording: false,
            is_first_recording: false,
            scheduled_action: None,
        }
    }

    /// Defers an action to the next quantizer boundary, replacing any
    /// action already pending.
    pub fn schedule(&mut self, action: SequencerAction)
        ensures
            final(self)@ == (TrackModel { scheduled_action: Some(action), ..old(self)@ }),
    {
        self.scheduled_action = Some(action);
    }

    /// The loop length as the surrounding code sees it: never behind the
    /// playhead, so an open-ended first pass reads as long as played.
    pub fn length(&self) -> (r: u32)
        ensures
            r == if self@.position > self@.length {
                self@.position
            } else {
                self@.length
            },
    {
        if self.position > self._length {
            self.position
        } else {
            self._length
        }
    }

    /// Distance from `start` forward to `end` around the loop, wrapping
    /// across the loop boundary.
    #[inline]
    pub fn normalize(&self, end: u32, start: u32) -> (r: u32)
        requires
            self@.length >= 1,
            start <= end + self@.length,
        ensures
            r == self@.spec_normalize(end, start),
            r < self@.length,
    {
        (((end as u64) + (self._length as u64) - (start as u64)) % (self._length as u64)) as u32
    }

    /// Re-sorts the committed timeline, ascending by position, stably.
    pub fn sort_events(&mut self)
        ensures
            final(self)@ == (TrackModel { events: final(self)@.events, ..old(self)@ }),
            final(self)@.events == sort_by_position(old(self)@.events),
    {
        let ghost evs = self.events@;
        let mut sorted: Vec<SequencerEvent> = Vec::new();
        let mut i: usize = 0;
        while i < self.events.len()
            invariant
                i <= evs.len(),
                self.events@ == evs,
                sorted@ == sort_by_position(evs.take(i as int)),
            decreases evs.len() - i,
        {
            insert_event(&mut sorted, self.events[i]);
            proof {
                assert(evs.take(i as int + 1).drop_last() =~= evs.take(i as int));
            }
            i += 1;
        }
        proof {
            assert(evs.take(evs.len() as int) =~= evs);
        }
        self.events = sorted;
    }

    /// Moves a pending note into the recording buffer, closed at the
    /// current playhead, and clears its slot.
    pub fn close_recording_event(&mut self, event: SequencerEvent)
        requires
            old(self)@.length >= 1,
            old(self)@.recording_open_events.len() == 128,
            event.position <= old(self)@.position + old(self)@.length,
            event.message.note < 128,
        ensures
            final(self)@ == old(self)@.close_one(event),
    {
        let duration = self.normalize(self.position, event.position);
        self.recording_events.push(
            SequencerEvent { position: event.position, duration, message: event.message },
        );
        self.recording_open_events.set(event.message.note as usize, None);
        proof {
            assert(final(self)@ =~= old(self)@.close_one(event));
        }
    }

    /// Commits the recording pass: fixes the loop length on a first pass,
    /// synthesizes a closing event for every note still open, moves the
    /// buffer onto the timeline, and re-sorts it stably by position.
    pub fn commit_recording(&mut self)
        requires
            old(self)@.wf(),
        ensures
            final(self)@ == old(self)@.spec_commit(),
            final(self)@.wf(),
    {
        if self.is_first_recording && self.position > 0 {
            self._length = self.position;
        }
        let ghost sized = self@;
        proof {
            assert forall|n: int|
                0 <= n < 128 implies ((#[trigger] sized.recording_open_events[n]) matches Some(e)
                ==> {
                &&& e.message.note == n
                &&& e.position <= sized.length
            }) by {
                assert(old(self)@.slot_wf(n));
            }
        }
        let mut i: usize = 0;
        while i < 128
            invariant
                i <= 128,
                self@ == sized.close_upto(i as int),
                self@ == (TrackModel {
                    recording_events: self@.recording_events,
                    recording_open_events: self@.recording_open_events,
                    ..sized
                }),
                self@.length >= 1,
                self@.recording_open_events.len() == 128,
                forall|n: int|
                    i <= n < 128 ==> self@.recording_open_events[n]
                        == sized.recording_open_events[n],
                forall|n: int|
                    0 <= n < 128 ==> ((#[trigger] sized.recording_open_events[n]) matches Some(e)
                        ==> {
                        &&& e.message.note == n
                        &&& e.position <= sized.length
                    }),
                forall|k: int|
                    0 <= k < self@.recording_events.len() ==> (
                    #[trigger] self@.recording_events[k]).message.note < 128,
            decreases 128 - i,
        {
            let slot = self.recording_open_events[i];
            proof {
                assert(slot == sized.recording_open_events[i as int]);
            }
            match slot {
                Some(event) => {
                    self.close_recording_event(event);
                },
                None => {},
            }
            proof {
                assert(self@ == sized.close_upto(i as int + 1));
            }
            i += 1;
        }
        let ghost closed = self@;
        let mut i: usize = 0;
        while i < 128
            invariant
                i <= 128,
                self@ == (TrackModel { recording_open_events: self@.recording_open_events, ..closed }),
                self@.recording_open_events.len() == 128,
                forall|n: int| 0 <= n < i ==> (#[trigger] self@.recording_open_events[n]) is None,
                forall|n: int|
                    i <= n < 128 ==> self@.recording_open_events[n]
                        == closed.recording_open_events[n],
            decreases 128 - i,
        {
            self.recording_open_events.set(i, None);
            i += 1;
        }
        proof {
            assert(self@.recording_open_events =~= Seq::new(128, |i: int| None::<SequencerEvent>));
        }
        proof {
            assert(sized =~= (TrackModel {
                length: if old(self)@.is_first_recording && old(self)@.position > 0 {
                    old(self)@.position
                } else {
                    old(self)@.length
                },
                ..old(self)@
            }));
        }
        let mut buffered = self.recording_events.split_off(0);
        proof {
            assert(buffered@ =~= closed.recording_events);
            assert(self@.recording_events =~= Seq::<SequencerEvent>::empty());
        }
        self.events.append(&mut buffered);
        proof {
            assert(self@.events == closed.events + closed.recording_events);
            assert(old(self)@.spec_commit().events == sort_by_position(self@.events));
        }
        self.sort_events();
        proof {
            let combined = closed.events + closed.recording_events;
            assert forall|k: int|
                0 <= k < combined.len() implies (#[trigger] combined[k]).message.note < 128 by {
                if k < closed.events.len() {
                    assert(combined[k] == closed.events[k]);
                } else {
                    assert(combined[k] == closed.recording_events[k - closed.events.len()]);
                }
            }
            lemma_sort_all(combined, |x: SequencerEvent| x.message.note < 128);
            assert(final(self)@ =~= old(self)@.spec_commit());
        }
    }

    /// Applies a transport action immediately.
    pub fn perform(&mut self, action: SequencerAction)
        requires
            old(self)@.wf(),
        ensures
            final(self)@ == old(self)@.spec_perform(action),
            final(self)@.wf(),
    {
        match action {
            SequencerAction::Start => {
                if self.recording {
                    self.commit_recording();
                    self.recording = false;
                } else {
                    self.position = 0;
                }
                self.running = true;
            },
            SequencerAction::Stop => {
                if self.recording {
                    self.commit_recording();
                }
                self.running = false;
                self.recording = false;
                self.position = 0;
            },
            SequencerAction::Record => {
                if self.recording {
                    self.commit_recording();
                }
                self.running = true;
                self.recording = true;
                self.is_first_recording = self.events.len() == 0;
            },
        }
        self.scheduled_action = None;
        proof {
            assert(final(self)@ =~= old(self)@.spec_perform(action));
            assert forall|n: int| 0 <= n < 128 implies final(self)@.slot_wf(n) by {
                assert(old(self)@.slot_wf(n));
            }
            assert(final(self)@.wf());
        }
    }

    /// Fills `note_set` with the event open for each note at `position`,
    /// scanning the sorted timeline and stopping at the first event at or
    /// past the playhead.
    pub fn get_open_events_at_position(
        &self,
        position: u32,
        note_set: &mut Vec<Option<SequencerEvent>>,
    )
        requires
            old(note_set)@.len() == 128,
            forall|i: int|
                0 <= i < self@.events.len() ==> (#[trigger] self@.events[i]).message.note < 128,
        ensures
            final(note_set)@ == open_note_set(self@.events, position),
            final(note_set)@.len() == 128,
            forall|n: int|
                0 <= n < 128 ==> ((#[trigger] final(note_set)@[n]) matches Some(e)
                    ==> e.message.note == n),
    {
        let mut i: usize = 0;
        while i < 128
            invariant
                i <= 128,
                note_set@.len() == 128,
                forall|n: int| 0 <= n < i ==> (#[trigger] note_set@[n]) is None,
            decreases 128 - i,
        {
            note_set.set(i, None);
            i += 1;
        }
        proof {
            assert(note_set@ =~= empty_table());
        }
        let ghost evs = self@.events;
        proof {
            assert(evs.skip(0) =~= evs);
        }
        let mut j: usize = 0;
        while j < self.events.len()
            invariant_except_break
                j <= evs.len(),
                self@.events == evs,
                note_set@.len() == 128,
                forall|i: int| 0 <= i < evs.len() ==> (#[trigger] evs[i]).message.note < 128,
                forall|n: int|
                    0 <= n < 128 ==> ((#[trigger] note_set@[n]) matches Some(e)
                        ==> e.message.note == n),
                open_note_set(evs, position) == open_after(note_set@, evs.skip(j as int), position),
            ensures
                note_set@.len() == 128,
                forall|n: int|
                    0 <= n < 128 ==> ((#[trigger] note_set@[n]) matches Some(e)
                        ==> e.message.note == n),
                note_set@ == open_note_set(evs, position),
            decreases evs.len() - j,
        {
            let event = self.events[j];
            if event.position >= position {
                break;
            }
            proof {
                assert(evs.skip(j as int).drop_first() =~= evs.skip(j as int + 1));
            }
            if (event.position as u64) + (event.duration as u64) < (position as u64) {
                j += 1;
                continue;
            }
            note_set.set(event.message.note as usize, Some(event));
            j += 1;
        }
        proof {
            assert(evs.skip(evs.len() as int) =~= Seq::<SequencerEvent>::empty());
        }
    }

    /// Gates one note on and emits its message on the output channel.
    fn set_note_on(&mut self, message: &Message, event_loop: &mut EventLoop)
        requires
            message.note < 128,
            old(self)@.open_notes.len() == 128,
        ensures
            final(self)@ == (TrackModel {
                open_notes: old(self)@.open_notes.update(message.note as int, true),
                ..old(self)@
            }),
            final(event_loop)@ == old(event_loop)@.push(
                AppEvent::MIDIOutputMessage(
                    spec_with_channel(*message, old(self)@.output_channel),
                ),
            ),
    {
        self.open_notes.set(message.note as usize, true);
        let mut message = *message;
        message.channel = self.output_channel;
        event_loop.post(AppEvent::MIDIOutputMessage(message));
        proof {
            assert(final(self)@ =~= (TrackModel {
                open_notes: old(self)@.open_notes.update(message.note as int, true),
                ..old(self)@
            }));
        }
    }

    /// Gates one note off and emits its note-off on the output channel.
    fn set_note_off(&mut self, note: u8, event_loop: &mut EventLoop)
        requires
            note < 128,
            old(self)@.open_notes.len() == 128,
        ensures
            final(self)@ == (TrackModel {
                open_notes: old(self)@.open_notes.update(note as int, false),
                ..old(self)@
            }),
            final(event_loop)@ == old(event_loop)@.push(
                AppEvent::MIDIOutputMessage(
                    spec_note_off_msg(old(self)@.output_channel, note),
                ),
            ),
    {
        self.open_notes.set(note as usize, false);
        let mut message = Message::new(MessageKind::NoteOff);
        message.channel = self.output_channel;
        message.note = note;
        event_loop.post(AppEvent::MIDIOutputMessage(message));
        proof {
            assert(final(self)@ =~= (TrackModel {
                open_notes: old(self)@.open_notes.update(note as int, false),
                ..old(self)@
            }));
        }
    }

    /// Drives every gate to match `note_set`, emitting only the on/off
    /// transitions — a held note is never re-emitted while it stays held.
    fn set_notes_on(&mut self, note_set: &Vec<Option<SequencerEvent>>, event_loop: &mut EventLoop)
        requires
            old(self)@.open_notes.len() == 128,
            note_set@.len() == 128,
            forall|n: int|
                0 <= n < 128 ==> ((#[trigger] note_set@[n]) matches Some(e)
                    ==> e.message.note == n),
        ensures
            final(self)@ == (TrackModel {
                open_notes: Seq::new(128, |n: int| note_set@[n] is Some),
                ..old(self)@
            }),
            final(event_loop)@ == old(event_loop)@ + emission(
                note_set@,
                old(self)@.open_notes,
                old(self)@.output_channel,
                128,
            ),
    {
        let mut note: usize = 0;
        while note < 128
            invariant
                note <= 128,
                note_set@.len() == 128,
                forall|n: int|
                    0 <= n < 128 ==> ((#[trigger] note_set@[n]) matches Some(e)
                        ==> e.message.note == n),
                self@.open_notes.len() == 128,
                self@ == (TrackModel { open_notes: self@.open_notes, ..old(self)@ }),
                forall|n: int|
                    0 <= n < note ==> self@.open_notes[n] == ((#[trigger] note_set@[n]) is Some),
                forall|n: int|
                    note <= n < 128 ==> self@.open_notes[n] == old(self)@.open_notes[n],
                event_loop@ == old(event_loop)@ + emission(
                    note_set@,
                    old(self)@.open_notes,
                    old(self)@.output_channel,
                    note as int,
                ),
            decreases 128 - note,
        {
            let ghost pre_bus = event_loop@;
            let slot = note_set[note];
            match slot {
                Some(event) => {
                    if !self.open_notes[note] {
                        self.set_note_on(&event.message, event_loop);
                    }
                },
                None => {
                    if self.open_notes[note] {
                        self.set_note_off(note as u8, event_loop);
                    }
                },
            }
            proof {
                assert(event_loop@ =~= pre_bus + emit_for_note(
                    note_set@[note as int],
                    old(self)@.open_notes[note as int],
                    old(self)@.output_channel,
                    note as u8,
                ));
                assert(event_loop@ =~= old(event_loop)@ + emission(
                    note_set@,
                    old(self)@.open_notes,
                    old(self)@.output_channel,
                    note as int + 1,
                ));
            }
            note += 1;
        }
        proof {
            assert(self@.open_notes =~= Seq::new(128, |n: int| note_set@[n] is Some));
            assert(final(self)@ =~= (TrackModel {
                open_notes: Seq::new(128, |n: int| note_set@[n] is Some),
                ..old(self)@
            }));
        }
    }

    /// The track's handler on the bus: captures messages while recording,
    /// fires a deferred action on the quantizer boundary, and plays or
    /// flushes gates on each clock tick.
    pub fn handle_event(&mut self, event: &AppEvent, event_loop: &mut EventLoop)
        requires
            old(self)@.wf(),
        ensures
            final(self)@ == old(self)@.spec_handle(*event).0,
            final(self)@.wf(),
            final(event_loop)@ == old(event_loop)@ + old(self)@.spec_handle(*event).1,
    {
        match event {
            AppEvent::MIDIMessage(message) => {
                if self.recording && (self.input_channel == 0 || message.channel
                    == self.input_channel) {
                    if (message.kind == MessageKind::NoteOn || message.kind == MessageKind::NoteOff)
                        && message.note < 128 {
                        proof {
                            assert(old(self)@.slot_wf(message.note as int));
                        }
                        let slot = self.recording_open_events[message.note as usize];
                        match slot {
                            Some(event) => {
                                self.close_recording_event(event);
                            },
                            None => {},
                        }
                        if message.kind == MessageKind::NoteOn {
                            self.recording_open_events.set(
                                message.note as usize,
                                Some(
                                    SequencerEvent {
                                        position: self.position,
                                        duration: 0,
                                        message: *message,
                                    },
                                ),
                            );
                        }
                    }
                }
                proof {
                    assert(final(self)@ =~= old(self)@.spec_capture(event->MIDIMessage_0));
                    assert forall|n: int| 0 <= n < 128 implies final(self)@.slot_wf(n) by {
                        assert(old(self)@.slot_wf(n));
                    }
                    assert(final(self)@.wf());
                }
            },
            AppEvent::GlobalQuantizerStep => {
                match self.scheduled_action {
                    Some(action) => {
                        self.perform(action);
                    },
                    None => {},
                }
            },
            AppEvent::ClockTick => {
                let mut temp_note_set = new_note_table();
                if self.running {
                    self.get_open_events_at_position(self.position, &mut temp_note_set);
                    self.set_notes_on(&temp_note_set, event_loop);
                    if self.position == u32::MAX {
                    } else {
                        self.position = self.position + 1;
                    }
                    if !(self.recording && self.is_first_recording) {
                        self.position = self.position % self._length;
                    } else {
                        if self._length < self.position {
                            self._length = self.position;
                        }
                    }
                } else {
                    self.set_notes_on(&temp_note_set, event_loop);
                }
                proof {
                    assert(final(self)@ =~= old(self)@.spec_tick());
                    assert forall|n: int| 0 <= n < 128 implies final(self)@.slot_wf(n) by {
                        assert(old(self)@.slot_wf(n));
                    }
                    assert(final(self)@.wf());
                }
            },
            _ => {},
        }
    }
}

/// The first note-off for `note` at an index in `from..to`, if any.
pub open spec fn find_off_in(events: Seq<SequencerEvent>, note: u8, from: int, to: int) -> Option<
    int,
>
    decreases to - from,
{
    if from >= to {
        None
    } else if events[from].message.kind is NoteOff && events[from].message.note == note {
        Some(from)
    } else {
        find_off_in(events, note, from + 1, to)
    }
}

/// The note-off paired with the note-on at index `s`: the first matching
/// note-off at or after `s`, wrapping to the start of the list if none
/// follows.  `None` where `s` is out of range, not a note-on, or unpaired.
pub open spec fn off_index_for(events: Seq<SequencerEvent>, s: int) -> Option<int> {
    if !(0 <= s < events.len()) || !(events[s].message.kind is NoteOn) {
        None
    } else {
        match find_off_in(events, events[s].message.note, s, events.len() as int) {
            Some(j) => Some(j),
            None => find_off_in(events, events[s].message.note, 0, s),
        }
    }
}

/// Finds the note-off paired with the note-on at index `s`, scanning
/// forward from `s` and wrapping to the start of the list.
pub fn get_off_event_index_for_on_event(events: &Vec<SequencerEvent>, s: usize) -> (r: Option<
    usize,
>)
    ensures
        r is Some <==> off_index_for(events@, s as int) is Some,
        r matches Some(j) ==> off_index_for(events@, s as int) == Some(j as int) && j
            < events@.len(),
{
    if s >= events.len() || !(events[s].message.kind == MessageKind::NoteOn) {
        return None;
    }
    let note = events[s].message.note;
    let mut i: usize = s;
    while i < events.len()
        invariant
            s <= i <= events@.len(),
            s < events@.len(),
            events@[s as int].message.kind is NoteOn,
            note == events@[s as int].message.note,
            find_off_in(events@, note, s as int, events@.len() as int) == find_off_in(
                events@,
                note,
                i as int,
                events@.len() as int,
            ),
        decreases events@.len() - i,
    {
        if events[i].message.kind == MessageKind::NoteOff && events[i].message.note == note {
            return Some(i);
        }
        i += 1;
    }
    let mut i: usize = 0;
    while i < s
        invariant
            i <= s < events@.len(),
            events@[s as int].message.kind is NoteOn,
            note == events@[s as int].message.note,
            find_off_in(events@, note, s as int, events@.len() as int) is None,
            find_off_in(events@, note, 0, s as int) == find_off_in(events@, note, i as int, s as int),
        decreases s - i,
    {
        if events[i].message.kind == MessageKind::NoteOff && events[i].message.note == note {
            return Some(i);
        }
        i += 1;
    }
    None
}

/// One step of the quantizer over the event at index `i`: a note-on is
/// snapped to its nearest quantum (ties rounding up) and its paired
/// note-off is shifted by the identical delta, preserving the duration
/// contour.  An unpaired note-on, and a pair whose shifted position would
/// leave the tick range, are left unmodified — best effort, never a
/// failure.
pub open spec fn quantize_step(events: Seq<SequencerEvent>, q: u32, i: int) -> Seq<SequencerEvent>
    recommends
        q >= 1,
        0 <= i < events.len(),
{
    let e = events[i];
    if e.message.kind is NoteOn {
        let target = spec_div_round(e.position, q) * q;
        let delta = target - e.position;
        match off_index_for(events, i) {
            Some(j) => {
                let off = events[j];
                if target <= u32::MAX && 0 <= off.position + delta <= u32::MAX {
                    events.update(i, SequencerEvent { position: target as u32, ..e }).update(
                        j,
                        SequencerEvent { position: (off.position + delta) as u32, ..off },
                    )
                } else {
                    events
                }
            },
            None => events,
        }
    } else {
        events
    }
}

/// The quantizer applied to the events at indices `0..n`, in order.
pub open spec fn quantize_upto(events: Seq<SequencerEvent>, q: u32, n: int) -> Seq<SequencerEvent>
    decreases n,
{
    if n <= 0 {
        events
    } else {
        quantize_step(quantize_upto(events, q, n - 1), q, n - 1)
    }
}

/// The whole quantizer pass: quantum size is `TICKS_PER_BEAT * 4 /
/// divisor` ticks; a divisor of zero, or one too large to give a whole
/// quantum, makes the pass a no-op.
pub open spec fn spec_quantize(events: Seq<SequencerEvent>, divisor: u32) -> Seq<SequencerEvent> {
    if divisor == 0 || TICKS_PER_BEAT * 4 / (divisor as int) == 0 {
        events
    } else {
        quantize_upto(events, (TICKS_PER_BEAT * 4 / (divisor as int)) as u32, events.len() as int)
    }
}

impl QuantizerFilter {
    /// Snaps every note-on (with its paired note-off) to the quantizer
    /// grid given by `divisor`.
    pub fn quantize(&self, events: &mut Vec<SequencerEvent>)
        ensures
            final(events)@ == spec_quantize(old(events)@, self.divisor),
    {
        if self.divisor == 0 {
            return ;
        }
        let q = TICKS_PER_BEAT * 4 / self.divisor;
        if q == 0 {
            return ;
        }
        let ghost orig = events@;
        let mut i: usize = 0;
        while i < events.len()
            invariant
                q == TICKS_PER_BEAT * 4 / (self.divisor as int),
                q >= 1,
                i <= orig.len(),
                events@.len() == orig.len(),
                events@ == quantize_upto(orig, q, i as int),
            decreases orig.len() - i,
        {
            let ghost pre = events@;
            let e = events[i];
            if e.message.kind == MessageKind::NoteOn {
                let rounded = div_round(e.position, q);
                proof {
                    lemma_div_round_bound((e.position % q) as int, q as int);
                    vstd::arithmetic::div_mod::lemma_fundamental_div_mod(
                        e.position as int,
                        q as int,
                    );
                    assert((rounded as int) * (q as int) <= e.position + q) by (nonlinear_arith)
                        requires
                            q >= 1,
                            rounded as int <= (e.position as int) / (q as int) + 1,
                            (e.position as int) / (q as int) * (q as int) == e.position as int
                                - (e.position as int) % (q as int),
                            (e.position as int) % (q as int) >= 0,
                    ;
                }
                let target = (rounded as u64) * (q as u64);
                let delta: i64 = (target as i64) - (e.position as i64);
                match get_off_event_index_for_on_event(events, i) {
                    Some(j) => {
                        let off = events[j];
                        let new_off: i64 = (off.position as i64) + delta;
                        if target <= u32::MAX as u64 && 0 <= new_off && new_off <= u32::MAX as i64 {
                            events.set(
                                i,
                                SequencerEvent { position: target as u32, ..e },
                            );
                            events.set(
                                j,
                                SequencerEvent { position: new_off as u32, ..off },
                            );
                        }
                    },
                    None => {},
                }
            }
            proof {
                assert(events@ =~= quantize_step(pre, q, i as int));
            }
            i += 1;
        }
    }
}

impl Filter for QuantizerFilter {
    fn filter(&self, events: &mut Vec<SequencerEvent>, _sequencer: &Sequencer) {
        self.quantize(events)
    }
}

/// A note-on or note-off for note `n` on the bus.
pub open spec fn is_note_event_for(e: AppEvent, n: u8) -> bool {
    e matches AppEvent::MIDIOutputMessage(m) && (m.kind is NoteOn || m.kind is NoteOff) && m.note
        == n
}

/// A note-on for note `n` on the bus.
pub open spec fn is_note_on_for(e: AppEvent, n: u8) -> bool {
    e matches AppEvent::MIDIOutputMessage(m) && m.kind is NoteOn && m.note == n
}

/// The on/off events for note `n` in `h` strictly alternate, starting
/// from gate state `g` (true: the note is sounding, so only a note-off
/// may come next).
pub open spec fn note_alternates(h: Seq<AppEvent>, g: bool, n: u8) -> bool
    decreases h.len(),
{
    if h.len() == 0 {
        true
    } else if is_note_event_for(h[0], n) {
        &&& (is_note_on_for(h[0], n) <==> !g)
        &&& note_alternates(h.drop_first(), !g, n)
    } else {
        note_alternates(h.drop_first(), g, n)
    }
}

/// Whether note `n` sounds after the history `h`, starting from `g`.
pub open spec fn gate_after(h: Seq<AppEvent>, g: bool, n: u8) -> bool
    decreases h.len(),
{
    if h.len() == 0 {
        g
    } else {
        gate_after(
            h.drop_first(),
            if is_note_event_for(h[0], n) {
                is_note_on_for(h[0], n)
            } else {
                g
            },
            n,
        )
    }
}

/// Alternation concatenates: a history that alternates, followed by one
/// that alternates from where the first one ended, alternates whole.
pub proof fn lemma_alternates_concat(h1: Seq<AppEvent>, h2: Seq<AppEvent>, g: bool, n: u8)
    requires
        note_alternates(h1, g, n),
        note_alternates(h2, gate_after(h1, g, n), n),
    ensures
        note_alternates(h1 + h2, g, n),
        gate_after(h1 + h2, g, n) == gate_after(h2, gate_after(h1, g, n), n),
    decreases h1.len(),
{
    if h1.len() == 0 {
        assert(h1 + h2 =~= h2);
    } else {
        assert((h1 + h2)[0] == h1[0]);
        assert((h1 + h2).drop_first() =~= h1.drop_first() + h2);
        let g2 = if is_note_event_for(h1[0], n) {
            is_note_on_for(h1[0], n)
        } else {
            g
        };
        if is_note_event_for(h1[0], n) {
            assert(g2 == !g);
        }
        lemma_alternates_concat(h1.drop_first(), h2, g2, n);
    }
}

/// The scan's note table is indexed by note: a filled slot holds an event
/// of its own note.
pub proof fn lemma_open_after_notes(
    table: Seq<Option<SequencerEvent>>,
    events: Seq<SequencerEvent>,
    p: u32,
)
    requires
        table.len() == 128,
        forall|m: int|
            0 <= m < 128 ==> ((#[trigger] table[m]) matches Some(e) ==> e.message.note == m
                && e.message.kind is NoteOn),
        forall|i: int| 0 <= i < events.len() ==> (#[trigger] events[i]).message.note < 128,
        forall|i: int| 0 <= i < events.len() ==> (#[trigger] events[i]).message.kind is NoteOn,
    ensures
        open_after(table, events, p).len() == 128,
        forall|m: int|
            0 <= m < 128 ==> ((#[trigger] open_after(table, events, p)[m]) matches Some(e)
                ==> e.message.note == m && e.message.kind is NoteOn),
    decreases events.len(),
{
    if events.len() > 0 {
        let e = events[0];
        if e.position >= p {
        } else if e.position + e.duration < p {
            assert(forall|i: int|
                0 <= i < events.drop_first().len() ==> (#[trigger] events.drop_first()[i])
                    == events[i + 1]);
            lemma_open_after_notes(table, events.drop_first(), p);
        } else {
            assert(forall|i: int|
                0 <= i < events.drop_first().len() ==> (#[trigger] events.drop_first()[i])
                    == events[i + 1]);
            lemma_open_after_notes(
                table.update(e.message.note as int, Some(e)),
                events.drop_first(),
                p,
            );
        }
    }
}

/// What the gating pass emits for one note: at most one event, and
/// exactly the transition from sounding-before to held-now.
pub proof fn lemma_emission_note(
    slots: Seq<Option<SequencerEvent>>,
    gates: Seq<bool>,
    ch: u8,
    k: int,
    n: u8,
)
    requires
        0 <= k <= 128,
        n < 128,
        slots.len() == 128,
        gates.len() == 128,
        forall|m: int|
            0 <= m < 128 ==> ((#[trigger] slots[m]) matches Some(e) ==> e.message.note == m
                && e.message.kind is NoteOn),
    ensures
        note_alternates(emission(slots, gates, ch, k), gates[n as int], n),
        gate_after(emission(slots, gates, ch, k), gates[n as int], n) == if k <= n {
            gates[n as int]
        } else {
            slots[n as int] is Some
        },
    decreases k,
{
    if k > 0 {
        lemma_emission_note(slots, gates, ch, k - 1, n);
        let head = emission(slots, gates, ch, k - 1);
        let tail = emit_for_note(slots[k - 1], gates[k - 1], ch, (k - 1) as u8);
        let g1 = gate_after(head, gates[n as int], n);
        if tail.len() > 0 {
            assert(tail.drop_first() =~= Seq::<AppEvent>::empty());
            assert(tail[0] matches AppEvent::MIDIOutputMessage(m) && m.note == k - 1) by {
                match slots[k - 1] {
                    Some(e) => {
                        assert(e.message.note == k - 1);
                    },
                    None => {},
                }
            }
        }
        assert(note_alternates(tail, g1, n) && gate_after(tail, g1, n) == if k - 1 == n {
            slots[n as int] is Some
        } else {
            g1
        }) by {
            reveal_with_fuel(note_alternates, 3);
            reveal_with_fuel(gate_after, 3);
            if k - 1 == n {
                assert(g1 == gates[n as int]);
                match slots[k - 1] {
                    Some(e) => {
                        if !gates[k - 1] {
                            assert(is_note_on_for(tail[0], n));
                        }
                    },
                    None => {},
                }
            } else {
                if tail.len() > 0 {
                    assert(!is_note_event_for(tail[0], n));
                }
            }
        }
        lemma_alternates_concat(head, tail, gates[n as int], n);
    }
}

/// The gating law of playback: a clock tick appends to any alternating
/// output history only output that keeps it alternating — the track never
/// emits two note-ons for one note without the note-off between, and the
/// gate table tracks exactly what sounds.
pub proof fn lemma_tick_gate_alternation(h: Seq<AppEvent>, t: TrackModel, n: u8)
    requires
        t.wf(),
        n < 128,
        forall|i: int| 0 <= i < t.events.len() ==> (#[trigger] t.events[i]).message.kind is NoteOn,
        note_alternates(h, false, n),
        gate_after(h, false, n) == t.open_notes[n as int],
    ensures
        note_alternates(h + t.spec_tick_out(), false, n),
        gate_after(h + t.spec_tick_out(), false, n) == t.spec_tick().open_notes[n as int],
{
    if t.running {
        let slots = open_note_set(t.events, t.position);
        lemma_open_after_notes(empty_table(), t.events, t.position);
        lemma_emission_note(slots, t.open_notes, t.output_channel, 128, n);
        lemma_alternates_concat(h, t.spec_tick_out(), false, n);
    } else {
        lemma_emission_note(empty_table(), t.open_notes, t.output_channel, 128, n);
        lemma_alternates_concat(h, t.spec_tick_out(), false, n);
    }
}

/// The track after `k` clock ticks.
pub open spec fn ticks(t: TrackModel, k: nat) -> TrackModel
    decreases k,
{
    if k == 0 {
        t
    } else {
        ticks(t, (k - 1) as nat).spec_tick()
    }
}

/// Clock ticks advance the playhead but never disturb what recording has
/// captured: the buffer, the open slots, the timeline and the transport
/// flags all survive any number of ticks.
pub proof fn lemma_ticks_preserve_capture(t: TrackModel, k: nat)
    ensures
        ticks(t, k).recording_events == t.recording_events,
        ticks(t, k).recording_open_events == t.recording_open_events,
        ticks(t, k).events == t.events,
        ticks(t, k).recording == t.recording,
        ticks(t, k).running == t.running,
        ticks(t, k).is_first_recording == t.is_first_recording,
        ticks(t, k).input_channel == t.input_channel,
        ticks(t, k).output_channel == t.output_channel,
        ticks(t, k).scheduled_action == t.scheduled_action,
    decreases k,
{
    if k > 0 {
        lemma_ticks_preserve_capture(t, (k - 1) as nat);
    }
}

/// The recording round trip for one note: while recording, a note-on at
/// playhead `p1` opens its slot; any number of clock ticks later, the
/// matching note-off at playhead `q` appends to the recording buffer
/// exactly one event — position `p1`, the wrapped distance from `p1` to
/// `q` as its duration, and the opening note-on as its message — and
/// leaves the slot empty again.
pub proof fn lemma_recording_round_trip(t: TrackModel, m_on: Message, k: nat, m_off: Message)
    requires
        t.recording,
        t.recording_open_events.len() == 128,
        t.input_channel == 0 || m_on.channel == t.input_channel,
        t.input_channel == 0 || m_off.channel == t.input_channel,
        m_on.kind is NoteOn,
        m_off.kind is NoteOff,
        m_off.note == m_on.note,
        m_on.note < 128,
        t.recording_open_events[m_on.note as int] is None,
    ensures
        ({
            let t1 = t.spec_capture(m_on);
            let t2 = ticks(t1, k);
            let t3 = t2.spec_capture(m_off);
            &&& t3.recording_events == t2.recording_events.push(
                SequencerEvent {
                    position: t.position,
                    duration: t2.spec_normalize(t2.position, t.position),
                    message: m_on,
                },
            )
            &&& t2.recording_events == t.recording_events
            &&& t3.recording_open_events[m_on.note as int] is None
        }),
{
    let t1 = t.spec_capture(m_on);
    lemma_ticks_preserve_capture(t1, k);
    let t2 = ticks(t1, k);
    assert(t2.recording_open_events[m_on.note as int] == Some(
        SequencerEvent { position: t.position, duration: 0, message: m_on },
    ));
}

/// Closing pass over a table with no open notes is the identity.
pub proof fn lemma_close_upto_none(t: TrackModel, k: int)
    requires
        0 <= k <= 128,
        t.recording_open_events.len() == 128,
        forall|n: int| 0 <= n < 128 ==> (#[trigger] t.recording_open_events[n]) is None,
    ensures
        t.close_upto(k) == t,
    decreases k,
{
    if k > 0 {
        lemma_close_upto_none(t, k - 1);
    }
}

/// Commit reproduces what was played: with no note left open, the
/// committed timeline is exactly the old timeline plus the recording
/// buffer, sorted ascending by position, and stably so — at every
/// position the events keep their prior relative order.
pub proof fn lemma_commit_reproduces(t: TrackModel, p: u32)
    requires
        t.recording_open_events.len() == 128,
        forall|n: int| 0 <= n < 128 ==> (#[trigger] t.recording_open_events[n]) is None,
    ensures
        sorted_by_position(t.spec_commit().events),
        t.spec_commit().events.len() == t.events.len() + t.recording_events.len(),
        at_position(t.spec_commit().events, p) == at_position(t.events + t.recording_events, p),
{
    let sized = TrackModel {
        length: if t.is_first_recording && t.position > 0 {
            t.position
        } else {
            t.length
        },
        ..t
    };
    lemma_close_upto_none(sized, 128);
    let combined = sized.events + sized.recording_events;
    lemma_sort_sorted(combined);
    lemma_sort_all(combined, |x: SequencerEvent| true);
    lemma_sort_stable(combined, p);
    assert(t.events + t.recording_events =~= combined);
}

/// A candidate for the open-note query: an event for note `n` that starts
/// strictly before `p` and lasts to `p` or beyond.
pub open spec fn open_candidate(events: Seq<SequencerEvent>, i: int, p: u32, n: u8) -> bool {
    &&& 0 <= i < events.len()
    &&& events[i].position < p
    &&& events[i].position + events[i].duration >= p
    &&& events[i].message.note == n
}

proof fn lemma_open_after_exact(
    table: Seq<Option<SequencerEvent>>,
    events: Seq<SequencerEvent>,
    p: u32,
    n: u8,
)
    requires
        table.len() == 128,
        n < 128,
        sorted_by_position(events),
        forall|i: int| 0 <= i < events.len() ==> (#[trigger] events[i]).message.note < 128,
    ensures
        open_after(table, events, p)[n as int] is Some <==> (table[n as int] is Some || exists|i: int|
            open_candidate(events, i, p, n)),
    decreases events.len(),
{
    if events.len() == 0 {
        assert(forall|i: int| !open_candidate(events, i, p, n));
    } else {
        let e = events[0];
        let rest = events.drop_first();
        assert(forall|i: int|
            0 <= i < rest.len() ==> rest[i] == events[i + 1]);
        if e.position >= p {
            assert forall|i: int| !open_candidate(events, i, p, n) by {
                if 0 <= i < events.len() && events[i].position < p {
                    assert(i > 0 ==> events[0].position <= events[i].position);
                    assert(false);
                }
            }
        } else if e.position + e.duration < p {
            lemma_open_after_exact(table, rest, p, n);
            assert forall|i: int| open_candidate(events, i, p, n) implies exists|j: int|
                open_candidate(rest, j, p, n) by {
                assert(open_candidate(rest, i - 1, p, n));
            }
            assert forall|j: int| open_candidate(rest, j, p, n) implies exists|i: int|
                open_candidate(events, i, p, n) by {
                assert(open_candidate(events, j + 1, p, n));
            }
        } else {
            let table2 = table.update(e.message.note as int, Some(e));
            lemma_open_after_exact(table2, rest, p, n);
            if e.message.note == n {
                assert(table2[n as int] is Some);
                assert(open_candidate(events, 0, p, n));
            } else {
                assert(table2[n as int] == table[n as int]);
                assert forall|i: int| open_candidate(events, i, p, n) implies exists|j: int|
                    open_candidate(rest, j, p, n) by {
                    assert(open_candidate(rest, i - 1, p, n));
                }
                assert forall|j: int| open_candidate(rest, j, p, n) implies exists|i: int|
                    open_candidate(events, i, p, n) by {
                    assert(open_candidate(events, j + 1, p, n));
                }
            }
        }
    }
}

/// Exactly which notes the playback scan reports open: with a sorted
/// timeline, note `n` is open at `p` if and only if some event for `n`
/// starts strictly before `p` and lasts to `p` or beyond.  The openness
/// interval is the straight `position < p <= position + duration`: a
/// duration crossing the loop end is not wrapped back to the loop start.
pub proof fn lemma_open_note_set_exact(events: Seq<SequencerEvent>, p: u32, n: u8)
    requires
        sorted_by_position(events),
        n < 128,
        forall|i: int| 0 <= i < events.len() ==> (#[trigger] events[i]).message.note < 128,
    ensures
        open_note_set(events, p)[n as int] is Some <==> exists|i: int|
            open_candidate(events, i, p, n),
{
    lemma_open_after_exact(empty_table(), events, p, n);
}

/// A fresh all-empty note table.
fn new_note_table() -> (v: Vec<Option<SequencerEvent>>)
    ensures
        v@ == empty_table(),
{
    let mut v: Vec<Option<SequencerEvent>> = Vec::new();
    let mut i: usize = 0;
    while i < 128
        invariant
            i <= 128,
            v@.len() == i,
            forall|j: int| 0 <= j < i ==> (#[trigger] v@[j]) is None,
        decreases 128 - i,
    {
        v.push(None);
        i += 1;
    }
    proof {
        assert(v@ =~= empty_table());
    }
    v
}

/// One event inserted in position order.
fn insert_event(v: &mut Vec<SequencerEvent>, e: SequencerEvent)
    ensures
        final(v)@ == insert_by_position(e, old(v)@),
{
    let ghost orig = v@;
    proof {
        assert(orig.take(orig.len() as int) =~= orig);
        assert(insert_by_position(e, orig.take(orig.len() as int)) + orig.skip(
            orig.len() as int,
        ) =~= insert_by_position(e, orig));
    }
    let mut i: usize = v.len();
    while i > 0 && v[i - 1].position > e.position
        invariant
            i <= orig.len(),
            v@ == orig,
            insert_by_position(e, orig) == insert_by_position(e, orig.take(i as int)) + orig.skip(
                i as int,
            ),
        decreases i,
    {
        proof {
            let t = orig.take(i as int);
            assert(t.drop_last() =~= orig.take(i as int - 1));
            assert(insert_by_position(e, orig.take(i as int - 1)).push(orig[i as int - 1])
                + orig.skip(i as int) =~= insert_by_position(e, orig.take(i as int - 1))
                + orig.skip(i as int - 1));
        }
        i -= 1;
    }
    proof {
        if i == 0 {
            assert(orig.take(0) =~= Seq::<SequencerEvent>::empty());
            assert(insert_by_position(e, orig.take(0)) =~= orig.take(0).push(e));
        }
        assert(insert_by_position(e, orig.take(i as int)) == orig.take(i as int).push(e));
        assert(orig.take(i as int).push(e) + orig.skip(i as int) =~= orig.insert(i as int, e));
    }
    v.insert(i, e);
}

} // verus!
