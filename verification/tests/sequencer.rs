use loop_bastard::sequencer::{div_round, get_off_event_index_for_on_event};
use loop_bastard::{
    AppEvent, EventLoop, Filter, Message, MessageKind, QuantizerFilter, Sequencer, SequencerAction,
    SequencerEvent,
};

fn note_on(channel: u8, note: u8, velocity: u8) -> Message {
    let mut m = Message::new(MessageKind::NoteOn);
    m.channel = channel;
    m.note = note;
    m.velocity = velocity;
    m
}

fn note_off(channel: u8, note: u8) -> Message {
    let mut m = Message::new(MessageKind::NoteOff);
    m.channel = channel;
    m.note = note;
    m
}

fn tick(s: &mut Sequencer, bus: &mut EventLoop) {
    s.handle_event(&AppEvent::ClockTick, bus);
}

fn ticks(s: &mut Sequencer, bus: &mut EventLoop, n: u32) {
    for _ in 0..n {
        tick(s, bus);
    }
}

fn feed(s: &mut Sequencer, bus: &mut EventLoop, m: Message) {
    s.handle_event(&AppEvent::MIDIMessage(m), bus);
}

fn drain_notes(bus: &mut EventLoop) -> Vec<Message> {
    let mut out = Vec::new();
    while let Some(e) = bus.get_event() {
        if let AppEvent::MIDIOutputMessage(m) = e {
            out.push(m);
        }
    }
    out
}

#[test]
fn recording_round_trip_single_note() {
    let mut s = Sequencer::new();
    let mut bus = EventLoop::new();
    s.perform(SequencerAction::Record);
    feed(&mut s, &mut bus, note_on(1, 60, 100));
    ticks(&mut s, &mut bus, 10);
    feed(&mut s, &mut bus, note_off(1, 60));
    ticks(&mut s, &mut bus, 5);
    s.perform(SequencerAction::Stop);
    assert_eq!(s.events.len(), 1);
    assert_eq!(s.events[0].position, 0);
    assert_eq!(s.events[0].duration, 10);
    assert_eq!(s.events[0].message, note_on(1, 60, 100));
}

#[test]
fn recording_round_trip_interleaved_notes_sorted() {
    let mut s = Sequencer::new();
    let mut bus = EventLoop::new();
    s.perform(SequencerAction::Record);
    ticks(&mut s, &mut bus, 4);
    feed(&mut s, &mut bus, note_on(1, 62, 90));
    ticks(&mut s, &mut bus, 2);
    feed(&mut s, &mut bus, note_on(1, 60, 80));
    ticks(&mut s, &mut bus, 3);
    feed(&mut s, &mut bus, note_off(1, 62));
    ticks(&mut s, &mut bus, 3);
    feed(&mut s, &mut bus, note_off(1, 60));
    ticks(&mut s, &mut bus, 8);
    s.perform(SequencerAction::Stop);
    // Note 62: pressed at 4, released at 9.  Note 60: pressed at 6,
    // released at 12.  The committed list is sorted ascending by position.
    assert_eq!(s.events.len(), 2);
    assert_eq!((s.events[0].position, s.events[0].duration), (4, 5));
    assert_eq!(s.events[0].message.note, 62);
    assert_eq!((s.events[1].position, s.events[1].duration), (6, 6));
    assert_eq!(s.events[1].message.note, 60);
}

#[test]
fn rapid_on_on_off_never_loses_a_note() {
    let mut s = Sequencer::new();
    let mut bus = EventLoop::new();
    s.perform(SequencerAction::Record);
    feed(&mut s, &mut bus, note_on(1, 60, 100));
    ticks(&mut s, &mut bus, 2);
    // A second press closes the first event before opening its own.
    feed(&mut s, &mut bus, note_on(1, 60, 101));
    ticks(&mut s, &mut bus, 3);
    feed(&mut s, &mut bus, note_off(1, 60));
    ticks(&mut s, &mut bus, 5);
    s.perform(SequencerAction::Stop);
    assert_eq!(s.events.len(), 2);
    assert_eq!((s.events[0].position, s.events[0].duration), (0, 2));
    assert_eq!(s.events[0].message.velocity, 100);
    assert_eq!((s.events[1].position, s.events[1].duration), (2, 3));
    assert_eq!(s.events[1].message.velocity, 101);
}

#[test]
fn commit_synthesizes_close_for_held_note() {
    let mut s = Sequencer::new();
    let mut bus = EventLoop::new();
    s.perform(SequencerAction::Record);
    ticks(&mut s, &mut bus, 3);
    feed(&mut s, &mut bus, note_on(1, 64, 70));
    ticks(&mut s, &mut bus, 7);
    s.perform(SequencerAction::Stop);
    // Stopped at tick 10 with the note still held: the commit closes it
    // at the current position, wrapped into the new ten-tick loop.
    assert_eq!(s._length, 10);
    assert_eq!(s.events.len(), 1);
    assert_eq!((s.events[0].position, s.events[0].duration), (3, 7));
}

#[test]
fn first_recording_pass_defines_loop_length() {
    let mut s = Sequencer::new();
    let mut bus = EventLoop::new();
    s.perform(SequencerAction::Record);
    feed(&mut s, &mut bus, note_on(1, 60, 100));
    ticks(&mut s, &mut bus, 40);
    feed(&mut s, &mut bus, note_off(1, 60));
    ticks(&mut s, &mut bus, 57);
    s.perform(SequencerAction::Stop);
    assert_eq!(s._length, 97);
    assert_eq!(s.position, 0);
    // Playback afterwards wraps the playhead within 0..96.
    s.perform(SequencerAction::Start);
    for _ in 0..97 {
        assert!(s.position <= 96);
        tick(&mut s, &mut bus);
    }
    assert_eq!(s.position, 0);
}

#[test]
fn channel_filter_governs_capture() {
    let mut s = Sequencer::new();
    let mut bus = EventLoop::new();
    s.input_channel = 2;
    s.perform(SequencerAction::Record);
    feed(&mut s, &mut bus, note_on(1, 60, 100));
    ticks(&mut s, &mut bus, 2);
    feed(&mut s, &mut bus, note_off(1, 60));
    feed(&mut s, &mut bus, note_on(2, 61, 100));
    ticks(&mut s, &mut bus, 2);
    feed(&mut s, &mut bus, note_off(2, 61));
    ticks(&mut s, &mut bus, 4);
    s.perform(SequencerAction::Stop);
    assert_eq!(s.events.len(), 1);
    assert_eq!(s.events[0].message.note, 61);
}

#[test]
fn playback_emits_on_output_channel() {
    let mut s = Sequencer::new();
    let mut bus = EventLoop::new();
    s.output_channel = 5;
    s.perform(SequencerAction::Record);
    feed(&mut s, &mut bus, note_on(1, 60, 100));
    ticks(&mut s, &mut bus, 4);
    feed(&mut s, &mut bus, note_off(1, 60));
    ticks(&mut s, &mut bus, 4);
    s.perform(SequencerAction::Start);
    drain_notes(&mut bus);
    ticks(&mut s, &mut bus, 8);
    let out = drain_notes(&mut bus);
    assert!(!out.is_empty());
    assert!(out.iter().all(|m| m.channel == 5));
}

#[test]
fn playback_gating_never_doubles_a_note_on() {
    let mut s = Sequencer::new();
    let mut bus = EventLoop::new();
    s.perform(SequencerAction::Record);
    feed(&mut s, &mut bus, note_on(1, 60, 100));
    ticks(&mut s, &mut bus, 6);
    feed(&mut s, &mut bus, note_off(1, 60));
    feed(&mut s, &mut bus, note_on(1, 62, 90));
    ticks(&mut s, &mut bus, 6);
    feed(&mut s, &mut bus, note_off(1, 62));
    ticks(&mut s, &mut bus, 12);
    s.perform(SequencerAction::Start);
    drain_notes(&mut bus);
    // Three full loops of playback.
    let mut sounding = [false; 128];
    for _ in 0..72 {
        tick(&mut s, &mut bus);
        for m in drain_notes(&mut bus) {
            let n = m.note as usize;
            match m.kind {
                MessageKind::NoteOn => {
                    assert!(!sounding[n], "note-on for a note already sounding");
                    sounding[n] = true;
                }
                MessageKind::NoteOff => {
                    assert!(sounding[n], "note-off for a silent note");
                    sounding[n] = false;
                }
                _ => panic!("unexpected output kind"),
            }
        }
    }
}

#[test]
fn stopping_flushes_gated_notes() {
    let mut s = Sequencer::new();
    let mut bus = EventLoop::new();
    s.perform(SequencerAction::Record);
    feed(&mut s, &mut bus, note_on(1, 60, 100));
    ticks(&mut s, &mut bus, 6);
    feed(&mut s, &mut bus, note_off(1, 60));
    ticks(&mut s, &mut bus, 2);
    s.perform(SequencerAction::Start);
    // Play into the middle of the note so its gate is open.
    ticks(&mut s, &mut bus, 3);
    drain_notes(&mut bus);
    s.perform(SequencerAction::Stop);
    // The first tick while stopped force-closes everything still gated.
    tick(&mut s, &mut bus);
    let out = drain_notes(&mut bus);
    assert_eq!(out.len(), 1);
    assert_eq!(out[0].kind, MessageKind::NoteOff);
    assert_eq!(out[0].note, 60);
}

#[test]
fn scheduled_action_fires_on_quantizer_step() {
    let mut s = Sequencer::new();
    let mut bus = EventLoop::new();
    s.schedule(SequencerAction::Record);
    assert!(!s.recording);
    s.handle_event(&AppEvent::GlobalQuantizerStep, &mut bus);
    assert!(s.recording);
    assert!(s.running);
    assert_eq!(s.scheduled_action, None);
}

#[test]
fn schedule_replaces_prior_action() {
    let mut s = Sequencer::new();
    let mut bus = EventLoop::new();
    s.schedule(SequencerAction::Record);
    s.schedule(SequencerAction::Start);
    s.handle_event(&AppEvent::GlobalQuantizerStep, &mut bus);
    assert!(s.running);
    assert!(!s.recording);
}

#[test]
fn open_note_query_does_not_wrap_the_loop_end() {
    // A note at position 90 with duration 20 in a 96-tick loop: its tail
    // crosses the loop end, and the scan deliberately does not wrap it.
    let mut s = Sequencer::new();
    s._length = 96;
    s.events.push(SequencerEvent {
        position: 90,
        duration: 20,
        message: note_on(1, 5, 100),
    });
    let mut table: Vec<Option<SequencerEvent>> = vec![None; 128];
    for p in 91..=95u32 {
        s.get_open_events_at_position(p, &mut table);
        assert!(table[5].is_some(), "expected note open at {}", p);
    }
    // Not open at its own start...
    s.get_open_events_at_position(90, &mut table);
    assert!(table[5].is_none());
    // ...and not open at the wrapped positions after the loop restarts.
    for p in 0..=13u32 {
        s.get_open_events_at_position(p, &mut table);
        assert!(table[5].is_none(), "expected note closed at {}", p);
    }
}

#[test]
fn quantizer_snaps_note_on_and_paired_off() {
    let mut events = vec![
        SequencerEvent { position: 5, duration: 0, message: note_on(1, 60, 100) },
        SequencerEvent { position: 25, duration: 0, message: note_off(1, 60) },
    ];
    let s = Sequencer::new();
    let f = QuantizerFilter { divisor: 4 };
    f.filter(&mut events, &s);
    // q = 24: tick 5 rounds down to 0; the paired off keeps the contour.
    assert_eq!(events[0].position, 0);
    assert_eq!(events[1].position, 20);
}

#[test]
fn quantizer_ties_round_up() {
    let mut events = vec![
        SequencerEvent { position: 12, duration: 0, message: note_on(1, 60, 100) },
        SequencerEvent { position: 20, duration: 0, message: note_off(1, 60) },
    ];
    let s = Sequencer::new();
    let f = QuantizerFilter { divisor: 4 };
    f.filter(&mut events, &s);
    assert_eq!(events[0].position, 24);
    assert_eq!(events[1].position, 32);
}

#[test]
fn quantizer_divisor_zero_is_a_no_op() {
    let mut events = vec![
        SequencerEvent { position: 5, duration: 0, message: note_on(1, 60, 100) },
    ];
    let expected = events.clone();
    let s = Sequencer::new();
    let f = QuantizerFilter { divisor: 0 };
    f.filter(&mut events, &s);
    assert_eq!(events, expected);
}

#[test]
fn quantizer_leaves_unpaired_note_on_unmodified() {
    let mut events = vec![
        SequencerEvent { position: 5, duration: 0, message: note_on(1, 60, 100) },
    ];
    let expected = events.clone();
    let s = Sequencer::new();
    let f = QuantizerFilter { divisor: 4 };
    f.filter(&mut events, &s);
    assert_eq!(events, expected);
}

#[test]
fn off_event_search_wraps_to_list_start() {
    let events = vec![
        SequencerEvent { position: 2, duration: 0, message: note_off(1, 60) },
        SequencerEvent { position: 5, duration: 0, message: note_on(1, 60, 100) },
    ];
    assert_eq!(get_off_event_index_for_on_event(&events, 1), Some(0));
    assert_eq!(get_off_event_index_for_on_event(&events, 0), None);
    assert_eq!(get_off_event_index_for_on_event(&events, 9), None);
}

#[test]
fn div_round_half_up() {
    assert_eq!(div_round(5, 24), 0);
    assert_eq!(div_round(11, 24), 0);
    assert_eq!(div_round(12, 24), 1);
    assert_eq!(div_round(24, 24), 1);
    assert_eq!(div_round(35, 24), 1);
    assert_eq!(div_round(36, 24), 2);
}

#[test]
fn normalize_wraps_across_loop_boundary() {
    let mut s = Sequencer::new();
    s._length = 96;
    assert_eq!(s.normalize(10, 3), 7);
    // A note opened at 90 and closed at 5 lasted 11 ticks across the
    // boundary.
    assert_eq!(s.normalize(5, 90), 11);
}

#[test]
fn capture_discards_out_of_range_note_numbers() {
    let mut s = Sequencer::new();
    let mut bus = EventLoop::new();
    s.perform(SequencerAction::Record);
    feed(&mut s, &mut bus, note_on(1, 200, 100));
    ticks(&mut s, &mut bus, 4);
    feed(&mut s, &mut bus, note_off(1, 200));
    ticks(&mut s, &mut bus, 4);
    s.perform(SequencerAction::Stop);
    assert_eq!(s.events.len(), 0);
}

#[test]
fn unmatched_note_off_is_not_an_error() {
    let mut s = Sequencer::new();
    let mut bus = EventLoop::new();
    s.perform(SequencerAction::Record);
    ticks(&mut s, &mut bus, 2);
    feed(&mut s, &mut bus, note_off(1, 60));
    ticks(&mut s, &mut bus, 6);
    s.perform(SequencerAction::Stop);
    assert_eq!(s.events.len(), 0);
    assert_eq!(s._length, 8);
}

#[test]
fn start_while_recording_commits_and_keeps_playing() {
    let mut s = Sequencer::new();
    let mut bus = EventLoop::new();
    s.perform(SequencerAction::Record);
    feed(&mut s, &mut bus, note_on(1, 60, 100));
    ticks(&mut s, &mut bus, 5);
    feed(&mut s, &mut bus, note_off(1, 60));
    ticks(&mut s, &mut bus, 3);
    s.perform(SequencerAction::Start);
    assert!(s.running);
    assert!(!s.recording);
    // The playhead is not rewound: the drop to playing is seamless.
    assert_eq!(s.position, 8);
    assert_eq!(s._length, 8);
    assert_eq!(s.events.len(), 1);
}

#[test]
fn start_from_idle_rewinds() {
    let mut s = Sequencer::new();
    let mut bus = EventLoop::new();
    s.perform(SequencerAction::Start);
    ticks(&mut s, &mut bus, 5);
    assert_eq!(s.position, 5);
    s.perform(SequencerAction::Stop);
    s.position = 42;
    s.perform(SequencerAction::Start);
    assert_eq!(s.position, 0);
    assert!(s.running);
}

#[test]
fn restarting_a_recording_commits_the_running_pass() {
    let mut s = Sequencer::new();
    let mut bus = EventLoop::new();
    s.perform(SequencerAction::Record);
    feed(&mut s, &mut bus, note_on(1, 60, 100));
    ticks(&mut s, &mut bus, 8);
    feed(&mut s, &mut bus, note_off(1, 60));
    ticks(&mut s, &mut bus, 2);
    // Re-arming commits the first pass and keeps recording.
    s.perform(SequencerAction::Record);
    assert!(s.recording);
    assert_eq!(s._length, 10);
    assert_eq!(s.events.len(), 1);
    feed(&mut s, &mut bus, note_on(1, 62, 100));
    ticks(&mut s, &mut bus, 3);
    feed(&mut s, &mut bus, note_off(1, 62));
    s.perform(SequencerAction::Stop);
    assert_eq!(s.events.len(), 2);
}
