use loop_bastard::app::dispatch_core;
use loop_bastard::{AppEvent, AppState, Clock, EventLoop, Message, MessageKind, SequencerAction};

fn pump(
    state: &mut AppState,
    clock: &mut Clock,
    bus: &mut EventLoop,
    now_us: u64,
) -> (Vec<AppEvent>, Vec<Message>) {
    let mut seen = Vec::new();
    let mut sent = Vec::new();
    while let Some(event) = bus.get_event() {
        seen.push(event.clone());
        if let Some(m) = dispatch_core(state, clock, bus, &event, now_us) {
            sent.push(m);
        }
    }
    (seen, sent)
}

#[test]
fn state_starts_with_sixteen_tracks() {
    let s = AppState::new();
    assert_eq!(s.sequencers.len(), 16);
    assert_eq!(s.global_q, 4);
    assert_eq!(s.internal_bpm, 120);
}

#[test]
fn timing_clock_normalizes_to_clock_tick() {
    let mut state = AppState::new();
    let mut clock = Clock::new(0);
    let mut bus = EventLoop::new();
    bus.post(AppEvent::MIDIMessage(Message::new(MessageKind::TimingClock)));
    let (seen, _) = pump(&mut state, &mut clock, &mut bus, 1_000);
    assert_eq!(seen[0], AppEvent::MIDIMessage(Message::new(MessageKind::TimingClock)));
    assert!(seen.contains(&AppEvent::ClockTick));
    assert_eq!(clock.ticks(), 1);
}

#[test]
fn clock_tick_precedes_its_quantizer_step() {
    let mut state = AppState::new();
    let mut clock = Clock::new(0);
    let mut bus = EventLoop::new();
    clock._ticks = 95;
    bus.post(AppEvent::InternalClockTick);
    let (seen, _) = pump(&mut state, &mut clock, &mut bus, 1_000);
    let tick_at = seen.iter().position(|e| *e == AppEvent::ClockTick).unwrap();
    let step_at = seen.iter().position(|e| *e == AppEvent::GlobalQuantizerStep).unwrap();
    assert!(tick_at < step_at);
}

#[test]
fn quantizer_step_fires_scheduled_actions_on_every_track() {
    let mut state = AppState::new();
    let mut clock = Clock::new(0);
    let mut bus = EventLoop::new();
    state.sequencers[0].schedule(SequencerAction::Start);
    state.sequencers[7].schedule(SequencerAction::Record);
    clock._ticks = 95;
    bus.post(AppEvent::InternalClockTick);
    pump(&mut state, &mut clock, &mut bus, 1_000);
    assert!(state.sequencers[0].running);
    assert!(!state.sequencers[0].recording);
    assert!(state.sequencers[7].recording);
    assert!(!state.sequencers[1].running);
}

#[test]
fn playback_output_reaches_the_output_adapter() {
    let mut state = AppState::new();
    let mut clock = Clock::new(0);
    let mut bus = EventLoop::new();
    // Record one note on track 0 and play it back through the bus.
    state.sequencers[0].perform(SequencerAction::Record);
    let mut on = Message::new(MessageKind::NoteOn);
    on.channel = 1;
    on.note = 60;
    on.velocity = 100;
    bus.post(AppEvent::MIDIMessage(on));
    pump(&mut state, &mut clock, &mut bus, 0);
    for i in 0..6u64 {
        bus.post(AppEvent::InternalClockTick);
        pump(&mut state, &mut clock, &mut bus, i * 20_000);
    }
    let mut off = Message::new(MessageKind::NoteOff);
    off.channel = 1;
    off.note = 60;
    bus.post(AppEvent::MIDIMessage(off));
    pump(&mut state, &mut clock, &mut bus, 120_000);
    state.sequencers[0].perform(SequencerAction::Stop);
    state.sequencers[0].perform(SequencerAction::Start);
    let mut sent_on = false;
    for i in 0..6u64 {
        bus.post(AppEvent::InternalClockTick);
        let (_, sent) = pump(&mut state, &mut clock, &mut bus, 200_000 + i * 20_000);
        for m in sent {
            if m.kind == MessageKind::NoteOn && m.note == 60 {
                sent_on = true;
                assert_eq!(m.channel, state.sequencers[0].output_channel);
            }
        }
    }
    assert!(sent_on);
}
