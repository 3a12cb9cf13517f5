use loop_bastard::{Message, MessageKind};

fn roundtrip(m: &Message) -> Message {
    let (bytes, len) = m.to_bytes();
    Message::from(&bytes[0..len])
}

#[test]
fn parse_timing_clock() {
    let m = Message::from(&[0xF8]);
    assert_eq!(m.kind, MessageKind::TimingClock);
}

#[test]
fn parse_system_messages() {
    assert_eq!(Message::from(&[0xFE]).kind, MessageKind::ActiveSensing);
    assert_eq!(Message::from(&[0xFB]).kind, MessageKind::Continue);
    assert_eq!(Message::from(&[0xFA]).kind, MessageKind::Start);
    assert_eq!(Message::from(&[0xFC]).kind, MessageKind::Stop);
}

#[test]
fn parse_note_on_channel_is_one_based() {
    let m = Message::from(&[0x90, 60, 100]);
    assert_eq!(m.kind, MessageKind::NoteOn);
    assert_eq!(m.channel, 1);
    assert_eq!(m.note, 60);
    assert_eq!(m.velocity, 100);

    let m = Message::from(&[0x9F, 61, 101]);
    assert_eq!(m.channel, 16);
}

#[test]
fn parse_note_off() {
    let m = Message::from(&[0x83, 72, 64]);
    assert_eq!(m.kind, MessageKind::NoteOff);
    assert_eq!(m.channel, 4);
    assert_eq!(m.note, 72);
    assert_eq!(m.velocity, 64);
}

#[test]
fn parse_song_position_fourteen_bits() {
    let m = Message::from(&[0xF2, 0x02, 0x05]);
    assert_eq!(m.kind, MessageKind::SongPosition);
    assert_eq!(m.position, (2 << 7) + 5);
}

#[test]
fn parse_unknown_lengths() {
    let m = Message::from(&[0x42]);
    assert_eq!(m.kind, MessageKind::Unknown1);
    assert_eq!(m.message, 0x42);

    let m = Message::from(&[0x42, 7]);
    assert_eq!(m.kind, MessageKind::Unknown2);
    assert_eq!((m.message, m.a), (0x42, 7));

    let m = Message::from(&[0x42, 7, 9]);
    assert_eq!(m.kind, MessageKind::Unknown3);
    assert_eq!((m.message, m.a, m.b), (0x42, 7, 9));
}

#[test]
fn try_parse_rejects_malformed() {
    assert_eq!(Message::try_parse(&[]), None);
    assert_eq!(Message::try_parse(&[0x42, 1, 2, 3]), None);
    assert_eq!(Message::try_parse(&[0xF2, 1]), None);
    assert_eq!(Message::try_parse(&[0x90, 60]), None);
}

#[test]
fn try_parse_accepts_well_formed() {
    let m = Message::try_parse(&[0x91, 10, 20]).unwrap();
    assert_eq!(m.kind, MessageKind::NoteOn);
    assert_eq!(m.channel, 2);
}

#[test]
fn note_on_round_trip() {
    let mut m = Message::new(MessageKind::NoteOn);
    m.channel = 5;
    m.note = 64;
    m.velocity = 99;
    assert_eq!(roundtrip(&m), m);
    let (bytes, len) = m.to_bytes();
    assert_eq!(len, 3);
    assert_eq!(bytes, [0x94, 64, 99]);
}

#[test]
fn note_off_round_trip() {
    let mut m = Message::new(MessageKind::NoteOff);
    m.channel = 16;
    m.note = 1;
    m.velocity = 2;
    assert_eq!(roundtrip(&m), m);
    let (bytes, len) = m.to_bytes();
    assert_eq!(len, 3);
    assert_eq!(bytes, [0x8F, 1, 2]);
}

#[test]
fn song_position_round_trip() {
    let mut m = Message::new(MessageKind::SongPosition);
    m.position = 0x3FFF;
    assert_eq!(roundtrip(&m), m);
    let (bytes, len) = m.to_bytes();
    assert_eq!(len, 3);
    assert_eq!(bytes, [0xF2, 0x7F, 0x7F]);
}

#[test]
fn system_round_trips() {
    for kind in [
        MessageKind::ActiveSensing,
        MessageKind::Continue,
        MessageKind::Start,
        MessageKind::Stop,
        MessageKind::TimingClock,
    ] {
        let m = Message::new(kind);
        assert_eq!(roundtrip(&m), m);
        let (_, len) = m.to_bytes();
        assert_eq!(len, 1);
    }
}
