//! The MIDI message codec: parsing raw wire bytes into a structured
//! `Message` value and serializing it back.
//!
//! Channel numbers are stored 1-based (1..=16) but encoded 0-based on the
//! wire.  Song positions are 14-bit values carried in two 7-bit data bytes.

use vstd::prelude::*;

verus! {

pub const ACTIVE_SENSING: u8 = 0xFE;
pub const CONTINUE: u8 = 0xFB;
pub const SONG_POSITION_POINTER: u8 = 0xF2;
pub const START: u8 = 0xFA;
pub const STOP: u8 = 0xFC;
pub const TIMING_CLOCK: u8 = 0xF8;
/// High nibble of a note-off status byte.
pub const NOTE_OFF: u8 = 0x8;
/// High nibble of a note-on status byte.
pub const NOTE_ON: u8 = 0x9;

#[derive(Debug, Copy, Clone, Eq, PartialEq, Structural)]
pub enum MessageKind {
    ActiveSensing,
    Continue,
    NoteOff,
    NoteOn,
    SongPosition,
    Start,
    Unknown1,
    Unknown2,
    Unknown3,
    Stop,
    TimingClock,
}

#[derive(Debug, Copy, Clone, Eq, PartialEq, Structural)]
pub struct Message {
    pub kind: MessageKind,
    pub channel: u8,
    pub note: u8,
    pub velocity: u8,
    pub position: u16,
    pub message: u8,
    pub a: u8,
    pub b: u8,
}

impl Message {
    /// A message of the given kind with every payload field zeroed.
    pub open spec fn blank(kind: MessageKind) -> Message {
        Message { kind, channel: 0, note: 0, velocity: 0, position: 0, message: 0, a: 0, b: 0 }
    }

    /// Which `Message` a raw byte string denotes, or `None` where the bytes
    /// are malformed (empty, longer than any known message shape, or too
    /// short for the shape their status byte announces).
    pub open spec fn parse(data: Seq<u8>) -> Option<Message> {
        if data.len() < 1 || data.len() > 3 {
            None
        } else {
            let s = data[0];
            if s == ACTIVE_SENSING {
                Some(Message::blank(MessageKind::ActiveSensing))
            } else if s == CONTINUE {
                Some(Message::blank(MessageKind::Continue))
            } else if s == SONG_POSITION_POINTER {
                if data.len() == 3 {
                    Some(Message {
                        position: ((data[1] as u16) * 128 + data[2] as u16) as u16,
                        ..Message::blank(MessageKind::SongPosition)
                    })
                } else {
                    None
                }
            } else if s == START {
                Some(Message::blank(MessageKind::Start))
            } else if s == STOP {
                Some(Message::blank(MessageKind::Stop))
            } else if s == TIMING_CLOCK {
                Some(Message::blank(MessageKind::TimingClock))
            } else if s / 16 == NOTE_OFF || s / 16 == NOTE_ON {
                if data.len() == 3 {
                    Some(Message {
                        kind: if s / 16 == NOTE_OFF { MessageKind::NoteOff } else { MessageKind::NoteOn },
                        channel: (s % 16 + 1) as u8,
                        note: data[1],
                        velocity: data[2],
                        ..Message::blank(MessageKind::NoteOff)
                    })
                } else {
                    None
                }
            } else if data.len() == 1 {
                Some(Message { message: s, ..Message::blank(MessageKind::Unknown1) })
            } else if data.len() == 2 {
                Some(Message { message: s, a: data[1], ..Message::blank(MessageKind::Unknown2) })
            } else {
                Some(Message { message: s, a: data[1], b: data[2], ..Message::blank(MessageKind::Unknown3) })
            }
        }
    }

    /// The wire encoding of a message: 1 to 3 bytes.
    pub open spec fn wire(self) -> Seq<u8> {
        match self.kind {
            MessageKind::ActiveSensing => seq![ACTIVE_SENSING],
            MessageKind::Continue => seq![CONTINUE],
            MessageKind::SongPosition => seq![
                SONG_POSITION_POINTER,
                (self.position / 128) as u8,
                (self.position % 128) as u8,
            ],
            MessageKind::Start => seq![START],
            MessageKind::Stop => seq![STOP],
            MessageKind::TimingClock => seq![TIMING_CLOCK],
            MessageKind::NoteOn => seq![
                (NOTE_ON * 16 + self.channel - 1) as u8,
                self.note,
                self.velocity,
            ],
            MessageKind::NoteOff => seq![
                (NOTE_OFF * 16 + self.channel - 1) as u8,
                self.note,
                self.velocity,
            ],
            MessageKind::Unknown1 => seq![self.message],
            MessageKind::Unknown2 => seq![self.message, self.a],
            MessageKind::Unknown3 => seq![self.message, self.a, self.b],
        }
    }

    /// Field invariant: channels are 1-based and fit in four wire bits,
    /// song positions fit in fourteen wire bits.
    pub open spec fn wf(self) -> bool {
        &&& (self.kind is NoteOn || self.kind is NoteOff) ==> 1 <= self.channel <= 16
        &&& self.kind is SongPosition ==> self.position < 0x4000
    }

    /// Every field the variant does not carry on the wire is zero, as
    /// `parse` leaves it.
    pub open spec fn canonical(self) -> bool {
        match self.kind {
            MessageKind::SongPosition => self == Message {
                position: self.position,
                ..Message::blank(MessageKind::SongPosition)
            },
            MessageKind::NoteOn | MessageKind::NoteOff => self == Message {
                kind: self.kind,
                channel: self.channel,
                note: self.note,
                velocity: self.velocity,
                ..Message::blank(self.kind)
            },
            MessageKind::Unknown1 => self == Message {
                message: self.message,
                ..Message::blank(MessageKind::Unknown1)
            },
            MessageKind::Unknown2 => self == Message {
                message: self.message,
                a: self.a,
                ..Message::blank(MessageKind::Unknown2)
            },
            MessageKind::Unknown3 => self == Message {
                message: self.message,
                a: self.a,
                b: self.b,
                ..Message::blank(MessageKind::Unknown3)
            },
            _ => self == Message::blank(self.kind),
        }
    }

    /// A recognized protocol variant, as opposed to the raw pass-through
    /// `Unknown` variants.
    pub open spec fn defined(self) -> bool {
        !(self.kind is Unknown1 || self.kind is Unknown2 || self.kind is Unknown3)
    }

    pub fn new(kind: MessageKind) -> (m: Message)
        ensures
            m == Message::blank(kind),
    {
        Message {
            kind,
            channel: 0,
            note: 0,
            velocity: 0,
            position: 0,
            message: 0,
            a: 0,
            b: 0,
        }
    }

    /// Parses bytes known to be well formed.
    pub fn from(data: &[u8]) -> (m: Message)
        requires
            Message::parse(data@) is Some,
        ensures
            Some(m) == Message::parse(data@),
    {
        let s = data[0];
        let mut m = Message::new(MessageKind::Unknown1);
        if s == ACTIVE_SENSING {
            m.kind = MessageKind::ActiveSensing;
        } else if s == CONTINUE {
            m.kind = MessageKind::Continue;
        } else if s == SONG_POSITION_POINTER {
            m.kind = MessageKind::SongPosition;
            m.position = (data[1] as u16) * 128 + data[2] as u16;
        } else if s == START {
            m.kind = MessageKind::Start;
        } else if s == STOP {
            m.kind = MessageKind::Stop;
        } else if s == TIMING_CLOCK {
            m.kind = MessageKind::TimingClock;
        } else if s / 16 == NOTE_OFF || s / 16 == NOTE_ON {
            m.kind = if s / 16 == NOTE_OFF { MessageKind::NoteOff } else { MessageKind::NoteOn };
            m.channel = s % 16 + 1;
            m.note = data[1];
            m.velocity = data[2];
        } else if data.len() == 1 {
            m.message = s;
        } else if data.len() == 2 {
            m.kind = MessageKind::Unknown2;
            m.message = s;
            m.a = data[1];
        } else {
            m.kind = MessageKind::Unknown3;
            m.message = s;
            m.a = data[1];
            m.b = data[2];
        }
        m
    }

    /// Parses arbitrary bytes; malformed input is reported as `None` so the
    /// caller can discard it instead of aborting (a protocol error is never
    /// fatal).
    pub fn try_parse(data: &[u8]) -> (r: Option<Message>)
        ensures
            r == Message::parse(data@),
    {
        if data.len() < 1 || data.len() > 3 {
            return None;
        }
        let s = data[0];
        let needs_three = s == SONG_POSITION_POINTER || s / 16 == NOTE_OFF || s / 16 == NOTE_ON;
        if needs_three && data.len() < 3 {
            return None;
        }
        Some(Message::from(data))
    }

    /// Serializes the message; returns the three-byte buffer and how many
    /// of its leading bytes are meaningful.
    pub fn to_bytes(&self) -> (r: ([u8; 3], usize))
        requires
            self.wf(),
        ensures
            r.1 == self.wire().len(),
            forall|i: int| 0 <= i < r.1 ==> r.0@[i] == self.wire()[i],
    {
        match &self.kind {
            MessageKind::ActiveSensing => ([ACTIVE_SENSING, 0, 0], 1),
            MessageKind::Continue => ([CONTINUE, 0, 0], 1),
            MessageKind::SongPosition => (
                [SONG_POSITION_POINTER, (self.position / 128) as u8, (self.position % 128) as u8],
                3,
            ),
            MessageKind::Start => ([START, 0, 0], 1),
            MessageKind::Stop => ([STOP, 0, 0], 1),
            MessageKind::TimingClock => ([TIMING_CLOCK, 0, 0], 1),
            MessageKind::NoteOn => ([NOTE_ON * 16 + self.channel - 1, self.note, self.velocity], 3),
            MessageKind::NoteOff => ([NOTE_OFF * 16 + self.channel - 1, self.note, self.velocity], 3),
            MessageKind::Unknown1 => ([self.message, 0, 0], 1),
            MessageKind::Unknown2 => ([self.message, self.a, 0], 2),
            MessageKind::Unknown3 => ([self.message, self.a, self.b], 3),
        }
    }
}

/// Round trip, encoding side: serializing a well-formed, canonical message
/// of any defined variant and parsing the bytes back yields the message
/// unchanged.
pub proof fn lemma_wire_round_trip(m: Message)
    requires
        m.wf(),
        m.canonical(),
        m.defined(),
    ensures
        Message::parse(m.wire()) == Some(m),
{
}

/// Round trip, decoding side: a message parsed from bytes whose data bytes
/// are valid seven-bit MIDI payload serializes back to exactly the bytes it
/// came from (ignoring bytes past the message's own length, which `parse`
/// discards).
pub proof fn lemma_parse_round_trip(data: Seq<u8>, m: Message)
    requires
        Message::parse(data) == Some(m),
        m.kind is SongPosition ==> data[1] < 0x80 && data[2] < 0x80,
    ensures
        m.wf(),
        m.canonical(),
        m.wire() == data.take(m.wire().len() as int),
{
    assert(m.wire() =~= data.take(m.wire().len() as int));
}

} // verus!
