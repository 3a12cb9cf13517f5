//! Timing and sequencing core of a multi-track MIDI loop recorder.
//!
//! The crate holds the verified heart of the recorder: the wire-message
//! codec, the event bus, the clock with its tick counting and tempo
//! estimate, the per-track sequencer state machine, and the quantizer
//! filter over a track's committed events.  Physical MIDI transport,
//! threads and rendering live outside and talk to this core through
//! plain values: raw bytes, microsecond timestamps and bus events.

pub mod app;
pub mod clock;
pub mod sequencer;
pub mod events;
pub mod midi;
pub mod util;

pub use app::AppState;
pub use clock::{Clock, TICKS_PER_BEAT};
pub use events::{AppEvent, Button, EventLoop};
pub use midi::{Message, MessageKind};
pub use sequencer::{Filter, QuantizerFilter, Sequencer, SequencerAction, SequencerEvent};
pub use util::Timer;
