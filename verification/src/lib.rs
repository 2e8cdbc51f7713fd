//! Reconstruction of sounded notes from the timed events of a MIDI file.
//!
//! A note is the interval between an event that opens a pitch and the next
//! event of the same track that closes it. Positions are absolute ticks, or
//! elapsed time under the tempo events of the track.

pub mod chunks;
pub mod decode;
pub mod event;
pub mod extract;
pub mod laws;
pub mod note;
pub mod timeline;

pub use crate::event::{EventKind, ExtractError, Mode, ParsedMidi, Timing, TrackEvent};
pub use crate::chunks::has_overflowing_header;
pub use crate::decode::decode;
pub use crate::extract::{extract_notes, notes_of, scan_track};
pub use crate::note::VisualizerNote;
