//! The decoded form of a MIDI file that note extraction works on: the header's
//! timing and, per track, the timed events in stream order.

use vstd::prelude::*;

verus! {

/// Tempo in effect at the start of every track: 500,000 microseconds per
/// quarter note, which is 120 beats per minute.
pub const DEFAULT_TEMPO: u32 = 500_000;

/// How the header says delta times are to be read.
#[derive(Debug, Clone, Copy, PartialEq, Eq)]
pub enum Timing {
    /// Ticks per quarter note.
    Metrical(u16),
    /// Frame-based timing, which has no tempo-based conversion to seconds.
    Timecode,
}

/// What a track event carries, as far as note extraction reads it.
#[derive(Debug, Clone, Copy, PartialEq, Eq)]
pub enum EventKind {
    NoteOn { key: u8, vel: u8 },
    NoteOff { key: u8, vel: u8 },
    /// Microseconds per quarter note from here on.
    Tempo(u32),
    /// Anything else: it only lets time pass.
    Other,
}

/// One event of a track: the ticks since the previous event, and the payload.
#[derive(Debug, Clone, Copy, PartialEq, Eq)]
pub struct TrackEvent {
    pub delta: u32,
    pub kind: EventKind,
}

/// The unit in which positions and durations are reported.
#[derive(Debug, Clone, Copy, PartialEq, Eq)]
pub enum Mode {
    /// Positions are absolute tick counts; tempo events do not matter.
    Tick,
    /// Positions are elapsed time under the running tempo, counted in units of
    /// which a second holds `1_000_000 * PPQ`.
    Time,
}

/// A decoded MIDI file.
#[derive(Debug, Clone)]
pub struct ParsedMidi {
    pub timing: Timing,
    pub tracks: Vec<Vec<TrackEvent>>,
}

/// The typed failures of extraction.
#[derive(Debug, Clone, Copy, PartialEq, Eq)]
pub enum ExtractError {
    /// The decoder reports an error for the bytes, or they lead it to a
    /// header chunk that declares the frame rate -128.
    DecodeFailure,
    /// Time mode was asked of a file whose timing is not a positive number of
    /// ticks per quarter note.
    UnsupportedTiming,
}

impl TrackEvent {
    /// The pitch that this event starts sounding, if it starts one.
    pub open spec fn opens(self) -> Option<u8> {
        match self.kind {
            EventKind::NoteOn { key, vel } => if vel > 0 { Some(key) } else { None },
            _ => None,
        }
    }

    /// The pitch that this event stops, if it stops one: a note-off, or a
    /// note-on with velocity zero.
    pub open spec fn closes(self) -> Option<u8> {
        match self.kind {
            EventKind::NoteOn { key, vel } => if vel == 0 { Some(key) } else { None },
            EventKind::NoteOff { key, vel } => Some(key),
            _ => None,
        }
    }

    /// The tempo that this event sets, if it sets one.
    pub open spec fn sets_tempo(self) -> Option<u32> {
        match self.kind {
            EventKind::Tempo(t) => Some(t),
            _ => None,
        }
    }

    /// The event's numbers fit the widths that MIDI gives them: 7 bits for a
    /// key and a velocity, 24 for a tempo, 28 for a delta.
    pub open spec fn in_range(self) -> bool {
        &&& self.delta <= 0x0FFF_FFFF
        &&& match self.kind {
            EventKind::NoteOn { key, vel } => key <= 127 && vel <= 127,
            EventKind::NoteOff { key, vel } => key <= 127 && vel <= 127,
            EventKind::Tempo(t) => t <= 0x00FF_FFFF,
            EventKind::Other => true,
        }
    }

    /// The pitch that this event names, whether it opens or closes it.
    pub open spec fn key(self) -> Option<u8> {
        match self.kind {
            EventKind::NoteOn { key, vel } => Some(key),
            EventKind::NoteOff { key, vel } => Some(key),
            _ => None,
        }
    }
}

impl Timing {
    /// Whether elapsed time can be computed under this timing.
    pub open spec fn supports_time(self) -> bool {
        match self {
            Timing::Metrical(ppq) => ppq > 0,
            Timing::Timecode => false,
        }
    }

    /// How many time-mode units make one second: a million per tick of a
    /// quarter note.
    pub open spec fn spec_units_per_second(self) -> Option<int> {
        match self {
            Timing::Metrical(ppq) => if ppq > 0 { Some(1_000_000 * ppq) } else { None },
            Timing::Timecode => None,
        }
    }

    /// The number of time-mode units in a second, where there is one.
    pub fn units_per_second(&self) -> (r: Option<u64>)
        ensures
            match r {
                Some(u) => self.spec_units_per_second() == Some(u as int),
                None => self.spec_units_per_second() is None,
            },
    {
        match self {
            Timing::Metrical(ppq) => {
                if *ppq > 0 {
                    let wide: u64 = *ppq as u64;
                    Some(1_000_000u64 * wide)
                } else {
                    None
                }
            },
            Timing::Timecode => None,
        }
    }
}

/// Every event of every track is in range.
pub open spec fn tracks_in_range(tracks: Seq<Seq<TrackEvent>>) -> bool {
    forall|t: int, i: int|
        0 <= t < tracks.len() && 0 <= i < tracks[t].len() ==> (#[trigger] tracks[t][i]).in_range()
}

/// The tracks of a decoded file as sequences of events.
pub open spec fn tracks_view(tracks: Seq<Vec<TrackEvent>>) -> Seq<Seq<TrackEvent>> {
    Seq::new(tracks.len(), |i: int| tracks[i]@)
}

impl ParsedMidi {
    /// The tracks as sequences of events.
    pub open spec fn spec_tracks(self) -> Seq<Seq<TrackEvent>> {
        tracks_view(self.tracks@)
    }
}

} // verus!
