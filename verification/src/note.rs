//! The note records that extraction returns.

use vstd::prelude::*;
use crate::timeline::NoteSpec;

verus! {

/// One sounded note. `start_time` and `duration` are in the unit of the mode
/// that produced the note: ticks in tick mode; in time mode, units of which a
/// second holds `1_000_000 * PPQ`, so that no rounding takes place.
#[derive(Debug, Clone, Copy, PartialEq, Eq)]
pub struct VisualizerNote {
    pub pitch: u8,
    pub start_time: u128,
    pub duration: u128,
    pub track: usize,
}

impl View for VisualizerNote {
    type V = NoteSpec;

    open spec fn view(&self) -> NoteSpec {
        NoteSpec {
            pitch: self.pitch,
            start: self.start_time as int,
            duration: self.duration as int,
            track: self.track as int,
        }
    }
}

/// A list of note records as the notes they stand for.
pub open spec fn notes_view(notes: Seq<VisualizerNote>) -> Seq<NoteSpec> {
    notes.map_values(|n: VisualizerNote| n@)
}

} // verus!
