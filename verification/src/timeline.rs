//! What a track means: where each event stands in time, which pitches are
//! sounding after each event, and which notes have been completed.

use vstd::prelude::*;
use crate::event::{Mode, TrackEvent, DEFAULT_TEMPO};

verus! {

/// A completed note: its pitch, where it began, how long it lasted, and the
/// index of the track it came from. Positions are in the unit of the mode.
pub ghost struct NoteSpec {
    pub pitch: u8,
    pub start: int,
    pub duration: int,
    pub track: int,
}

/// The tempo in effect when event `n` arrives: that of the last tempo event
/// among the first `n`, or the default where there is none.
pub open spec fn tempo_before(events: Seq<TrackEvent>, n: int) -> int
    decreases n,
{
    if n <= 0 {
        DEFAULT_TEMPO as int
    } else {
        match events[n - 1].sets_tempo() {
            Some(t) => t as int,
            None => tempo_before(events, n - 1),
        }
    }
}

/// By how much event `i` moves the position: its delta in tick mode, its
/// delta times the tempo in effect on arrival in time mode.
pub open spec fn advance(events: Seq<TrackEvent>, i: int, mode: Mode) -> int {
    match mode {
        Mode::Tick => events[i].delta as int,
        Mode::Time => (events[i].delta as int) * tempo_before(events, i),
    }
}

/// The absolute position reached by the first `n` events.
pub open spec fn position(events: Seq<TrackEvent>, n: int, mode: Mode) -> int
    decreases n,
{
    if n <= 0 {
        0
    } else {
        position(events, n - 1, mode) + advance(events, n - 1, mode)
    }
}

/// The start position waiting for pitch `p` after the first `n` events, if
/// the pitch is sounding then. A later opening replaces an earlier one.
pub open spec fn pending(events: Seq<TrackEvent>, n: int, mode: Mode, p: u8) -> Option<int>
    decreases n,
{
    if n <= 0 {
        None
    } else if events[n - 1].opens() == Some(p) {
        Some(position(events, n, mode))
    } else if events[n - 1].closes() == Some(p) {
        None
    } else {
        pending(events, n - 1, mode, p)
    }
}

/// The note that event `i` completes, if it closes a pitch that is sounding.
pub open spec fn completed_at(events: Seq<TrackEvent>, i: int, mode: Mode, track: int) -> Option<
    NoteSpec,
> {
    match events[i].closes() {
        Some(p) => match pending(events, i, mode, p) {
            Some(s) => Some(
                NoteSpec { pitch: p, start: s, duration: position(events, i + 1, mode) - s, track },
            ),
            None => None,
        },
        None => None,
    }
}

/// The notes completed by the first `n` events, in the order of the events
/// that closed them.
pub open spec fn emitted(events: Seq<TrackEvent>, n: int, mode: Mode, track: int) -> Seq<NoteSpec>
    decreases n,
{
    if n <= 0 {
        Seq::empty()
    } else {
        match completed_at(events, n - 1, mode, track) {
            Some(note) => emitted(events, n - 1, mode, track).push(note),
            None => emitted(events, n - 1, mode, track),
        }
    }
}

/// All the notes of one track. Pitches still sounding at its end give none.
pub open spec fn track_notes(events: Seq<TrackEvent>, mode: Mode, track: int) -> Seq<NoteSpec> {
    emitted(events, events.len() as int, mode, track)
}

/// The notes of the first `k` tracks, track by track.
pub open spec fn all_notes(tracks: Seq<Seq<TrackEvent>>, k: int, mode: Mode) -> Seq<NoteSpec>
    decreases k,
{
    if k <= 0 {
        Seq::empty()
    } else {
        all_notes(tracks, k - 1, mode) + track_notes(tracks[k - 1], mode, k - 1)
    }
}

/// The largest step that one event can make: a 32-bit delta times a 32-bit
/// tempo.
pub open spec fn max_step() -> int {
    0xFFFF_FFFFint * 0xFFFF_FFFFint
}

/// One event moves the position forward, by at most `max_step()`.
pub proof fn lemma_advance_bounds(events: Seq<TrackEvent>, i: int, mode: Mode)
    requires
        0 <= i < events.len(),
    ensures
        0 <= advance(events, i, mode) <= max_step(),
{
    lemma_tempo_bounds(events, i);
    let d = events[i].delta as int;
    let t = tempo_before(events, i);
    assert(0 <= d * t <= 0xFFFF_FFFF * 0xFFFF_FFFF) by (nonlinear_arith)
        requires
            0 <= d <= 0xFFFF_FFFF,
            0 <= t <= 0xFFFF_FFFF,
    ;
}

/// The running tempo is a 32-bit value.
pub proof fn lemma_tempo_bounds(events: Seq<TrackEvent>, n: int)
    ensures
        0 <= tempo_before(events, n) <= 0xFFFF_FFFF,
    decreases n,
{
    if n > 0 {
        lemma_tempo_bounds(events, n - 1);
    }
}

/// Positions never go back, and `n` events reach at most `n * max_step()`.
pub proof fn lemma_position_monotonic(events: Seq<TrackEvent>, m: int, n: int, mode: Mode)
    requires
        0 <= m <= n <= events.len(),
    ensures
        0 <= position(events, m, mode) <= position(events, n, mode) <= n * max_step(),
    decreases n,
{
    if n > 0 {
        lemma_advance_bounds(events, n - 1, mode);
        if m < n {
            lemma_position_monotonic(events, m, n - 1, mode);
        } else {
            lemma_position_monotonic(events, n - 1, n - 1, mode);
        }
        assert(n * max_step() == (n - 1) * max_step() + max_step()) by (nonlinear_arith);
    }
}

/// A pending start is a position that the track has already reached.
pub proof fn lemma_pending_reached(events: Seq<TrackEvent>, n: int, mode: Mode, p: u8)
    requires
        0 <= n <= events.len(),
    ensures
        match pending(events, n, mode, p) {
            Some(s) => 0 <= s <= position(events, n, mode),
            None => true,
        },
    decreases n,
{
    if n > 0 {
        lemma_position_monotonic(events, n - 1, n, mode);
        lemma_pending_reached(events, n - 1, mode, p);
    }
}

} // verus!
