//! The scan that pairs opening and closing events into notes.

use vstd::prelude::*;
use crate::decode::{decode, decoded};
use crate::event::{
    tracks_in_range, EventKind, ExtractError, Mode, ParsedMidi, Timing, TrackEvent, DEFAULT_TEMPO,
};
use crate::laws::lemma_all_notes_in_range;
use crate::note::{notes_view, VisualizerNote};
use crate::timeline::{
    all_notes, completed_at, emitted, lemma_pending_reached, lemma_position_monotonic, max_step, pending,
    position, tempo_before, track_notes, NoteSpec,
};

verus! {

/// What extraction returns for a decoded file: an error in time mode where
/// the timing gives no positive number of ticks per quarter note, else the
/// notes of all tracks, track by track.
pub open spec fn extraction(timing: Timing, tracks: Seq<Seq<TrackEvent>>, mode: Mode) -> Result<
    Seq<NoteSpec>,
    ExtractError,
> {
    if mode == Mode::Time && !timing.supports_time() {
        Err(ExtractError::UnsupportedTiming)
    } else {
        Ok(all_notes(tracks, tracks.len() as int, mode))
    }
}

/// What the table of sounding pitches stores for a pending start.
pub open spec fn stored(start: Option<int>) -> Option<u128> {
    match start {
        Some(s) => Some(s as u128),
        None => None,
    }
}

/// The table holds, for every pitch, the start that is pending after the
/// first `n` events.
pub open spec fn table_matches(
    table: Seq<Option<u128>>,
    events: Seq<TrackEvent>,
    n: int,
    mode: Mode,
) -> bool {
    &&& table.len() == 256
    &&& forall|k: int|
        0 <= k < 256 ==> #[trigger] table[k] == stored(pending(events, n, mode, k as u8))
}

/// A table in which no pitch is sounding.
fn silent_table() -> (table: Vec<Option<u128>>)
    ensures
        table.len() == 256,
        forall|k: int| 0 <= k < 256 ==> #[trigger] table[k] is None,
{
    let mut table: Vec<Option<u128>> = Vec::new();
    let mut k: usize = 0;
    while k < 256
        invariant
            k <= 256,
            table.len() == k,
            forall|j: int| 0 <= j < k ==> #[trigger] table[j] is None,
        decreases 256 - k,
    {
        table.push(None);
        k += 1;
    }
    table
}

/// Closes `key` at `position`: where the pitch is sounding, its note is
/// appended to `out` and the pitch falls silent.
fn close_pitch(
    table: &mut Vec<Option<u128>>,
    key: u8,
    position: u128,
    track: usize,
    out: &mut Vec<VisualizerNote>,
)
    requires
        old(table).len() == 256,
        forall|k: int|
            0 <= k < 256 ==> (#[trigger] old(table)[k] matches Some(s) ==> s <= position),
    ensures
        final(table)@ == old(table)@.update(key as int, None),
        final(out)@ == match old(table)[key as int] {
            Some(s) => old(out)@.push(
                VisualizerNote {
                    pitch: key,
                    start_time: s,
                    duration: (position - s) as u128,
                    track,
                },
            ),
            None => old(out)@,
        },
{
    let slot = table[key as usize];
    table.set(key as usize, None);
    match slot {
        Some(start_time) => {
            out.push(
                VisualizerNote { pitch: key, start_time, duration: position - start_time, track },
            );
        },
        None => {},
    }
}

/// Appends the notes of one track to `out`.
pub fn scan_track(events: &Vec<TrackEvent>, mode: Mode, track: usize, out: &mut Vec<VisualizerNote>)
    ensures
        notes_view(final(out)@) == notes_view(old(out)@) + track_notes(
            events@,
            mode,
            track as int,
        ),
{
    let n = events.len();
    let mut table = silent_table();
    let mut now: u128 = 0;
    let mut tempo: u32 = DEFAULT_TEMPO;
    let mut i: usize = 0;
    assert(notes_view(out@) =~= notes_view(out@) + emitted(events@, 0, mode, track as int));
    while i < n
        invariant
            n == events.len(),
            i <= n,
            now == position(events@, i as int, mode),
            tempo == tempo_before(events@, i as int),
            table_matches(table@, events@, i as int, mode),
            notes_view(out@) == notes_view(old(out)@) + emitted(
                events@,
                i as int,
                mode,
                track as int,
            ),
        decreases n - i,
    {
        let e = events[i];
        let ghost before = out@;
        proof {
            lemma_position_monotonic(events@, i as int, i + 1, mode);
            assert((i + 1) * max_step() <= 0xFFFF_FFFF_FFFF_FFFF * max_step()) by (nonlinear_arith)
                requires
                    0 <= i + 1 <= 0xFFFF_FFFF_FFFF_FFFF,
                    0 <= max_step(),
            ;
            assert(0xFFFF_FFFF_FFFF_FFFF * max_step() <= u128::MAX);
            assert forall|k: int| 0 <= k < 256 implies (#[trigger] table[k] matches Some(s) ==> s
                <= position(events@, i + 1, mode)) by {
                lemma_pending_reached(events@, i as int, mode, k as u8);
            }
        }
        let step: u128 = match mode {
            Mode::Tick => e.delta as u128,
            Mode::Time => {
                assert((e.delta as int) * (tempo as int) <= max_step()) by (nonlinear_arith)
                    requires
                        0 <= e.delta <= 0xFFFF_FFFF,
                        0 <= tempo <= 0xFFFF_FFFF,
                ;
                (e.delta as u128) * (tempo as u128)
            },
        };
        now = now + step;
        match e.kind {
            EventKind::Tempo(t) => {
                tempo = t;
            },
            EventKind::NoteOn { key, vel } => {
                if vel > 0 {
                    table.set(key as usize, Some(now));
                } else {
                    close_pitch(&mut table, key, now, track, out);
                }
            },
            EventKind::NoteOff { key, vel } => {
                close_pitch(&mut table, key, now, track, out);
            },
            EventKind::Other => {},
        }
        proof {
            let next = i + 1;
            assert forall|k: int| 0 <= k < 256 implies #[trigger] table@[k] == stored(
                pending(events@, next, mode, k as u8),
            ) by {
                lemma_pending_reached(events@, i as int, mode, k as u8);
            }
            match e.closes() {
                Some(p) => {
                    lemma_pending_reached(events@, i as int, mode, p);
                    match pending(events@, i as int, mode, p) {
                        Some(s) => {
                            let note = completed_at(events@, i as int, mode, track as int)->0;
                            assert(out@ == before.push(out@[before.len() as int]));
                            assert(out@[before.len() as int]@ == note);
                            assert(notes_view(out@) =~= notes_view(before).push(note));
                        },
                        None => {
                            assert(out@ == before);
                        },
                    }
                },
                None => {
                    assert(out@ == before);
                },
            }
            assert(notes_view(out@) =~= notes_view(old(out)@) + emitted(
                events@,
                next,
                mode,
                track as int,
            ));
        }
        i += 1;
    }
}

/// The notes of a decoded file: every interval between an event that opens
/// a pitch and the next event of the same track that closes it.
///
/// Time mode needs a positive number of ticks per quarter note and fails
/// with `UnsupportedTiming` without one; tick mode takes any timing.
pub fn notes_of(parsed: &ParsedMidi, mode: Mode) -> (r: Result<Vec<VisualizerNote>, ExtractError>)
    ensures
        match r {
            Ok(notes) => extraction(parsed.timing, parsed.spec_tracks(), mode) == Ok::<
                Seq<NoteSpec>,
                ExtractError,
            >(notes_view(notes@)),
            Err(e) => extraction(parsed.timing, parsed.spec_tracks(), mode) == Err::<
                Seq<NoteSpec>,
                ExtractError,
            >(e),
        },
        r matches Ok(notes) ==> forall|k: int|
            0 <= k < notes.len() ==> (#[trigger] notes[k]).track < parsed.tracks.len(),
        r matches Ok(notes) ==> tracks_in_range(parsed.spec_tracks()) ==> forall|k: int|
            0 <= k < notes.len() ==> (#[trigger] notes[k]).pitch <= 127,
{
    match mode {
        Mode::Time => match parsed.timing {
            Timing::Metrical(ppq) => {
                if ppq == 0 {
                    return Err(ExtractError::UnsupportedTiming);
                }
            },
            Timing::Timecode => {
                return Err(ExtractError::UnsupportedTiming);
            },
        },
        Mode::Tick => {},
    }
    let mut out: Vec<VisualizerNote> = Vec::new();
    let count = parsed.tracks.len();
    let mut t: usize = 0;
    assert(notes_view(out@) =~= all_notes(parsed.spec_tracks(), 0, mode));
    while t < count
        invariant
            count == parsed.tracks.len(),
            t <= count,
            notes_view(out@) == all_notes(parsed.spec_tracks(), t as int, mode),
        decreases count - t,
    {
        scan_track(&parsed.tracks[t], mode, t, &mut out);
        assert(parsed.spec_tracks()[t as int] == parsed.tracks[t as int]@);
        t += 1;
    }
    proof {
        assert forall|k: int| 0 <= k < out.len() implies (#[trigger] out[k]).track
            < parsed.tracks.len() && (tracks_in_range(parsed.spec_tracks()) ==> out[k].pitch
            <= 127) by {
            lemma_all_notes_in_range(parsed.spec_tracks(), count as int, mode, k);
            assert(notes_view(out@)[k] == out[k]@);
        }
    }
    Ok(out)
}

/// What extraction returns for the bytes of a file: `DecodeFailure` where
/// `decoded` has nothing for them, else what the decoded file gives.
pub open spec fn extraction_of_bytes(bytes: Seq<u8>, mode: Mode) -> Result<
    Seq<NoteSpec>,
    ExtractError,
> {
    match decoded(bytes) {
        Some((timing, tracks)) => extraction(timing, tracks, mode),
        None => Err(ExtractError::DecodeFailure),
    }
}

/// The notes of a MIDI file given as bytes, in the order in which they are
/// closed, track by track. Every pitch is at most 127.
pub fn extract_notes(midi_bytes: &[u8], mode: Mode) -> (r: Result<
    Vec<VisualizerNote>,
    ExtractError,
>)
    ensures
        match r {
            Ok(notes) => extraction_of_bytes(midi_bytes@, mode) == Ok::<
                Seq<NoteSpec>,
                ExtractError,
            >(notes_view(notes@)),
            Err(e) => extraction_of_bytes(midi_bytes@, mode) == Err::<
                Seq<NoteSpec>,
                ExtractError,
            >(e),
        },
        r matches Ok(notes) ==> forall|k: int|
            0 <= k < notes.len() ==> (#[trigger] notes[k]).pitch <= 127,
{
    match decode(midi_bytes) {
        Ok(parsed) => notes_of(&parsed, mode),
        Err(e) => Err(e),
    }
}

} // verus!
