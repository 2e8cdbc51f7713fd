//! Decoding of a MIDI container with `midly`, and the reading of what it
//! decoded into the library's own events.

use vstd::prelude::*;
use crate::chunks::{frame_rate_overflows, has_overflowing_header};
use crate::event::{tracks_in_range, EventKind, ExtractError, ParsedMidi, Timing, TrackEvent};

verus! {

/// `midly::Smf`: a decoded Standard MIDI File. Opaque here.
#[verifier::external_type_specification]
#[verifier::external_body]
pub struct ExSmf<'a>(midly::Smf<'a>);

/// `midly::Error`: why a container could not be decoded. Opaque here.
#[verifier::external_type_specification]
#[verifier::external_body]
pub struct ExDecodeError(midly::Error);

/// The timing in the header of a decoded file.
pub uninterp spec fn container_timing(smf: midly::Smf<'_>) -> Timing;

/// The tracks of a decoded file, each event reduced to what note extraction
/// reads: its delta and, of its payload, a note-on, a note-off, a tempo, or
/// nothing further.
pub uninterp spec fn container_tracks(smf: midly::Smf<'_>) -> Seq<Seq<TrackEvent>>;

/// What `midly` decodes from a sequence of bytes: the timing and the tracks,
/// or nothing where it reports an error.
pub uninterp spec fn decoding(bytes: Seq<u8>) -> Option<(Timing, Seq<Seq<TrackEvent>>)>;

/// `midly::Smf::parse`. The result is a function of the bytes alone, so it
/// has a name: on success the decoded timing and tracks are those of
/// `decoding`, and an error comes exactly where `decoding` has nothing. Left
/// out are bytes in which the decoder comes to a header chunk with the frame
/// rate byte `0x80`: there it negates -128.
#[verifier::external_body]
fn parse_container(bytes: &[u8]) -> (r: Result<midly::Smf<'_>, midly::Error>)
    requires
        !frame_rate_overflows(bytes@),
    ensures
        match r {
            Ok(smf) => decoding(bytes@) == Some((container_timing(smf), container_tracks(smf))),
            Err(_) => decoding(bytes@) is None,
        },
{
    midly::Smf::parse(bytes)
}

/// Reads the field `header.timing` of a `midly::Smf`: ticks per quarter
/// note, taken out of the 15-bit integer by `u15::as_int`, or timecode.
#[verifier::external_body]
fn timing_of(smf: &midly::Smf<'_>) -> (r: Timing)
    ensures
        r == container_timing(*smf),
{
    match smf.header.timing {
        midly::Timing::Metrical(ppq) => Timing::Metrical(ppq.as_int()),
        midly::Timing::Timecode(..) => Timing::Timecode,
    }
}

/// The length of the field `tracks` of a `midly::Smf`.
#[verifier::external_body]
fn track_count(smf: &midly::Smf<'_>) -> (r: usize)
    ensures
        r == container_tracks(*smf).len(),
{
    smf.tracks.len()
}

/// The number of events in track `t` of a `midly::Smf`.
#[verifier::external_body]
fn track_len(smf: &midly::Smf<'_>, t: usize) -> (r: usize)
    requires
        t < container_tracks(*smf).len(),
    ensures
        r == container_tracks(*smf)[t as int].len(),
{
    smf.tracks[t].len()
}

/// Event `i` of track `t` of a `midly::Smf`, as one of the library's own:
/// the delta from `u28::as_int`, the tempo from `u24::as_int`, key and
/// velocity from `u7::as_int`. Those integers are masked to their width when
/// they are made, so the event is in range.
#[verifier::external_body]
fn event_at(smf: &midly::Smf<'_>, t: usize, i: usize) -> (r: TrackEvent)
    requires
        t < container_tracks(*smf).len(),
        i < container_tracks(*smf)[t as int].len(),
    ensures
        r == container_tracks(*smf)[t as int][i as int],
        r.in_range(),
{
    let event = &smf.tracks[t][i];
    let kind = match event.kind {
        midly::TrackEventKind::Meta(midly::MetaMessage::Tempo(t)) => EventKind::Tempo(t.as_int()),
        midly::TrackEventKind::Midi { message: midly::MidiMessage::NoteOn { key, vel }, .. } =>
            EventKind::NoteOn { key: key.as_int(), vel: vel.as_int() },
        midly::TrackEventKind::Midi { message: midly::MidiMessage::NoteOff { key, vel }, .. } =>
            EventKind::NoteOff { key: key.as_int(), vel: vel.as_int() },
        _ => EventKind::Other,
    };
    TrackEvent { delta: event.delta.as_int(), kind }
}

/// Reads one track of a decoded file.
fn read_track(smf: &midly::Smf<'_>, t: usize) -> (events: Vec<TrackEvent>)
    requires
        t < container_tracks(*smf).len(),
    ensures
        events@ == container_tracks(*smf)[t as int],
        forall|i: int| 0 <= i < events.len() ==> (#[trigger] events[i]).in_range(),
{
    let n = track_len(smf, t);
    let mut events: Vec<TrackEvent> = Vec::new();
    let mut i: usize = 0;
    while i < n
        invariant
            t < container_tracks(*smf).len(),
            n == container_tracks(*smf)[t as int].len(),
            i <= n,
            events.len() == i,
            forall|j: int| 0 <= j < i ==> events[j] == container_tracks(*smf)[t as int][j],
            forall|j: int| 0 <= j < i ==> (#[trigger] events[j]).in_range(),
        decreases n - i,
    {
        events.push(event_at(smf, t, i));
        i += 1;
    }
    assert(events@ =~= container_tracks(*smf)[t as int]);
    events
}

/// Reads the timing and all tracks of a decoded file.
fn read_container(smf: &midly::Smf<'_>) -> (parsed: ParsedMidi)
    ensures
        parsed.timing == container_timing(*smf),
        parsed.spec_tracks() == container_tracks(*smf),
        tracks_in_range(parsed.spec_tracks()),
{
    let timing = timing_of(smf);
    let count = track_count(smf);
    let mut tracks: Vec<Vec<TrackEvent>> = Vec::new();
    let mut t: usize = 0;
    while t < count
        invariant
            count == container_tracks(*smf).len(),
            t <= count,
            tracks.len() == t,
            forall|j: int| 0 <= j < t ==> (#[trigger] tracks[j])@ == container_tracks(*smf)[j],
            forall|j: int, i: int|
                0 <= j < t && 0 <= i < tracks[j].len() ==> (#[trigger] tracks[j][i]).in_range(),
        decreases count - t,
    {
        tracks.push(read_track(smf, t));
        t += 1;
    }
    let parsed = ParsedMidi { timing, tracks };
    assert(parsed.spec_tracks() =~= container_tracks(*smf));
    parsed
}

/// What decoding returns for a sequence of bytes: the timing and tracks that
/// `midly` finds in them; nothing where it reports an error, or where it
/// would come to a header chunk with the frame rate -128.
pub open spec fn decoded(bytes: Seq<u8>) -> Option<(Timing, Seq<Seq<TrackEvent>>)> {
    if frame_rate_overflows(bytes) {
        None
    } else {
        decoding(bytes)
    }
}

/// Decodes a MIDI container.
pub fn decode(bytes: &[u8]) -> (r: Result<ParsedMidi, ExtractError>)
    ensures
        match r {
            Ok(parsed) => decoded(bytes@) == Some((parsed.timing, parsed.spec_tracks()))
                && tracks_in_range(parsed.spec_tracks()),
            Err(e) => decoded(bytes@) is None && e == ExtractError::DecodeFailure,
        },
{
    if has_overflowing_header(bytes) {
        return Err(ExtractError::DecodeFailure);
    }
    match parse_container(bytes) {
        Ok(smf) => Ok(read_container(&smf)),
        Err(_) => Err(ExtractError::DecodeFailure),
    }
}

} // verus!
