//! What holds of every track and every file: where notes come from, what
//! they can be, and what does not influence them.

use vstd::prelude::*;
use crate::event::{tracks_in_range, EventKind, Mode, TrackEvent};
use crate::timeline::{
    advance, all_notes, completed_at, emitted, lemma_pending_reached, lemma_position_monotonic,
    pending, position, tempo_before, track_notes, NoteSpec,
};

verus! {

/// Event `j` opens pitch `p`, and no event after it and before event `n`
/// names that pitch.
pub open spec fn sounding_since(events: Seq<TrackEvent>, j: int, n: int, p: u8) -> bool {
    &&& 0 <= j < n
    &&& events[j].opens() == Some(p)
    &&& forall|m: int| j < m < n ==> (#[trigger] events[m]).key() != Some(p)
}

/// A pitch that was opened by event `j` and not named again before event `n`
/// is pending there, with the position of event `j` as its start. Earlier
/// openings of the pitch do not matter: the latest one counts.
pub proof fn lemma_pending_is_latest_opening(
    events: Seq<TrackEvent>,
    j: int,
    n: int,
    mode: Mode,
    p: u8,
)
    requires
        n <= events.len(),
        sounding_since(events, j, n, p),
    ensures
        pending(events, n, mode, p) == Some(position(events, j + 1, mode)),
    decreases n,
{
    if n > j + 1 {
        assert(events[n - 1].key() != Some(p));
        lemma_pending_is_latest_opening(events, j, n - 1, mode, p);
    }
}

/// An opening at event `j` and the next event `k` that names the same pitch,
/// where that one closes it, give exactly the note from the position of `j`
/// to the position of `k`.
pub proof fn lemma_pairing(events: Seq<TrackEvent>, j: int, k: int, mode: Mode, track: int, p: u8)
    requires
        k < events.len(),
        sounding_since(events, j, k, p),
        events[k].closes() == Some(p),
    ensures
        completed_at(events, k, mode, track) == Some(
            NoteSpec {
                pitch: p,
                start: position(events, j + 1, mode),
                duration: position(events, k + 1, mode) - position(events, j + 1, mode),
                track,
            },
        ),
        emitted(events, k + 1, mode, track) == emitted(events, k, mode, track).push(
            completed_at(events, k, mode, track)->0,
        ),
{
    lemma_pending_is_latest_opening(events, j, k, mode, p);
}

/// A track of one opening and one closing of the same pitch has exactly one
/// note: it starts where the opening stands and lasts for the advance of
/// the closing.
pub proof fn lemma_one_pair_one_note(
    opening: TrackEvent,
    closing: TrackEvent,
    mode: Mode,
    track: int,
    p: u8,
)
    requires
        opening.opens() == Some(p),
        closing.closes() == Some(p),
    ensures
        track_notes(seq![opening, closing], mode, track) == seq![
            NoteSpec {
                pitch: p,
                start: advance(seq![opening, closing], 0, mode),
                duration: advance(seq![opening, closing], 1, mode),
                track,
            },
        ],
{
    let events = seq![opening, closing];
    reveal_with_fuel(position, 3);
    reveal_with_fuel(pending, 3);
    reveal_with_fuel(emitted, 3);
    assert(sounding_since(events, 0, 1, p));
    lemma_pairing(events, 0, 1, mode, track, p);
    assert(completed_at(events, 0, mode, track) is None);
    assert(track_notes(events, mode, track) =~= seq![completed_at(events, 1, mode, track)->0]);
}

/// Two openings of a pitch and then its closing give exactly one note: it
/// starts where the second opening stands and lasts for the advance of the
/// closing. What lay between the two openings is lost.
pub proof fn lemma_retrigger_overwrites(
    first: TrackEvent,
    second: TrackEvent,
    closing: TrackEvent,
    mode: Mode,
    track: int,
    p: u8,
)
    requires
        first.opens() == Some(p),
        second.opens() == Some(p),
        closing.closes() == Some(p),
    ensures
        track_notes(seq![first, second, closing], mode, track) == seq![
            NoteSpec {
                pitch: p,
                start: advance(seq![first, second, closing], 0, mode) + advance(
                    seq![first, second, closing],
                    1,
                    mode,
                ),
                duration: advance(seq![first, second, closing], 2, mode),
                track,
            },
        ],
{
    let events = seq![first, second, closing];
    reveal_with_fuel(position, 4);
    reveal_with_fuel(pending, 4);
    reveal_with_fuel(emitted, 4);
    assert(sounding_since(events, 1, 2, p));
    lemma_pairing(events, 1, 2, mode, track, p);
    assert(completed_at(events, 0, mode, track) is None);
    assert(completed_at(events, 1, mode, track) is None);
    assert(track_notes(events, mode, track) =~= seq![completed_at(events, 2, mode, track)->0]);
}

/// A pitch that no event among the first `n` opens is not pending after them.
pub proof fn lemma_unopened_is_silent(events: Seq<TrackEvent>, n: int, mode: Mode, p: u8)
    requires
        0 <= n <= events.len(),
        forall|i: int| 0 <= i < n ==> (#[trigger] events[i]).opens() != Some(p),
    ensures
        pending(events, n, mode, p) is None,
    decreases n,
{
    if n > 0 {
        assert(events[n - 1].opens() != Some(p));
        lemma_unopened_is_silent(events, n - 1, mode, p);
    }
}

/// An event that closes a pitch which nothing before it opened completes no
/// note: the notes are the same after it as before it.
pub proof fn lemma_orphan_close(events: Seq<TrackEvent>, j: int, mode: Mode, track: int, p: u8)
    requires
        0 <= j < events.len(),
        events[j].closes() == Some(p),
        forall|i: int| 0 <= i < j ==> (#[trigger] events[i]).opens() != Some(p),
    ensures
        completed_at(events, j, mode, track) is None,
        emitted(events, j + 1, mode, track) == emitted(events, j, mode, track),
{
    lemma_unopened_is_silent(events, j, mode, p);
}

/// One of the events from `m` up to `n` completes `note`.
pub open spec fn completed_within(
    events: Seq<TrackEvent>,
    m: int,
    n: int,
    mode: Mode,
    track: int,
    note: NoteSpec,
) -> bool {
    exists|j: int| m <= j < n && #[trigger] completed_at(events, j, mode, track) == Some(note)
}

/// The notes of a shorter prefix of a track are the first of the notes of a
/// longer one, and each further note is completed by one of the further
/// events.
pub proof fn lemma_emitted_extends(events: Seq<TrackEvent>, m: int, n: int, mode: Mode, track: int)
    requires
        0 <= m <= n <= events.len(),
    ensures
        emitted(events, m, mode, track).len() <= emitted(events, n, mode, track).len(),
        forall|k: int|
            0 <= k < emitted(events, m, mode, track).len() ==> emitted(events, m, mode, track)[k]
                == #[trigger] emitted(events, n, mode, track)[k],
        forall|k: int|
            emitted(events, m, mode, track).len() <= k < emitted(events, n, mode, track).len()
                ==> completed_within(
                events,
                m,
                n,
                mode,
                track,
                #[trigger] emitted(events, n, mode, track)[k],
            ),
    decreases n,
{
    if m < n {
        lemma_emitted_extends(events, m, n - 1, mode, track);
        let shorter = emitted(events, n - 1, mode, track);
        let longer = emitted(events, n, mode, track);
        assert forall|k: int|
            emitted(events, m, mode, track).len() <= k < longer.len() implies completed_within(
            events,
            m,
            n,
            mode,
            track,
            #[trigger] longer[k],
        ) by {
            if k < shorter.len() {
                assert(completed_within(events, m, n - 1, mode, track, shorter[k]));
                let j = choose|j: int|
                    m <= j < n - 1 && #[trigger] completed_at(events, j, mode, track) == Some(
                        shorter[k],
                    );
                assert(completed_at(events, j, mode, track) == Some(longer[k]));
            } else {
                assert(completed_at(events, n - 1, mode, track) == Some(longer[k]));
            }
        }
    }
}

/// A pending start always belongs to an opening: where a pitch is pending
/// after `n` events, one of them opened it at the pending position and none
/// has named the pitch since.
pub proof fn lemma_pending_has_opening(events: Seq<TrackEvent>, n: int, mode: Mode, p: u8)
    requires
        0 <= n <= events.len(),
        pending(events, n, mode, p) is Some,
    ensures
        exists|j: int| #[trigger]
            sounding_since(events, j, n, p) && pending(events, n, mode, p) == Some(
                position(events, j + 1, mode),
            ),
    decreases n,
{
    if n > 0 {
        if events[n - 1].opens() == Some(p) {
            assert(sounding_since(events, n - 1, n, p));
        } else {
            lemma_pending_has_opening(events, n - 1, mode, p);
            let j = choose|j: int| #[trigger]
                sounding_since(events, j, n - 1, p) && pending(events, n - 1, mode, p) == Some(
                    position(events, j + 1, mode),
                );
            assert(events[n - 1].key() != Some(p));
            assert(sounding_since(events, j, n, p));
        }
    }
}

/// Events `j` and `c` pair up into `note`: `j` opens the pitch, `c` is the
/// next event that names it and closes it, and the note runs from the
/// position of the one to the position of the other.
pub open spec fn paired(
    events: Seq<TrackEvent>,
    j: int,
    c: int,
    mode: Mode,
    track: int,
    note: NoteSpec,
) -> bool {
    &&& c < events.len()
    &&& sounding_since(events, j, c, note.pitch)
    &&& events[c].closes() == Some(note.pitch)
    &&& note.start == position(events, j + 1, mode)
    &&& note.duration == position(events, c + 1, mode) - position(events, j + 1, mode)
    &&& note.track == track
}

/// Every note of a track is a pair of an opening and the closing that
/// follows it: nothing else gives a note.
pub proof fn lemma_note_is_a_pair(events: Seq<TrackEvent>, mode: Mode, track: int, k: int)
    requires
        0 <= k < track_notes(events, mode, track).len(),
    ensures
        exists|j: int, c: int| #[trigger]
            paired(events, j, c, mode, track, track_notes(events, mode, track)[k]),
{
    let n = events.len() as int;
    let note = track_notes(events, mode, track)[k];
    lemma_emitted_extends(events, 0, n, mode, track);
    assert(completed_within(events, 0, n, mode, track, note));
    let c = choose|c: int|
        0 <= c < n && #[trigger] completed_at(events, c, mode, track) == Some(note);
    lemma_pending_has_opening(events, c, mode, note.pitch);
    let j = choose|j: int| #[trigger]
        sounding_since(events, j, c, note.pitch) && pending(events, c, mode, note.pitch) == Some(
            position(events, j + 1, mode),
        );
    assert(paired(events, j, c, mode, track, note));
}

/// After an opening that no later event of the track closes, no note of that
/// pitch is completed: the notes from there to the end of the track have
/// other pitches.
pub proof fn lemma_hanging_open(events: Seq<TrackEvent>, i: int, mode: Mode, track: int, p: u8)
    requires
        0 <= i < events.len(),
        events[i].opens() == Some(p),
        forall|j: int| i < j < events.len() ==> (#[trigger] events[j]).closes() != Some(p),
    ensures
        emitted(events, i + 1, mode, track).len() <= track_notes(events, mode, track).len(),
        forall|k: int|
            emitted(events, i + 1, mode, track).len() <= k < track_notes(events, mode, track).len()
                ==> (#[trigger] track_notes(events, mode, track)[k]).pitch != p,
{
    let n = events.len() as int;
    lemma_emitted_extends(events, i + 1, n, mode, track);
    assert forall|k: int|
        emitted(events, i + 1, mode, track).len() <= k < track_notes(
            events,
            mode,
            track,
        ).len() implies (#[trigger] track_notes(events, mode, track)[k]).pitch != p by {
        assert(completed_within(events, i + 1, n, mode, track, emitted(events, n, mode, track)[k]));
        let j = choose|j: int|
            i + 1 <= j < n && #[trigger] completed_at(events, j, mode, track) == Some(
                emitted(events, n, mode, track)[k],
            );
        assert(events[j].closes() != Some(p));
    }
}

/// Every note of a track was completed by one of its events: it has the
/// pitch that the event closes and the index of the track, it starts at a
/// position that the track had reached, and it lasts from there to the
/// position of the closing event, which is not before its start.
pub proof fn lemma_note_origin(events: Seq<TrackEvent>, mode: Mode, track: int, k: int)
    requires
        0 <= k < track_notes(events, mode, track).len(),
    ensures
        ({
            let note = track_notes(events, mode, track)[k];
            &&& note.track == track
            &&& 0 <= note.start
            &&& 0 <= note.duration
            &&& note.start + note.duration <= position(events, events.len() as int, mode)
            &&& exists|j: int|
                0 <= j < events.len() && (#[trigger] events[j]).closes() == Some(note.pitch)
        }),
{
    let n = events.len() as int;
    let note = track_notes(events, mode, track)[k];
    lemma_emitted_extends(events, 0, n, mode, track);
    assert(completed_within(events, 0, n, mode, track, note));
    let j = choose|j: int|
        0 <= j < n && #[trigger] completed_at(events, j, mode, track) == Some(note);
    lemma_pending_reached(events, j, mode, note.pitch);
    lemma_position_monotonic(events, j, j + 1, mode);
    lemma_position_monotonic(events, j + 1, n, mode);
    assert(events[j].closes() == Some(note.pitch));
}

/// Where the events of a track are in range, so are its notes: no pitch is
/// above 127 and no duration is negative.
pub proof fn lemma_track_notes_in_range(events: Seq<TrackEvent>, mode: Mode, track: int, k: int)
    requires
        forall|i: int| 0 <= i < events.len() ==> (#[trigger] events[i]).in_range(),
        0 <= k < track_notes(events, mode, track).len(),
    ensures
        track_notes(events, mode, track)[k].pitch <= 127,
        track_notes(events, mode, track)[k].duration >= 0,
        track_notes(events, mode, track)[k].start >= 0,
{
    lemma_note_origin(events, mode, track, k);
    let note = track_notes(events, mode, track)[k];
    let j = choose|j: int|
        0 <= j < events.len() && (#[trigger] events[j]).closes() == Some(note.pitch);
    assert(events[j].in_range());
}

/// Every note of a file comes from one of its tracks and carries that
/// track's index; where the events are in range, the pitch is at most 127;
/// and start and duration are never negative.
pub proof fn lemma_all_notes_in_range(tracks: Seq<Seq<TrackEvent>>, n: int, mode: Mode, k: int)
    requires
        0 <= n <= tracks.len(),
        0 <= k < all_notes(tracks, n, mode).len(),
    ensures
        0 <= all_notes(tracks, n, mode)[k].track < n,
        all_notes(tracks, n, mode)[k].duration >= 0,
        all_notes(tracks, n, mode)[k].start >= 0,
        tracks_in_range(tracks) ==> all_notes(tracks, n, mode)[k].pitch <= 127,
    decreases n,
{
    if n > 0 {
        let before = all_notes(tracks, n - 1, mode);
        if k < before.len() {
            lemma_all_notes_in_range(tracks, n - 1, mode, k);
        } else {
            let events = tracks[n - 1];
            lemma_note_origin(events, mode, n - 1, k - before.len());
            if tracks_in_range(tracks) {
                assert forall|i: int| 0 <= i < events.len() implies (#[trigger] events[i]).in_range() by {
                    assert(tracks[n - 1][i].in_range());
                }
                lemma_track_notes_in_range(events, mode, n - 1, k - before.len());
            }
        }
    }
}

/// Two events are alike where they differ at most in how they close a pitch:
/// by a note-off of any velocity, or by a note-on of velocity zero.
pub open spec fn alike(a: TrackEvent, b: TrackEvent) -> bool {
    &&& a.delta == b.delta
    &&& a.opens() == b.opens()
    &&& a.closes() == b.closes()
    &&& a.sets_tempo() == b.sets_tempo()
}

/// A note-on of velocity zero and a note-off of the same pitch, at the same
/// delta, are alike, whatever the velocity of the note-off.
pub proof fn lemma_zero_velocity_is_note_off(delta: u32, key: u8, vel: u8)
    ensures
        alike(
            TrackEvent { delta, kind: EventKind::NoteOn { key, vel: 0 } },
            TrackEvent { delta, kind: EventKind::NoteOff { key, vel } },
        ),
{
}

/// Tracks whose events are alike one by one agree, after any number of
/// events, on tempo, position, pending starts and completed notes.
pub proof fn lemma_alike_prefixes(
    a: Seq<TrackEvent>,
    b: Seq<TrackEvent>,
    n: int,
    mode: Mode,
    track: int,
)
    requires
        0 <= n <= a.len(),
        n <= b.len(),
        forall|i: int| 0 <= i < n ==> alike(#[trigger] a[i], b[i]),
    ensures
        tempo_before(a, n) == tempo_before(b, n),
        position(a, n, mode) == position(b, n, mode),
        forall|p: u8| #[trigger] pending(a, n, mode, p) == pending(b, n, mode, p),
        emitted(a, n, mode, track) == emitted(b, n, mode, track),
    decreases n,
{
    if n > 0 {
        lemma_alike_prefixes(a, b, n - 1, mode, track);
        assert(alike(a[n - 1], b[n - 1]));
        assert forall|p: u8| #[trigger] pending(a, n, mode, p) == pending(b, n, mode, p) by {
            assert(pending(a, n - 1, mode, p) == pending(b, n - 1, mode, p));
        }
        match a[n - 1].closes() {
            Some(p) => {
                assert(pending(a, n - 1, mode, p) == pending(b, n - 1, mode, p));
            },
            None => {},
        }
    }
}

/// Closing by a note-on of velocity zero and closing by a note-off give the
/// same notes: tracks that are alike event by event have the same notes.
pub proof fn lemma_alike_tracks_same_notes(
    a: Seq<TrackEvent>,
    b: Seq<TrackEvent>,
    mode: Mode,
    track: int,
)
    requires
        a.len() == b.len(),
        forall|i: int| 0 <= i < a.len() ==> alike(#[trigger] a[i], b[i]),
    ensures
        track_notes(a, mode, track) == track_notes(b, mode, track),
{
    lemma_alike_prefixes(a, b, a.len() as int, mode, track);
}

/// The notes of a track on another index are the same notes with the other
/// index: the index is a tag and nothing else.
pub proof fn lemma_track_index_is_a_tag(
    events: Seq<TrackEvent>,
    n: int,
    mode: Mode,
    t: int,
    u: int,
)
    requires
        0 <= n <= events.len(),
    ensures
        emitted(events, n, mode, u) == emitted(events, n, mode, t).map_values(
            |note: NoteSpec| NoteSpec { track: u, ..note },
        ),
    decreases n,
{
    let retag = |note: NoteSpec| NoteSpec { track: u, ..note };
    if n > 0 {
        lemma_track_index_is_a_tag(events, n - 1, mode, t, u);
        assert(emitted(events, n, mode, u) =~= emitted(events, n, mode, t).map_values(retag));
    } else {
        assert(emitted(events, n, mode, u) =~= emitted(events, n, mode, t).map_values(retag));
    }
}

/// The notes with the tag `t`, among those that are all tagged `u`.
proof fn lemma_filter_by_tag(notes: Seq<NoteSpec>, u: int, t: int)
    requires
        forall|k: int| 0 <= k < notes.len() ==> (#[trigger] notes[k]).track == u,
    ensures
        notes.filter(|note: NoteSpec| note.track == t) == if u == t {
            notes
        } else {
            Seq::<NoteSpec>::empty()
        },
    decreases notes.len(),
{
    reveal(Seq::filter);
    let wanted = |note: NoteSpec| note.track == t;
    if notes.len() > 0 {
        lemma_filter_by_tag(notes.drop_last(), u, t);
        assert(notes.last().track == u);
        if u == t {
            assert(notes.drop_last().push(notes.last()) =~= notes);
        }
    } else {
        assert(notes.filter(wanted) =~= Seq::<NoteSpec>::empty());
    }
}

/// Of the notes of the first `n` tracks, those tagged `t` are the notes of
/// track `t` alone, in their order; no other track adds to them or changes
/// them.
pub proof fn lemma_track_isolation(tracks: Seq<Seq<TrackEvent>>, n: int, mode: Mode, t: int)
    requires
        0 <= n <= tracks.len(),
        0 <= t,
    ensures
        all_notes(tracks, n, mode).filter(|note: NoteSpec| note.track == t) == if t < n {
            track_notes(tracks[t], mode, t)
        } else {
            Seq::<NoteSpec>::empty()
        },
    decreases n,
{
    let wanted = |note: NoteSpec| note.track == t;
    if n > 0 {
        lemma_track_isolation(tracks, n - 1, mode, t);
        let before = all_notes(tracks, n - 1, mode);
        let last = track_notes(tracks[n - 1], mode, n - 1);
        assert forall|k: int| 0 <= k < last.len() implies (#[trigger] last[k]).track == n - 1 by {
            lemma_note_origin(tracks[n - 1], mode, n - 1, k);
        }
        lemma_filter_by_tag(last, n - 1, t);
        Seq::filter_distributes_over_add(before, last, wanted);
        assert(before.filter(wanted) + last.filter(wanted) =~= if t < n {
            track_notes(tracks[t], mode, t)
        } else {
            Seq::<NoteSpec>::empty()
        });
    } else {
        lemma_filter_by_tag(all_notes(tracks, n, mode), 0, t + 1);
        reveal(Seq::filter);
        assert(all_notes(tracks, n, mode).filter(wanted) =~= Seq::<NoteSpec>::empty());
    }
}

} // verus!
