use midi_notes::{notes_of, scan_track, EventKind, ExtractError, Mode, ParsedMidi, Timing, TrackEvent, VisualizerNote};

fn on(delta: u32, key: u8, vel: u8) -> TrackEvent {
    TrackEvent { delta, kind: EventKind::NoteOn { key, vel } }
}

fn off(delta: u32, key: u8) -> TrackEvent {
    TrackEvent { delta, kind: EventKind::NoteOff { key, vel: 64 } }
}

fn tempo(delta: u32, micros: u32) -> TrackEvent {
    TrackEvent { delta, kind: EventKind::Tempo(micros) }
}

fn other(delta: u32) -> TrackEvent {
    TrackEvent { delta, kind: EventKind::Other }
}

fn file(ppq: u16, tracks: Vec<Vec<TrackEvent>>) -> ParsedMidi {
    ParsedMidi { timing: Timing::Metrical(ppq), tracks }
}

fn note(pitch: u8, start_time: u128, duration: u128, track: usize) -> VisualizerNote {
    VisualizerNote { pitch, start_time, duration, track }
}

fn seconds(units: u128, timing: &Timing) -> f64 {
    units as f64 / timing.units_per_second().unwrap() as f64
}

#[test]
fn one_pair_gives_one_note_in_ticks() {
    let parsed = file(480, vec![vec![on(100, 60, 90), off(380, 60)]]);
    assert_eq!(notes_of(&parsed, Mode::Tick), Ok(vec![note(60, 100, 380, 0)]));
}

#[test]
fn one_pair_gives_one_note_in_time() {
    let parsed = file(480, vec![vec![on(100, 60, 90), off(380, 60)]]);
    assert_eq!(
        notes_of(&parsed, Mode::Time),
        Ok(vec![note(60, 100 * 500_000, 380 * 500_000, 0)])
    );
}

#[test]
fn zero_velocity_note_on_closes_like_note_off() {
    let with_off = file(96, vec![vec![on(5, 72, 1), other(7), off(30, 72), on(0, 72, 80), off(4, 72)]]);
    let with_zero = file(96, vec![vec![on(5, 72, 1), other(7), on(30, 72, 0), on(0, 72, 80), on(4, 72, 0)]]);
    for mode in [Mode::Tick, Mode::Time] {
        let a = notes_of(&with_off, mode).unwrap();
        let b = notes_of(&with_zero, mode).unwrap();
        assert_eq!(a, b);
        assert_eq!(a.len(), 2);
    }
    assert_eq!(
        notes_of(&with_zero, Mode::Tick),
        Ok(vec![note(72, 5, 37, 0), note(72, 42, 4, 0)])
    );
}

#[test]
fn orphan_note_off_is_dropped() {
    let parsed = file(480, vec![vec![off(10, 60), on(10, 61, 0), other(3)]]);
    assert_eq!(notes_of(&parsed, Mode::Tick), Ok(vec![]));
    assert_eq!(notes_of(&parsed, Mode::Time), Ok(vec![]));
}

#[test]
fn orphan_note_off_for_another_pitch_leaves_the_note() {
    let parsed = file(480, vec![vec![on(0, 60, 100), off(10, 61), off(10, 60)]]);
    assert_eq!(notes_of(&parsed, Mode::Tick), Ok(vec![note(60, 0, 20, 0)]));
}

#[test]
fn hanging_note_on_is_dropped() {
    let parsed = file(480, vec![vec![on(0, 60, 100), on(10, 62, 100), off(10, 62), other(50)]]);
    assert_eq!(notes_of(&parsed, Mode::Tick), Ok(vec![note(62, 10, 10, 0)]));
}

#[test]
fn retrigger_overwrites_the_pending_start() {
    let parsed = file(480, vec![vec![on(10, 60, 100), on(20, 60, 100), off(40, 60)]]);
    assert_eq!(notes_of(&parsed, Mode::Tick), Ok(vec![note(60, 30, 40, 0)]));
    assert_eq!(
        notes_of(&parsed, Mode::Time),
        Ok(vec![note(60, 30 * 500_000, 40 * 500_000, 0)])
    );
}

#[test]
fn a_pitch_closed_once_is_silent_until_reopened() {
    let parsed = file(480, vec![vec![on(0, 60, 100), off(10, 60), off(10, 60), on(5, 60, 3), off(1, 60)]]);
    assert_eq!(
        notes_of(&parsed, Mode::Tick),
        Ok(vec![note(60, 0, 10, 0), note(60, 25, 1, 0)])
    );
}

#[test]
fn tracks_do_not_share_pending_notes() {
    let events = vec![on(0, 60, 100), off(480, 60)];
    let parsed = file(480, vec![events.clone(), events]);
    assert_eq!(
        notes_of(&parsed, Mode::Tick),
        Ok(vec![note(60, 0, 480, 0), note(60, 0, 480, 1)])
    );
}

#[test]
fn an_open_pitch_does_not_leak_into_the_next_track() {
    let parsed = file(480, vec![vec![on(7, 60, 100)], vec![off(9, 60)], vec![on(1, 60, 1), off(2, 60)]]);
    assert_eq!(notes_of(&parsed, Mode::Tick), Ok(vec![note(60, 1, 2, 2)]));
}

#[test]
fn each_track_starts_at_zero_with_the_default_tempo() {
    let parsed = file(
        480,
        vec![
            vec![tempo(0, 1_000_000), on(480, 60, 100), off(480, 60)],
            vec![on(480, 60, 100), off(480, 60)],
        ],
    );
    assert_eq!(
        notes_of(&parsed, Mode::Time),
        Ok(vec![
            note(60, 480_000_000, 480_000_000, 0),
            note(60, 240_000_000, 240_000_000, 1),
        ])
    );
}

#[test]
fn quarter_note_at_default_tempo_lasts_half_a_second() {
    let parsed = file(480, vec![vec![on(0, 60, 100), off(480, 60)]]);
    let notes = notes_of(&parsed, Mode::Time).unwrap();
    assert_eq!(notes, vec![note(60, 0, 240_000_000, 0)]);
    let expected = 480.0 * 500_000.0 / 1e6 / 480.0;
    assert_eq!(seconds(notes[0].duration, &parsed.timing), expected);
    assert_eq!(expected, 0.5);
}

#[test]
fn tempo_change_applies_to_later_deltas_only() {
    let parsed = file(480, vec![vec![on(0, 60, 100), tempo(480, 1_000_000), off(480, 60)]]);
    let notes = notes_of(&parsed, Mode::Time).unwrap();
    assert_eq!(notes, vec![note(60, 0, 480 * 500_000 + 480 * 1_000_000, 0)]);
    let expected = 480.0 * 500_000.0 / 1e6 / 480.0 + 480.0 * 1_000_000.0 / 1e6 / 480.0;
    assert_eq!(seconds(notes[0].duration, &parsed.timing), expected);
    assert_eq!(expected, 1.5);
}

#[test]
fn tempo_change_right_after_the_note_on_stretches_the_whole_note() {
    let parsed = file(480, vec![vec![on(0, 60, 100), tempo(0, 1_000_000), off(960, 60)]]);
    let notes = notes_of(&parsed, Mode::Time).unwrap();
    assert_eq!(notes, vec![note(60, 0, 960_000_000, 0)]);
    assert_eq!(seconds(notes[0].duration, &parsed.timing), 2.0);
}

#[test]
fn tempo_events_do_not_matter_in_tick_mode() {
    let parsed = file(480, vec![vec![on(0, 60, 100), tempo(480, 1_000_000), off(480, 60)]]);
    assert_eq!(notes_of(&parsed, Mode::Tick), Ok(vec![note(60, 0, 960, 0)]));
}

#[test]
fn zero_duration_note_is_emitted() {
    let parsed = file(480, vec![vec![on(12, 60, 100), off(0, 60)]]);
    assert_eq!(notes_of(&parsed, Mode::Tick), Ok(vec![note(60, 12, 0, 0)]));
}

#[test]
fn notes_come_out_in_closing_order() {
    let parsed = file(
        480,
        vec![vec![on(0, 60, 100), on(10, 64, 100), on(10, 67, 100), off(10, 64), off(10, 67), off(10, 60)]],
    );
    assert_eq!(
        notes_of(&parsed, Mode::Tick),
        Ok(vec![note(64, 10, 20, 0), note(67, 20, 20, 0), note(60, 0, 50, 0)])
    );
}

#[test]
fn pitches_stay_in_range_and_tracks_are_tagged() {
    let parsed = file(
        24,
        vec![
            vec![on(0, 0, 1), on(1, 127, 127), off(1, 0), off(1, 127)],
            vec![],
            vec![on(3, 5, 9), on(0, 5, 0)],
        ],
    );
    let notes = notes_of(&parsed, Mode::Time).unwrap();
    assert_eq!(notes.len(), 3);
    for n in &notes {
        assert!(n.pitch <= 127);
        assert!(n.track < 3);
    }
    assert_eq!(notes[0], note(0, 0, 1_000_000, 0));
    assert_eq!(notes[1], note(127, 500_000, 1_000_000, 0));
    assert_eq!(notes[2], note(5, 1_500_000, 0, 2));
}

#[test]
fn keys_above_the_midi_range_are_kept_apart() {
    let parsed = file(480, vec![vec![on(0, 200, 1), on(1, 255, 1), off(1, 200), off(1, 255)]]);
    assert_eq!(
        notes_of(&parsed, Mode::Tick),
        Ok(vec![note(200, 0, 2, 0), note(255, 1, 2, 0)])
    );
}

#[test]
fn largest_deltas_and_tempo_do_not_overflow() {
    let max = u32::MAX;
    let parsed = file(1, vec![vec![tempo(0, max), on(max, 1, 1), other(max), off(max, 1)]]);
    let step = max as u128 * max as u128;
    assert_eq!(notes_of(&parsed, Mode::Time), Ok(vec![note(1, step, 2 * step, 0)]));
}

#[test]
fn time_mode_needs_metrical_timing() {
    let parsed = ParsedMidi { timing: Timing::Timecode, tracks: vec![vec![on(0, 60, 1), off(1, 60)]] };
    assert_eq!(notes_of(&parsed, Mode::Time), Err(ExtractError::UnsupportedTiming));
    assert_eq!(notes_of(&parsed, Mode::Tick), Ok(vec![note(60, 0, 1, 0)]));
}

#[test]
fn time_mode_needs_a_positive_resolution() {
    let parsed = file(0, vec![vec![on(0, 60, 1), off(1, 60)]]);
    assert_eq!(notes_of(&parsed, Mode::Time), Err(ExtractError::UnsupportedTiming));
    assert_eq!(notes_of(&parsed, Mode::Tick), Ok(vec![note(60, 0, 1, 0)]));
}

#[test]
fn no_tracks_give_no_notes() {
    assert_eq!(notes_of(&file(480, vec![]), Mode::Time), Ok(vec![]));
}

#[test]
fn scan_track_appends_to_what_is_there() {
    let mut out = vec![note(1, 2, 3, 4)];
    scan_track(&vec![on(1, 60, 1), off(2, 60)], Mode::Tick, 9, &mut out);
    assert_eq!(out, vec![note(1, 2, 3, 4), note(60, 1, 2, 9)]);
}

#[test]
fn units_per_second_is_a_million_per_tick() {
    assert_eq!(Timing::Metrical(480).units_per_second(), Some(480_000_000));
    assert_eq!(Timing::Metrical(32767).units_per_second(), Some(32_767_000_000));
    assert_eq!(Timing::Metrical(0).units_per_second(), None);
    assert_eq!(Timing::Timecode.units_per_second(), None);
}
