use midi_mml::{
    deduplicate, extract_midi_notes, extract_notes, has_timing_trap, EventKind, ExtractError,
    InstrumentNames, MidiEvent, MidiFile, Note,
};

fn names() -> InstrumentNames {
    InstrumentNames {
        names: vec!["Piano".to_string(), "Organ".to_string()],
        fallback: "Other".to_string(),
    }
}

fn varlen(mut value: u32) -> Vec<u8> {
    let mut bytes = vec![(value & 0x7f) as u8];
    value >>= 7;
    while value > 0 {
        bytes.insert(0, (value & 0x7f) as u8 | 0x80);
        value >>= 7;
    }
    bytes
}

fn track(events: &[(u32, Vec<u8>)]) -> Vec<u8> {
    let mut body = Vec::new();
    for (delta, data) in events {
        body.extend(varlen(*delta));
        body.extend(data.iter());
    }
    body.extend([0x00, 0xff, 0x2f, 0x00]);
    let mut chunk = b"MTrk".to_vec();
    chunk.extend((body.len() as u32).to_be_bytes());
    chunk.extend(body);
    chunk
}

fn file(division: u16, tracks: &[Vec<u8>]) -> Vec<u8> {
    let mut bytes = b"MThd".to_vec();
    bytes.extend([0, 0, 0, 6, 0, 1]);
    bytes.extend((tracks.len() as u16).to_be_bytes());
    bytes.extend(division.to_be_bytes());
    for t in tracks {
        bytes.extend(t.iter());
    }
    bytes
}

fn on(channel: u8, key: u8, velocity: u8) -> Vec<u8> {
    vec![0x90 | channel, key, velocity]
}

fn off(channel: u8, key: u8) -> Vec<u8> {
    vec![0x80 | channel, key, 0]
}

fn program(channel: u8, program: u8) -> Vec<u8> {
    vec![0xc0 | channel, program]
}

fn tempo(micros: u32) -> Vec<u8> {
    let b = micros.to_be_bytes();
    vec![0xff, 0x51, 0x03, b[1], b[2], b[3]]
}

fn fields(n: &Note) -> (u8, u32, u32, u32, u8, &str) {
    (n.note, n.start, n.end, n.duration, n.velocity, n.instrument.as_str())
}

#[test]
fn one_note_is_read_from_a_file() {
    let bytes = file(384, &[track(&[(0, tempo(500_000)), (0, on(0, 60, 100)), (384, off(0, 60))])]);
    let (notes, bpm) = extract_midi_notes(&bytes, 24, &names()).unwrap();
    assert_eq!(bpm, 120);
    assert_eq!(notes.len(), 1);
    assert_eq!(fields(&notes[0]), (60, 0, 384, 384, 100, "Piano"));
}

#[test]
fn bytes_that_are_no_midi_file_give_a_parse_error() {
    match extract_midi_notes(b"not a midi file", 24, &names()) {
        Err(ExtractError::Parse(reason)) => assert!(!reason.is_empty()),
        other => panic!("{:?}", other),
    }
    assert!(matches!(extract_midi_notes(&[], 24, &names()), Err(ExtractError::Parse(_))));
}

#[test]
fn time_code_timing_is_refused() {
    // 0xE7 0x28: 25 frames a second, 40 ticks a frame
    let bytes = file(0xe728, &[track(&[(0, on(0, 60, 100)), (384, off(0, 60))])]);
    assert!(matches!(
        extract_midi_notes(&bytes, 24, &names()),
        Err(ExtractError::UnsupportedTiming)
    ));
}

#[test]
fn a_resolution_of_zero_fails_only_where_a_note_needs_it() {
    let bytes = file(0, &[track(&[(0, on(0, 60, 100)), (384, off(0, 60))])]);
    assert!(matches!(
        extract_midi_notes(&bytes, 24, &names()),
        Err(ExtractError::ZeroResolution)
    ));
    // no track at all
    let (notes, bpm) = extract_midi_notes(&file(0, &[]), 24, &names()).unwrap();
    assert!(notes.is_empty());
    assert_eq!(bpm, 120);
    // a tempo, a key that is never released, percussion, and a release without a press
    let bytes = file(
        0,
        &[track(&[
            (0, tempo(600_000)),
            (0, on(0, 60, 100)),
            (10, on(9, 36, 100)),
            (10, off(9, 36)),
            (10, off(3, 70)),
        ])],
    );
    let (notes, bpm) = extract_midi_notes(&bytes, 24, &names()).unwrap();
    assert!(notes.is_empty());
    assert_eq!(bpm, 100);
    let empty = MidiFile { ticks_per_beat: Some(0), tracks: vec![vec![], vec![]] };
    assert!(extract_notes(&empty, &names()).unwrap().0.is_empty());
}

fn riff(smf: &[u8]) -> Vec<u8> {
    let mut inner = b"RMID".to_vec();
    inner.extend(b"LIST");
    inner.extend(3u32.to_le_bytes());
    inner.extend([1, 2, 3, 0]);
    inner.extend(b"data");
    inner.extend((smf.len() as u32).to_le_bytes());
    inner.extend(smf);
    let mut bytes = b"RIFF".to_vec();
    bytes.extend((inner.len() as u32).to_le_bytes());
    bytes.extend(inner);
    bytes
}

fn header(format: u16, division: [u8; 2]) -> Vec<u8> {
    let mut bytes = b"MThd".to_vec();
    bytes.extend([0, 0, 0, 6]);
    bytes.extend(format.to_be_bytes());
    bytes.extend([0, 1]);
    bytes.extend(division);
    bytes
}

#[test]
fn a_header_whose_frame_rate_cannot_be_read_is_a_parse_error() {
    let smallest = [
        b'M', b'T', b'h', b'd', 0, 0, 0, 6, 0, 0, 0, 0, 0x80, 0,
    ];
    assert!(matches!(extract_midi_notes(&smallest, 24, &names()), Err(ExtractError::Parse(_))));
    let one_note = track(&[(0, on(0, 60, 100)), (384, off(0, 60))]);
    for format in 0..3u16 {
        let mut bytes = header(format, [0x80, 0x28]);
        bytes.extend(one_note.iter());
        assert!(matches!(extract_midi_notes(&bytes, 24, &names()), Err(ExtractError::Parse(_))));
        assert!(matches!(
            extract_midi_notes(&riff(&bytes), 24, &names()),
            Err(ExtractError::Parse(_))
        ));
    }
    // a second header behind the track, and one behind a chunk of another kind
    let mut bytes = header(1, [1, 0x80]);
    bytes.extend(one_note.iter());
    bytes.extend(b"XXXX");
    bytes.extend([0, 0, 0, 2, 9, 9]);
    bytes.extend(header(0, [0x80, 0]));
    assert!(matches!(extract_midi_notes(&bytes, 24, &names()), Err(ExtractError::Parse(_))));
    // a long file, which the decoder reads track by track at once
    let mut bytes = header(1, [1, 0x80]);
    let long: Vec<(u32, Vec<u8>)> =
        (0..2000).flat_map(|_| [(10, on(0, 60, 100)), (10, off(0, 60))]).collect();
    bytes.extend(track(&long));
    bytes.extend(track(&long));
    bytes.extend(header(2, [0x80, 0]));
    assert!(matches!(extract_midi_notes(&bytes, 24, &names()), Err(ExtractError::Parse(_))));
}

#[test]
fn other_frame_rates_and_misplaced_headers_are_left_to_the_decoder() {
    let one_note = track(&[(0, on(0, 60, 100)), (384, off(0, 60))]);
    // frame rates that exist give time-code timing
    for rate in [0xe8u8, 0xe7, 0xe3, 0xe2] {
        let mut bytes = header(1, [rate, 40]);
        bytes.extend(one_note.iter());
        assert!(matches!(
            extract_midi_notes(&bytes, 24, &names()),
            Err(ExtractError::UnsupportedTiming)
        ));
    }
    // frame rates that do not exist are the decoder's parse error
    for rate in [0x81u8, 0xff, 0xe9, 0xc0] {
        let mut bytes = header(1, [rate, 40]);
        bytes.extend(one_note.iter());
        assert!(matches!(extract_midi_notes(&bytes, 24, &names()), Err(ExtractError::Parse(_))));
    }
    // an unknown format is rejected before the timing is read
    let mut bytes = header(3, [0x80, 0]);
    bytes.extend(one_note.iter());
    assert!(matches!(extract_midi_notes(&bytes, 24, &names()), Err(ExtractError::Parse(_))));
    // the bytes of such a header inside a track are data, not a header
    let mut text = vec![0xff, 0x01, 14];
    text.extend(header(0, [0x80, 0]));
    let bytes = file(384, &[track(&[(0, text), (0, on(0, 60, 100)), (384, off(0, 60))])]);
    let (notes, _) = extract_midi_notes(&bytes, 24, &names()).unwrap();
    assert_eq!(notes.len(), 1);
    // a header that is too short for a timing word, behind the tracks
    let mut bytes = file(384, &[one_note.clone()]);
    bytes.extend(b"MThd");
    bytes.extend([0, 0, 0, 5, 0, 0, 0, 0, 0x80]);
    assert_eq!(extract_midi_notes(&bytes, 24, &names()).unwrap().0.len(), 1);
    // behind a header that reads with an error the decoder reads no further
    let mut bytes = file(384, &[one_note.clone()]);
    bytes.extend(header(7, [0, 1]));
    bytes.extend(header(0, [0x80, 0]));
    assert_eq!(extract_midi_notes(&bytes, 24, &names()).unwrap().0.len(), 1);
}

#[test]
fn a_file_in_a_riff_wrapper_is_read() {
    let bytes = file(384, &[track(&[(0, on(0, 60, 100)), (384, off(0, 60))])]);
    let (notes, bpm) = extract_midi_notes(&riff(&bytes), 24, &names()).unwrap();
    assert_eq!(bpm, 120);
    assert_eq!(notes.len(), 1);
    assert_eq!(fields(&notes[0]), (60, 0, 384, 384, 100, "Piano"));
    assert!(matches!(
        extract_midi_notes(b"RIFF\x04\x00\x00\x00WAVE", 24, &names()),
        Err(ExtractError::Parse(_))
    ));
}

#[test]
fn a_file_without_notes_is_no_error() {
    let bytes = file(384, &[track(&[])]);
    let (notes, bpm) = extract_midi_notes(&bytes, 24, &names()).unwrap();
    assert!(notes.is_empty());
    assert_eq!(bpm, 120);
}

#[test]
fn the_first_tempo_event_in_file_order_wins() {
    let bytes = file(
        384,
        &[
            track(&[(100, on(0, 60, 100)), (384, off(0, 60))]),
            track(&[(500, tempo(600_000)), (0, tempo(250_000))]),
            track(&[(0, tempo(1_000_000))]),
        ],
    );
    let (_, bpm) = extract_midi_notes(&bytes, 24, &names()).unwrap();
    assert_eq!(bpm, 100);
}

#[test]
fn tempo_is_rounded_to_the_nearest_beat() {
    // 60,000,000 / 454,545 = 132.0001...
    let bytes = file(384, &[track(&[(0, tempo(454_545))])]);
    assert_eq!(extract_midi_notes(&bytes, 24, &names()).unwrap().1, 132);
    // 60,000,000 / 800,000 = 75
    let bytes = file(384, &[track(&[(0, tempo(800_000))])]);
    assert_eq!(extract_midi_notes(&bytes, 24, &names()).unwrap().1, 75);
    // 60,000,000 / 16,000,000 = 3.75
    let bytes = file(384, &[track(&[(0, tempo(16_000_000))])]);
    assert_eq!(extract_midi_notes(&bytes, 24, &names()).unwrap().1, 4);
    let bytes = file(384, &[track(&[(0, tempo(0))])]);
    assert_eq!(extract_midi_notes(&bytes, 24, &names()).unwrap().1, u32::MAX);
}

#[test]
fn ticks_are_brought_to_384_a_beat_and_snapped() {
    let bytes = file(
        480,
        &[track(&[
            (0, on(0, 60, 100)),
            (480, off(0, 60)),
            (100, on(0, 62, 90)),
            (150, off(0, 62)),
        ])],
    );
    let (notes, _) = extract_midi_notes(&bytes, 24, &names()).unwrap();
    assert_eq!(notes.len(), 2);
    assert_eq!(fields(&notes[0]), (60, 0, 384, 384, 100, "Piano"));
    // start 580 -> 464 -> 456; length 150 -> 120; end 584 -> 576
    assert_eq!(fields(&notes[1]), (62, 456, 576, 120, 90, "Piano"));
}

#[test]
fn every_note_lies_on_the_grid() {
    let mut events = Vec::new();
    for i in 0..50u32 {
        events.push((i * 7 % 31, on(0, 40 + (i % 30) as u8, 1 + (i % 100) as u8)));
        events.push((1 + i * 13 % 97, off(0, 40 + (i % 30) as u8)));
    }
    for division in [96u16, 384, 480, 1, 32767] {
        let bytes = file(division, &[track(&events)]);
        let (notes, _) = extract_midi_notes(&bytes, 24, &names()).unwrap();
        assert!(!notes.is_empty() && notes.len() <= 50);
        for n in &notes {
            assert_eq!(n.start % 24, 0);
            assert_eq!(n.end % 24, 0);
            assert!(n.duration >= 24);
            assert_eq!(n.end, n.start + n.duration);
        }
    }
}

#[test]
fn a_short_note_lasts_one_grid_unit() {
    let bytes = file(384, &[track(&[(0, on(0, 60, 100)), (3, off(0, 60))])]);
    let (notes, _) = extract_midi_notes(&bytes, 24, &names()).unwrap();
    assert_eq!(fields(&notes[0]), (60, 0, 24, 24, 100, "Piano"));
    let bytes = file(384, &[track(&[(0, on(0, 60, 100)), (3, off(0, 60))])]);
    let (notes, _) = extract_midi_notes(&bytes, 96, &names()).unwrap();
    assert_eq!(notes[0].duration, 24);
}

#[test]
fn a_note_on_with_velocity_zero_ends_the_note() {
    let bytes = file(384, &[track(&[(0, on(2, 60, 100)), (192, on(2, 60, 0))])]);
    let (notes, _) = extract_midi_notes(&bytes, 24, &names()).unwrap();
    assert_eq!(notes.len(), 1);
    assert_eq!(fields(&notes[0]), (60, 0, 192, 192, 100, "Piano"));
}

#[test]
fn percussion_starts_no_note_and_an_unmatched_end_is_ignored() {
    let bytes = file(
        384,
        &[track(&[
            (0, on(9, 36, 100)),
            (96, off(9, 36)),
            (0, off(0, 70)),
            (0, on(0, 70, 0)),
            (0, on(1, 64, 80)),
            (96, off(1, 64)),
        ])],
    );
    let (notes, _) = extract_midi_notes(&bytes, 24, &names()).unwrap();
    assert_eq!(notes.len(), 1);
    assert_eq!(fields(&notes[0]), (64, 96, 192, 96, 80, "Piano"));
}

#[test]
fn a_second_press_replaces_the_first() {
    let bytes = file(
        384,
        &[track(&[(0, on(0, 60, 100)), (96, on(0, 60, 50)), (96, off(0, 60)), (96, off(0, 60))])],
    );
    let (notes, _) = extract_midi_notes(&bytes, 24, &names()).unwrap();
    assert_eq!(notes.len(), 1);
    assert_eq!(fields(&notes[0]), (60, 96, 192, 96, 50, "Piano"));
}

#[test]
fn the_instrument_is_the_program_of_the_channel_when_the_note_ends() {
    let bytes = file(
        384,
        &[track(&[
            (0, program(3, 7)),
            (0, on(0, 60, 100)),
            (0, on(3, 62, 100)),
            (0, on(5, 64, 100)),
            (96, program(0, 1)),
            (0, program(5, 0)),
            (96, off(0, 60)),
            (0, off(3, 62)),
            (0, off(5, 64)),
        ])],
    );
    let (notes, _) = extract_midi_notes(&bytes, 24, &names()).unwrap();
    assert_eq!(notes.len(), 3);
    assert_eq!(fields(&notes[0]), (64, 0, 192, 192, 100, "Piano"));
    assert_eq!(fields(&notes[1]), (62, 0, 192, 192, 100, "Other"));
    assert_eq!(fields(&notes[2]), (60, 0, 192, 192, 100, "Organ"));
}

#[test]
fn held_notes_and_programs_do_not_cross_tracks() {
    let bytes = file(
        384,
        &[
            track(&[(0, program(0, 1)), (0, on(0, 60, 100))]),
            track(&[(96, off(0, 60)), (0, on(0, 62, 100)), (96, off(0, 62))]),
        ],
    );
    let (notes, _) = extract_midi_notes(&bytes, 24, &names()).unwrap();
    assert_eq!(notes.len(), 1);
    assert_eq!(fields(&notes[0]), (62, 96, 192, 96, 100, "Piano"));
}

#[test]
fn notes_come_by_start_and_falling_pitch_without_duplicates() {
    let bytes = file(
        384,
        &[
            track(&[
                (96, on(0, 60, 40)),
                (0, on(0, 72, 40)),
                (96, off(0, 60)),
                (0, off(0, 72)),
            ]),
            track(&[
                (0, on(1, 50, 70)),
                (96, off(1, 50)),
                (0, on(1, 60, 90)),
                (192, off(1, 60)),
            ]),
            track(&[(96, on(2, 60, 90)), (48, off(2, 60))]),
        ],
    );
    let (notes, _) = extract_midi_notes(&bytes, 24, &names()).unwrap();
    let got: Vec<_> = notes.iter().map(|n| (n.start, n.note, n.velocity, n.duration)).collect();
    // of the three notes of pitch 60 at tick 96 the loudest stays, the last of the two loudest
    assert_eq!(got, vec![(0, 50, 70, 96), (96, 72, 40, 96), (96, 60, 90, 48)]);
}

#[test]
fn removing_duplicates_twice_changes_nothing_more() {
    let note = |pitch: u8, start: u32, velocity: u8| Note {
        note: pitch,
        start,
        end: start + 24,
        duration: 24,
        velocity,
        instrument: String::new(),
    };
    let notes = vec![
        note(60, 0, 10),
        note(60, 0, 30),
        note(60, 0, 20),
        note(62, 0, 5),
        note(60, 0, 1),
        note(60, 24, 9),
        note(60, 24, 9),
    ];
    let once = deduplicate(&notes);
    let got: Vec<_> = once.iter().map(|n| (n.start, n.note, n.velocity)).collect();
    assert_eq!(got, vec![(0, 60, 30), (0, 62, 5), (0, 60, 1), (24, 60, 9)]);
    let twice = deduplicate(&once);
    let again: Vec<_> = twice.iter().map(|n| (n.start, n.note, n.velocity)).collect();
    assert_eq!(again, got);
}

#[test]
fn a_note_beyond_the_tick_range_is_refused() {
    let far = MidiEvent { delta: u32::MAX, kind: EventKind::Other };
    let events = vec![
        far,
        MidiEvent { delta: 0, kind: EventKind::NoteOn { channel: 0, key: 60, velocity: 100 } },
        MidiEvent { delta: 100, kind: EventKind::NoteOff { channel: 0, key: 60 } },
    ];
    let file = MidiFile { ticks_per_beat: Some(384), tracks: vec![events.clone()] };
    assert!(matches!(extract_notes(&file, &names()), Err(ExtractError::TickOverflow)));
    // at a coarser resolution of the file the same ticks fit
    let file = MidiFile { ticks_per_beat: Some(3840), tracks: vec![events] };
    let (notes, _) = extract_notes(&file, &names()).unwrap();
    assert_eq!(notes.len(), 1);
    assert_eq!(notes[0].start, 429496728);
    assert_eq!(notes[0].duration, 24);
}

#[test]
fn events_of_the_library_are_read_like_those_of_a_file() {
    let file = MidiFile {
        ticks_per_beat: Some(192),
        tracks: vec![vec![
            MidiEvent { delta: 0, kind: EventKind::Tempo { micros_per_beat: 400_000 } },
            MidiEvent { delta: 0, kind: EventKind::ProgramChange { channel: 4, program: 1 } },
            MidiEvent { delta: 48, kind: EventKind::NoteOn { channel: 4, key: 200, velocity: 1 } },
            MidiEvent { delta: 0, kind: EventKind::NoteOn { channel: 4, key: 100, velocity: 1 } },
            MidiEvent { delta: 48, kind: EventKind::NoteOff { channel: 4, key: 200 } },
            MidiEvent { delta: 48, kind: EventKind::NoteOff { channel: 4, key: 100 } },
        ]],
    };
    let (notes, bpm) = extract_notes(&file, &names()).unwrap();
    assert_eq!(bpm, 150);
    assert_eq!(notes.len(), 1);
    assert_eq!(fields(&notes[0]), (100, 96, 288, 192, 1, "Organ"));
    let file = MidiFile { ticks_per_beat: None, tracks: vec![] };
    assert!(matches!(extract_notes(&file, &names()), Err(ExtractError::UnsupportedTiming)));
}

#[test]
fn many_tracks_are_merged_by_start() {
    let mut tracks = Vec::new();
    for t in 0..8u8 {
        let mut events = Vec::new();
        for i in 0..1500u32 {
            events.push((24, on(t, 30 + ((i + t as u32 * 5) % 60) as u8, 80)));
            events.push((72, off(t, 30 + ((i + t as u32 * 5) % 60) as u8)));
        }
        tracks.push(track(&events));
    }
    let (notes, _) = extract_midi_notes(&file(384, &tracks), 24, &names()).unwrap();
    assert_eq!(notes.len(), 8 * 1500);
    for pair in notes.windows(2) {
        assert!(
            pair[0].start < pair[1].start
                || (pair[0].start == pair[1].start && pair[0].note > pair[1].note)
        );
    }
}

#[test]
fn unreadable_headers_are_found_where_a_reader_meets_them() {
    assert!(has_timing_trap(&header(0, [0x80, 0])));
    assert!(has_timing_trap(&riff(&header(2, [0x80, 0xff]))));
    assert!(!has_timing_trap(&header(0, [0x7f, 0])));
    assert!(!has_timing_trap(&header(0, [0x81, 0])));
    assert!(!has_timing_trap(&header(3, [0x80, 0])));
    assert!(!has_timing_trap(&[]));
    assert!(!has_timing_trap(b"MThd"));
    assert!(!has_timing_trap(b"RIFF"));
    // a header in front of which a track stands is never read
    let mut bytes = header(0, [1, 0x80]);
    bytes.truncate(0);
    bytes.extend(b"RIFF");
    let mut inner = b"RMID".to_vec();
    let mut smf = track(&[]);
    smf.extend(header(0, [0x80, 0]));
    inner.extend(b"data");
    inner.extend((smf.len() as u32).to_le_bytes());
    inner.extend(smf.iter());
    bytes.extend((inner.len() as u32).to_le_bytes());
    bytes.extend(inner);
    assert!(!has_timing_trap(&bytes));
    assert!(matches!(extract_midi_notes(&bytes, 24, &names()), Err(ExtractError::Parse(_))));
    // a chunk of odd size in a RIFF file is followed by a byte of padding
    let mut inner = b"RMID".to_vec();
    inner.extend(b"note");
    inner.extend(1u32.to_le_bytes());
    inner.extend([7, 0]);
    inner.extend(b"data");
    let smf = header(1, [0x80, 1]);
    inner.extend((smf.len() as u32).to_le_bytes());
    inner.extend(smf.iter());
    let mut bytes = b"RIFF".to_vec();
    bytes.extend((inner.len() as u32).to_le_bytes());
    bytes.extend(inner);
    assert!(has_timing_trap(&bytes));
}
