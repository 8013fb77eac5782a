use midi_mml::{
    convert_by_instrument, convert_by_pitch, convert_midi, convert_notes, crop_voice_to_limit,
    crop_voices, generate_mml_final, ConversionOptions, InstrumentNames, Note,
};

fn note(pitch: u8, start: u32, duration: u32, velocity: u8, instrument: &str) -> Note {
    Note {
        note: pitch,
        start,
        end: start + duration,
        duration,
        velocity,
        instrument: instrument.to_string(),
    }
}

fn scale(count: u32, instrument: &str) -> Vec<Note> {
    (0..count).map(|i| note(60 + (i % 12) as u8, i * 192, 192, 100, instrument)).collect()
}

fn options(mode: &str, char_limit: usize, compress_mode: bool) -> ConversionOptions {
    ConversionOptions { mode: mode.to_string(), char_limit, compress_mode }
}

#[test]
fn a_budget_too_small_for_one_note_leaves_no_voice() {
    let result = convert_notes(scale(8, "Piano"), 120, &options("normal", 5, false));
    assert!(result.success);
    assert!(result.voices.is_empty());
    assert_eq!(result.error, None);
    assert_eq!(result.total_notes, 8);
    assert_eq!(result.bpm, 120);
    assert!(convert_by_pitch(scale(8, "Piano"), 120, 0, true).is_empty());
    assert!(convert_by_instrument(scale(8, "Piano"), 120, 11, true).is_empty());
}

#[test]
fn no_notes_give_no_voices() {
    let result = convert_notes(vec![], 120, &options("normal", 100, false));
    assert!(result.success);
    assert!(result.voices.is_empty());
    assert_eq!(result.total_notes, 0);
}

#[test]
fn a_voice_is_cut_where_the_budget_ends() {
    let voice = scale(20, "Piano");
    // head "T120V15O4L8" has 11 characters; C C+ D D+ E F take 8 more
    let cropped = crop_voice_to_limit(&voice, 120, 19, false);
    assert_eq!(cropped.len(), 6);
    assert_eq!(generate_mml_final(&cropped, 120, 4, false), "T120V15O4L8CC+DD+EF");
    let cropped = crop_voice_to_limit(&voice, 120, 18, false);
    assert_eq!(cropped.len(), 5);
    let cropped = crop_voice_to_limit(&voice, 120, 1000, false);
    assert_eq!(cropped.len(), 20);
    let cropped = crop_voice_to_limit(&voice, 120, 10, false);
    assert!(cropped.is_empty());
    assert!(crop_voice_to_limit(&[], 120, 10, false).is_empty());
}

#[test]
fn every_text_is_within_the_budget_and_all_voices_end_together() {
    let mut notes = Vec::new();
    for i in 0..200u32 {
        notes.push(note(
            36 + (i * 11 % 60) as u8,
            (i / 3) * 96,
            24 * (1 + i * 7 % 23),
            (1 + i * 29 % 126) as u8,
            "Piano",
        ));
    }
    for limit in [0usize, 12, 20, 40, 80, 200, 1000, 100000] {
        for compress in [false, true] {
            let voices = convert_by_pitch(notes.clone(), 140, limit, compress);
            for voice in &voices {
                assert!(voice.char_count <= limit);
                assert_eq!(voice.char_count, voice.content.chars().count());
                assert_eq!(voice.end_tick, voices[0].end_tick);
                assert!(voice.note_count > 0);
            }
        }
    }
}

#[test]
fn voices_end_where_the_first_of_them_ends() {
    let voices = vec![
        vec![note(60, 0, 384, 100, "P"), note(62, 384, 384, 100, "P"), note(64, 768, 384, 100, "P")],
        vec![note(48, 0, 576, 100, "P")],
        vec![],
        vec![note(40, 600, 96, 100, "P")],
    ];
    let out = crop_voices(&voices, 120, 1000, false);
    assert_eq!(out.len(), 2);
    assert_eq!(out[0].index, 0);
    assert_eq!(out[1].index, 1);
    let spans: Vec<_> = out[0].notes.iter().map(|n| (n.start, n.end, n.duration)).collect();
    // the second note is cut short where the other voice ends
    assert_eq!(spans, vec![(0, 384, 384), (384, 576, 192)]);
    assert_eq!(out[0].content, "T120V15O4L8C4D");
    assert_eq!(out[0].char_count, 14);
    assert_eq!(out[1].content, "T120V15O3L4C4.");
    for voice in &out {
        assert_eq!(voice.end_tick, 576);
        assert!(voice.notes.iter().all(|n| n.end <= 576));
    }
}

#[test]
fn the_common_end_moves_back_where_a_shortened_note_needs_more_text() {
    // each voice alone reads in 12 characters: "T120V15O4L4C" and "T120V15O6L4C"
    // cut to 360 ticks the first would read "T120V15O4L8C8.&C32.": 19 characters
    // cut to 336 ticks it reads "T120V15O4L8C8.&C32": 18 characters
    let voices = vec![vec![note(60, 0, 384, 100, "P")], vec![note(84, 0, 360, 100, "P")]];
    assert_eq!(generate_mml_final(&voices[0], 120, 4, false), "T120V15O4L4C");
    assert_eq!(generate_mml_final(&voices[1], 120, 6, false), "T120V15O6L4C");
    let out = crop_voices(&voices, 120, 18, false);
    assert_eq!(out.len(), 2);
    for voice in &out {
        assert!(voice.char_count <= 18);
        assert_eq!(voice.end_tick, 336);
    }
    assert_eq!(out[0].content, "T120V15O4L8C8.&C32");
    assert_eq!(out[0].notes[0].duration, 336);
    assert_eq!(out[1].content, "T120V15O6L4C");
    // with room for 19 characters the voices end where the second one ends
    let out = crop_voices(&voices, 120, 19, false);
    assert_eq!(out[0].end_tick, 360);
    assert_eq!(out[0].content, "T120V15O4L8C8.&C32.");
}

#[test]
fn voices_are_named_by_their_position() {
    let mut notes = scale(4, "Piano");
    notes.extend((0..4).map(|i| note(40, i * 192, 192, 90, "Piano")));
    notes.extend((0..4).map(|i| note(50, i * 192, 192, 80, "Piano")));
    let voices = convert_by_pitch(notes, 120, 1000, false);
    let names: Vec<&str> = voices.iter().map(|v| v.name.as_str()).collect();
    assert_eq!(names, vec!["melody", "harmony-1", "harmony-2"]);
    assert_eq!(voices[0].content, "T120V15O4L8CC+DD+");
    assert_eq!(voices[0].note_count, 4);
    assert_eq!(voices[0].char_count, 17);
    assert_eq!(voices[0].end_tick, 768);
    assert_eq!(voices[1].content, "T120V15O2L8EEEE");
    assert_eq!(voices[2].content, "T120V15O3L8DDDD");
}

#[test]
fn instruments_are_converted_one_by_one_in_dictionary_order() {
    let mut notes = scale(4, "Violin");
    notes.extend((0..4).map(|i| note(40, i * 192, 192, 90, "Bass")));
    notes.extend((0..4).map(|i| note(52, i * 192, 192, 90, "Bass")));
    notes.extend((0..4).map(|i| note(70, i * 192, 192, 90, "Flute")));
    let voices = convert_by_instrument(notes, 120, 1000, false);
    let names: Vec<&str> = voices.iter().map(|v| v.name.as_str()).collect();
    assert_eq!(
        names,
        vec!["melody (Bass-1)", "harmony-1 (Bass-2)", "harmony-2 (Flute)", "harmony-3 (Violin)"]
    );
    assert_eq!(voices[0].content, "T120V15O3L8EEEE");
    assert_eq!(voices[1].content, "T120V15O2L8EEEE");
    assert_eq!(voices[3].content, "T120V15O4L8CC+DD+");
    // names go by their bytes: capitals first, a name before the names it begins
    let notes = vec![
        note(60, 0, 192, 90, "flute"),
        note(60, 0, 192, 90, "Zither"),
        note(60, 0, 192, 90, "Flute 2"),
        note(60, 0, 192, 90, "Flute"),
        note(60, 0, 192, 90, "flute"),
    ];
    let voices = convert_by_instrument(notes, 120, 1000, false);
    let names: Vec<&str> = voices.iter().map(|v| v.name.as_str()).collect();
    assert_eq!(
        names,
        vec!["melody (Flute)", "harmony-1 (Flute 2)", "harmony-2 (Zither)", "harmony-3 (flute)"]
    );
}

#[test]
fn the_mode_decides_how_notes_are_grouped() {
    let mut notes = scale(4, "Violin");
    notes.extend((0..4).map(|i| note(40, i * 192, 192, 90, "Bass")));
    let by_pitch = convert_notes(notes.clone(), 120, &options("normal", 1000, false));
    let names: Vec<&str> = by_pitch.voices.iter().map(|v| v.name.as_str()).collect();
    assert_eq!(names, vec!["melody", "harmony-1"]);
    let other = convert_notes(notes.clone(), 120, &options("Instrument", 1000, false));
    assert_eq!(other.voices.len(), 2);
    assert_eq!(other.voices[0].name, "melody");
    let by_instrument = convert_notes(notes, 120, &options("instrument", 1000, false));
    let names: Vec<&str> = by_instrument.voices.iter().map(|v| v.name.as_str()).collect();
    assert_eq!(names, vec!["melody (Bass)", "harmony-1 (Violin)"]);
}

#[test]
fn a_file_is_converted_from_its_bytes() {
    let mut bytes = b"MThd".to_vec();
    bytes.extend([0, 0, 0, 6, 0, 0, 0, 1, 1, 0x80]);
    let body: Vec<u8> = vec![
        0x00, 0xff, 0x51, 0x03, 0x07, 0xa1, 0x20, // tempo 500000
        0x00, 0x90, 60, 100, 0x00, 0x90, 64, 100, // two notes at tick 0
        0x83, 0x00, 0x80, 60, 0, 0x00, 0x80, 64, 0, // both end at tick 384
        0x00, 0xff, 0x2f, 0x00,
    ];
    bytes.extend(b"MTrk");
    bytes.extend((body.len() as u32).to_be_bytes());
    bytes.extend(body);
    let names = InstrumentNames { names: vec![], fallback: "Any".to_string() };
    let result = convert_midi(&bytes, &options("normal", 500, false), &names);
    assert!(result.success);
    assert_eq!(result.error, None);
    assert_eq!(result.bpm, 120);
    assert_eq!(result.total_notes, 2);
    assert_eq!(result.voices.len(), 2);
    assert_eq!(result.voices[0].name, "melody");
    assert_eq!(result.voices[0].content, "T120V15O4L4E");
    assert_eq!(result.voices[1].name, "harmony-1");
    assert_eq!(result.voices[1].content, "T120V15O4L4C");
    assert_eq!(result.voices[0].end_tick, 384);
}

#[test]
fn a_failure_carries_a_reason_and_no_voices() {
    let names = InstrumentNames { names: vec![], fallback: "Any".to_string() };
    let result = convert_midi(b"RIFFxxxx", &options("normal", 500, false), &names);
    assert!(!result.success);
    assert!(result.voices.is_empty());
    assert_eq!(result.bpm, 0);
    assert_eq!(result.total_notes, 0);
    assert!(result.error.unwrap().starts_with("MIDI parse error: "));
    let mut bytes = b"MThd".to_vec();
    bytes.extend([0, 0, 0, 6, 0, 0, 0, 0, 0xe7, 0x28]);
    let result = convert_midi(&bytes, &options("normal", 500, false), &names);
    assert!(!result.success);
    assert_eq!(result.error, Some("SMPTE timing is not supported".to_string()));
}

#[test]
fn a_long_piece_is_converted_within_its_budget() {
    let mut notes = Vec::new();
    for i in 0..6000u32 {
        let instrument = if i % 3 == 0 { "Lead" } else { "Pad" };
        notes.push(note(40 + (i * 17 % 50) as u8, (i / 4) * 48, 24 * (1 + i % 12), 64, instrument));
    }
    for mode in ["normal", "instrument"] {
        let result = convert_notes(notes.clone(), 150, &options(mode, 2000, false));
        assert!(result.success);
        assert_eq!(result.total_notes, 6000);
        assert!(!result.voices.is_empty());
        for voice in &result.voices {
            assert!(voice.char_count <= 2000);
            assert!(voice.content.starts_with("T150V15O"));
            assert_eq!(voice.end_tick, result.voices[0].end_tick);
        }
    }
}

#[test]
fn a_file_without_notes_succeeds_whatever_its_resolution() {
    let names = InstrumentNames { names: vec![], fallback: "Any".to_string() };
    let mut bytes = b"MThd".to_vec();
    bytes.extend([0, 0, 0, 6, 0, 0, 0, 0, 0, 0]);
    let result = convert_midi(&bytes, &options("normal", 500, false), &names);
    assert!(result.success);
    assert_eq!(result.error, None);
    assert!(result.voices.is_empty());
    assert_eq!(result.total_notes, 0);
    assert_eq!(result.bpm, 120);
    let body: Vec<u8> = vec![0x00, 0x90, 60, 100, 0x10, 0x80, 60, 0, 0x00, 0xff, 0x2f, 0x00];
    bytes.extend(b"MTrk");
    bytes.extend((body.len() as u32).to_be_bytes());
    bytes.extend(body);
    let result = convert_midi(&bytes, &options("normal", 500, false), &names);
    assert!(!result.success);
    assert!(result.voices.is_empty());
    assert_eq!(
        result.error,
        Some("the file holds notes but declares zero ticks per beat".to_string())
    );
}

#[test]
fn a_header_that_cannot_be_read_fails_the_conversion() {
    let names = InstrumentNames { names: vec![], fallback: "Any".to_string() };
    let mut bytes = b"MThd".to_vec();
    bytes.extend([0, 0, 0, 6, 0, 0, 0, 0, 0x80, 0]);
    let result = convert_midi(&bytes, &options("normal", 500, false), &names);
    assert!(!result.success);
    assert!(result.voices.is_empty());
    assert_eq!(result.error, Some("MIDI parse error: invalid time-code frame rate".to_string()));
}
