use midi_mml::{allocate_voices_smart, Note};

fn note(pitch: u8, start: u32, duration: u32, velocity: u8) -> Note {
    Note {
        note: pitch,
        start,
        end: start + duration,
        duration,
        velocity,
        instrument: "Piano".to_string(),
    }
}

fn pitches(voice: &[Note]) -> Vec<u8> {
    voice.iter().map(|n| n.note).collect()
}

#[test]
fn allocation_always_gives_six_voices() {
    assert_eq!(allocate_voices_smart(vec![]).len(), 6);
    assert!(allocate_voices_smart(vec![]).iter().all(|v| v.is_empty()));
    assert_eq!(allocate_voices_smart(vec![note(60, 0, 24, 1)]).len(), 6);
    let many: Vec<Note> = (0..40).map(|i| note(40 + i, 0, 384, 100)).collect();
    assert_eq!(allocate_voices_smart(many).len(), 6);
}

#[test]
fn voices_never_overlap_with_themselves() {
    let mut notes = Vec::new();
    for i in 0..60u32 {
        notes.push(note(40 + (i * 7 % 40) as u8, (i * 5 % 17) * 24, 24 * (1 + i % 9), (i * 13 % 127) as u8));
    }
    let voices = allocate_voices_smart(notes);
    assert_eq!(voices.len(), 6);
    for voice in &voices {
        for pair in voice.windows(2) {
            assert!(pair[0].end <= pair[1].start);
            assert!(pair[0].start <= pair[1].start);
        }
    }
}

#[test]
fn the_seventh_simultaneous_note_is_dropped() {
    let notes: Vec<Note> = (0..7).map(|i| note(60 + i, 0, 384, 100 - i)).collect();
    let voices = allocate_voices_smart(notes);
    let placed: usize = voices.iter().map(|v| v.len()).sum();
    assert_eq!(placed, 6);
    // melody 66, bass 60, then the rest from loud to soft: 61, 62, 63, 64; 65 is dropped
    assert_eq!(pitches(&voices[0]), vec![66]);
    assert_eq!(pitches(&voices[1]), vec![60]);
    assert_eq!(pitches(&voices[2]), vec![61]);
    assert_eq!(pitches(&voices[3]), vec![62]);
    assert_eq!(pitches(&voices[4]), vec![63]);
    assert_eq!(pitches(&voices[5]), vec![64]);
}

#[test]
fn the_melody_stays_within_an_octave_where_it_can() {
    let notes = vec![
        note(60, 0, 384, 100),
        // 84 is out of reach of 60, 70 is the highest within reach
        note(84, 384, 384, 100),
        note(70, 384, 384, 100),
        note(50, 384, 384, 100),
    ];
    let voices = allocate_voices_smart(notes);
    assert_eq!(pitches(&voices[0]), vec![60, 70]);
    assert_eq!(pitches(&voices[1]), vec![50]);
    assert_eq!(pitches(&voices[2]), vec![84]);
}

#[test]
fn the_melody_jumps_to_the_top_where_nothing_is_within_reach() {
    let notes = vec![
        note(30, 0, 384, 100),
        note(90, 384, 384, 100),
        note(80, 384, 384, 100),
    ];
    let voices = allocate_voices_smart(notes);
    assert_eq!(pitches(&voices[0]), vec![30, 90]);
    assert_eq!(pitches(&voices[1]), vec![80]);
}

#[test]
fn notes_are_taken_by_start_whatever_their_order() {
    let notes = vec![note(64, 768, 384, 100), note(62, 384, 384, 100), note(60, 0, 384, 100)];
    let voices = allocate_voices_smart(notes);
    assert_eq!(pitches(&voices[0]), vec![60, 62, 64]);
    assert!(voices[1].is_empty());
}

#[test]
fn a_sounding_voice_sends_the_note_to_the_next() {
    let notes = vec![note(60, 0, 768, 100), note(62, 384, 384, 100), note(64, 768, 384, 100)];
    let voices = allocate_voices_smart(notes);
    assert_eq!(pitches(&voices[0]), vec![60, 64]);
    assert_eq!(pitches(&voices[1]), vec![62]);
}

#[test]
fn only_a_note_in_the_first_voice_moves_the_melody() {
    let notes = vec![
        note(60, 0, 768, 100),
        // goes to the second voice: the melody pitch stays 60
        note(90, 384, 384, 100),
        note(95, 768, 384, 100),
        note(65, 768, 384, 100),
    ];
    let voices = allocate_voices_smart(notes);
    assert_eq!(pitches(&voices[0]), vec![60, 65]);
    assert_eq!(pitches(&voices[1]), vec![90, 95]);
}

#[test]
fn notes_of_the_melody_pitch_and_the_bass_pitch_are_placed_once() {
    let notes = vec![
        note(72, 0, 384, 10),
        note(72, 0, 384, 20),
        note(48, 0, 384, 30),
        note(48, 0, 384, 40),
        note(60, 0, 384, 50),
    ];
    let voices = allocate_voices_smart(notes);
    assert_eq!(pitches(&voices[0]), vec![72]);
    assert_eq!(voices[0][0].velocity, 10);
    assert_eq!(pitches(&voices[1]), vec![48]);
    assert_eq!(voices[1][0].velocity, 40);
    assert_eq!(pitches(&voices[2]), vec![60]);
    assert!(voices[3].is_empty());
}
