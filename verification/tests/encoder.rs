use midi_mml::{
    allocate_voices_smart, find_best_length, find_exact_match, find_safe_approximation,
    find_tie_combination, generate_mml_final, get_exact_lengths, midi_to_note_name, snap_to_grid,
    Length, Note,
};

fn note(pitch: u8, start: u32, duration: u32, velocity: u8) -> Note {
    Note {
        note: pitch,
        start,
        end: start + duration,
        duration,
        velocity,
        instrument: "Piano".to_string(),
    }
}

fn ticks_of(chain: &[Length]) -> Vec<u32> {
    chain.iter().map(|l| l.ticks()).collect()
}

#[test]
fn two_simultaneous_notes_become_melody_and_bass() {
    let voices = allocate_voices_smart(vec![note(60, 0, 384, 100), note(64, 0, 384, 100)]);
    assert_eq!(voices.len(), 6);
    assert_eq!(voices[0].len(), 1);
    assert_eq!(voices[0][0].note, 64);
    assert_eq!(voices[1].len(), 1);
    assert_eq!(voices[1][0].note, 60);
    for v in 2..6 {
        assert!(voices[v].is_empty());
    }
    let melody = generate_mml_final(&voices[0], 120, 4, false);
    assert_eq!(melody, "T120V15O4L4E");
    assert!(melody.starts_with("T120"));
    let bass = generate_mml_final(&voices[1], 120, 4, false);
    assert_eq!(bass, "T120V15O4L4C");
}

#[test]
fn low_octave_duration_is_spelled_greedily_and_to_the_tick() {
    let chain = find_best_length(600, 3, false);
    assert_eq!(ticks_of(&chain), vec![576, 24]);
    assert_eq!(ticks_of(&chain).iter().sum::<u32>(), 600);
    let text = generate_mml_final(&[note(48, 0, 600, 90)], 120, 3, false);
    assert_eq!(text, "T120V15O3L4C4.&C64");
}

#[test]
fn plain_lengths_spell_600_as_quarter_eighth_and_sixty_fourth() {
    let chain = find_tie_combination(600, None, true);
    assert_eq!(ticks_of(&chain), vec![384, 192, 24]);
    assert_eq!(
        chain,
        vec![
            Length { denominator: 4, dotted: false },
            Length { denominator: 8, dotted: false },
            Length { denominator: 64, dotted: false },
        ]
    );
}

#[test]
fn high_octave_duration_is_one_nearest_length() {
    assert_eq!(ticks_of(&find_best_length(600, 6, false)), vec![576]);
    assert_eq!(ticks_of(&find_best_length(600, 6, true)), vec![768]);
    assert_eq!(ticks_of(&find_best_length(600, 9, false)), vec![576]);
}

#[test]
fn octave_five_ties_two_lengths_at_most() {
    assert_eq!(ticks_of(&find_best_length(600, 5, false)), vec![576, 24]);
    // 648 = 576 + 72: two lengths, kept
    assert_eq!(ticks_of(&find_best_length(648, 5, false)), vec![576, 72]);
    // 696 = 576 + 96 + 24: three lengths, replaced by the nearest single one
    assert_eq!(ticks_of(&find_best_length(696, 5, false)), vec![768]);
    assert_eq!(ticks_of(&find_best_length(696, 4, false)), vec![576, 96, 24]);
}

#[test]
fn compact_mode_never_ties() {
    assert_eq!(ticks_of(&find_best_length(600, 3, true)), vec![768]);
    assert_eq!(ticks_of(&find_best_length(72, 3, true)), vec![96]);
    assert_eq!(ticks_of(&find_best_length(384, 3, true)), vec![384]);
}

#[test]
fn equally_near_lengths_give_the_longer() {
    // 120 lies 24 ticks from 96 and from 144
    assert_eq!(ticks_of(&find_safe_approximation(120, false)), vec![144]);
    // 72 lies 24 ticks from 48 and from 96
    assert_eq!(ticks_of(&find_safe_approximation(72, true)), vec![96]);
    assert_eq!(ticks_of(&find_safe_approximation(0, true)), vec![24]);
    assert_eq!(ticks_of(&find_safe_approximation(u32::MAX, false)), vec![2304]);
}

#[test]
fn a_duration_below_the_shortest_length_becomes_a_sixteenth() {
    assert_eq!(
        find_tie_combination(12, None, false),
        vec![Length { denominator: 16, dotted: false }]
    );
    assert_eq!(ticks_of(&find_best_length(0, 3, false)), vec![96]);
    assert_eq!(ticks_of(&find_best_length(12, 5, false)), vec![96]);
    assert_eq!(ticks_of(&find_best_length(12, 6, false)), vec![24]);
    assert_eq!(ticks_of(&find_tie_combination(600, Some(0), false)), vec![96]);
}

#[test]
fn tie_limit_cuts_the_chain() {
    assert_eq!(ticks_of(&find_tie_combination(696, Some(2), false)), vec![576, 96]);
    assert_eq!(ticks_of(&find_tie_combination(696, Some(3), false)), vec![576, 96, 24]);
    assert_eq!(ticks_of(&find_tie_combination(696, Some(9), false)), vec![576, 96, 24]);
    assert_eq!(ticks_of(&find_tie_combination(5000, None, false)), vec![2304, 2304, 384]);
}

#[test]
fn exact_lengths_are_found() {
    assert_eq!(
        find_exact_match(576, false),
        Some(vec![Length { denominator: 4, dotted: true }])
    );
    assert_eq!(find_exact_match(576, true), None);
    assert_eq!(
        find_exact_match(24, true),
        Some(vec![Length { denominator: 64, dotted: false }])
    );
    assert_eq!(find_exact_match(25, false), None);
}

#[test]
fn tables_run_from_long_to_short() {
    assert_eq!(
        ticks_of(&get_exact_lengths(true)),
        vec![1536, 768, 384, 192, 96, 48, 24]
    );
    assert_eq!(
        ticks_of(&get_exact_lengths(false)),
        vec![2304, 1536, 1152, 768, 576, 384, 288, 192, 144, 96, 72, 48, 36, 24]
    );
}

#[test]
fn greedy_spelling_of_grid_durations_is_exact() {
    let mut ticks = 24u32;
    while ticks <= 24 * 400 {
        let chain = find_best_length(ticks, 3, false);
        assert_eq!(ticks_of(&chain).iter().sum::<u32>(), ticks);
        assert!(chain.windows(2).all(|pair| pair[0].ticks() >= pair[1].ticks()));
        assert!(chain.iter().all(|l| get_exact_lengths(false).contains(l)));
        ticks += 24;
    }
}

#[test]
fn note_names_and_octaves() {
    assert_eq!(midi_to_note_name(60), ("C".to_string(), 4));
    assert_eq!(midi_to_note_name(61), ("C+".to_string(), 4));
    assert_eq!(midi_to_note_name(71), ("B".to_string(), 4));
    assert_eq!(midi_to_note_name(0), ("C".to_string(), -1));
    assert_eq!(midi_to_note_name(127), ("G".to_string(), 9));
    assert_eq!(midi_to_note_name(255), ("D+".to_string(), 20));
}

#[test]
fn snapping_goes_to_the_nearest_grid_line() {
    assert_eq!(snap_to_grid(0), 0);
    assert_eq!(snap_to_grid(11), 0);
    assert_eq!(snap_to_grid(12), 24);
    assert_eq!(snap_to_grid(35), 24);
    assert_eq!(snap_to_grid(36), 48);
    assert_eq!(snap_to_grid(384), 384);
    assert_eq!(snap_to_grid(u32::MAX), 4294967280);
}

#[test]
fn an_empty_voice_has_no_text() {
    assert_eq!(generate_mml_final(&[], 120, 4, false), "");
}

#[test]
fn rests_octave_changes_and_default_lengths() {
    let voice = vec![note(60, 0, 384, 100), note(72, 768, 192, 100)];
    assert_eq!(generate_mml_final(&voice, 120, 4, false), "T120V15O4L8C4R4O5C");
    let voice = vec![note(61, 600, 96, 100)];
    assert_eq!(generate_mml_final(&voice, 90, 2, false), "T90V15O2L16R4.&R64O4C+");
    assert_eq!(generate_mml_final(&voice, 90, 2, true), "T90V15O2L16R2O4C+");
}

#[test]
fn the_most_frequent_length_is_the_default_where_no_common_one_occurs() {
    let voice = vec![note(60, 0, 768, 100), note(62, 768, 768, 100), note(64, 1536, 1536, 100)];
    assert_eq!(generate_mml_final(&voice, 120, 4, false), "T120V15O4L2CDE1");
    let voice = vec![note(60, 0, 768, 100), note(64, 768, 1536, 100)];
    assert_eq!(generate_mml_final(&voice, 120, 4, false), "T120V15O4L1C2E");
}

#[test]
fn a_negative_start_octave_is_written_with_its_sign() {
    let voice = vec![note(0, 0, 192, 100)];
    assert_eq!(generate_mml_final(&voice, 120, -1, false), "T120V15O-1L8C");
    assert_eq!(generate_mml_final(&voice, 120, 4, false), "T120V15O4L8O-1C");
}

#[test]
fn a_note_that_starts_before_the_cursor_follows_without_a_rest() {
    let voice = vec![note(60, 0, 384, 100), note(62, 192, 384, 100)];
    assert_eq!(generate_mml_final(&voice, 120, 4, false), "T120V15O4L4CD");
}
