//! Conversion of recorded MIDI performances into compact music-notation text
//! for sound-chip players, with every stage specified and verified.
//!
//! The stages, in the order in which a conversion runs them: `container`
//! looks at the chunks of the file, `decode` reads it, `extract` finds the
//! notes, `voices` distributes them over six monophonic voices, `crop` fits
//! the voices into a character budget, and `mml` writes each voice.
//! `convert` runs them all.

pub mod container;
pub mod convert;
pub mod crop;
pub mod decode;
pub mod event;
pub mod extract;
pub mod instrument;
pub mod lengths;
pub mod mml;
pub mod note;
pub mod sort;
pub mod text;
pub mod voices;

pub use convert::{
    convert_by_instrument, convert_by_pitch, convert_midi, convert_midi_internal, convert_notes,
    ConversionOptions, ConversionResult, VoiceResult,
};
pub use container::has_timing_trap;
pub use crop::{crop_voice_to_limit, crop_voices, CroppedVoice};
pub use decode::{decode_midi, extract_midi_notes};
pub use event::{EventKind, MidiEvent, MidiFile};
pub use extract::{deduplicate, extract_notes, ExtractError, InstrumentNames};
pub use lengths::{
    find_best_length, find_exact_match, find_safe_approximation, find_tie_combination,
    get_exact_lengths, Length,
};
pub use mml::{generate_mml_final, midi_to_note_name};
pub use note::{snap_to_grid, Note, GRID_SIZE, TPB};
pub use voices::allocate_voices_smart;
