//! Decoding of MIDI files. The container format is read by `midly`; this
//! module turns what it finds into the library's own events.

use crate::container::{has_timing_trap, timing_trap};
use crate::event::{EventKind, MidiEvent, MidiFile, MidiFileView};
use crate::extract::{
    all_on_grid, extract_notes, extraction_of, no_adjacent_duplicates, ExtractError,
    InstrumentNames,
};
use crate::note::Note;
use midly::{MetaMessage, MidiMessage, Smf, Timing, TrackEventKind};
use vstd::prelude::*;
use vstd::string::StringExecFns;

verus! {

/// `midly::Smf`, a decoded file. The verifier sees nothing inside it; what
/// it holds is read through the functions below.
#[verifier::external_type_specification]
#[verifier::external_body]
pub struct ExSmf<'a>(midly::Smf<'a>);

/// `midly::Error`, the reason why `midly` rejects a byte string.
#[verifier::external_type_specification]
#[verifier::external_body]
pub struct ExDecodeError(midly::Error);

/// What `midly` makes of a byte string: the decoded file, or nothing where
/// it rejects the bytes.
pub uninterp spec fn parsed_file(bytes: Seq<u8>) -> Option<MidiFileView>;

/// The events that a decoded file holds, track by track.
pub uninterp spec fn smf_tracks(smf: Smf) -> Seq<Seq<MidiEvent>>;

/// The ticks per beat that a decoded file declares, if it counts in beats.
pub uninterp spec fn smf_ticks_per_beat(smf: Smf) -> Option<u16>;

/// `midly::Smf::parse`. Assumed: the outcome depends on the bytes alone, and
/// a file that is returned holds what [`parsed_file`] says. The call is not
/// made on a file with a header that cannot be read: there `midly` negates
/// the signed byte `0x80`, and does not return where overflow is checked.
#[verifier::external_body]
fn parse_smf(bytes: &[u8]) -> (r: Result<Smf<'_>, midly::Error>)
    requires
        !timing_trap(bytes@),
    ensures
        match r {
            Ok(smf) => parsed_file(bytes@) == Some(
                (MidiFileView {
                    ticks_per_beat: smf_ticks_per_beat(smf),
                    tracks: smf_tracks(smf),
                }),
            ),
            Err(_) => parsed_file(bytes@) is None,
        },
{
    Smf::parse(bytes)
}

/// The text with which `midly::Error` describes itself. Nothing is assumed
/// of it.
#[verifier::external_body]
fn error_text(error: &midly::Error) -> String {
    format!("{}", error)
}

/// The `timing` field of the header of a `midly::Smf`. Assumed: metrical
/// timing carries the ticks per beat, time-code timing carries none.
#[verifier::external_body]
fn ticks_per_beat(smf: &Smf) -> (r: Option<u16>)
    ensures
        r == smf_ticks_per_beat(*smf),
{
    match smf.header.timing {
        Timing::Metrical(ticks) => Some(ticks.as_int()),
        Timing::Timecode(..) => None,
    }
}

/// The number of tracks in the `tracks` field of a `midly::Smf`.
#[verifier::external_body]
fn track_count(smf: &Smf) -> (n: usize)
    ensures
        n == smf_tracks(*smf).len(),
{
    smf.tracks.len()
}

/// The number of events in one track of a `midly::Smf`.
#[verifier::external_body]
fn track_len(smf: &Smf, track: usize) -> (n: usize)
    requires
        track < smf_tracks(*smf).len(),
    ensures
        n == smf_tracks(*smf)[track as int].len(),
{
    smf.tracks[track].len()
}

/// The `delta` field of one `midly::TrackEvent`.
#[verifier::external_body]
fn event_delta(smf: &Smf, track: usize, index: usize) -> (delta: u32)
    requires
        track < smf_tracks(*smf).len(),
        index < smf_tracks(*smf)[track as int].len(),
    ensures
        delta == smf_tracks(*smf)[track as int][index as int].delta,
{
    smf.tracks[track][index].delta.as_int()
}

/// The `kind` field of one `midly::TrackEvent`, as far as extraction reads
/// it: note-on, note-off, program change and tempo keep their fields, every
/// other event is `Other`.
#[verifier::external_body]
fn event_kind(smf: &Smf, track: usize, index: usize) -> (kind: EventKind)
    requires
        track < smf_tracks(*smf).len(),
        index < smf_tracks(*smf)[track as int].len(),
    ensures
        kind == smf_tracks(*smf)[track as int][index as int].kind,
{
    match smf.tracks[track][index].kind {
        TrackEventKind::Midi { channel, message: MidiMessage::NoteOn { key, vel } } =>
            EventKind::NoteOn { channel: channel.as_int(), key: key.as_int(), velocity: vel.as_int() },
        TrackEventKind::Midi { channel, message: MidiMessage::NoteOff { key, .. } } =>
            EventKind::NoteOff { channel: channel.as_int(), key: key.as_int() },
        TrackEventKind::Midi { channel, message: MidiMessage::ProgramChange { program } } =>
            EventKind::ProgramChange { channel: channel.as_int(), program: program.as_int() },
        TrackEventKind::Meta(MetaMessage::Tempo(t)) => EventKind::Tempo { micros_per_beat: t.as_int() },
        _ => EventKind::Other,
    }
}

/// Copies the events of a decoded file into the library's own records.
fn load_file(smf: &Smf) -> (file: MidiFile)
    ensures
        file@ == (MidiFileView {
            ticks_per_beat: smf_ticks_per_beat(*smf),
            tracks: smf_tracks(*smf),
        }),
{
    let ghost model = smf_tracks(*smf);
    let count = track_count(smf);
    let mut tracks: Vec<Vec<MidiEvent>> = Vec::new();
    let mut t: usize = 0;
    while t < count
        invariant
            t <= count,
            count == model.len(),
            model == smf_tracks(*smf),
            tracks@.len() == t,
            forall|u: int| 0 <= u < t ==> (#[trigger] tracks@[u])@ == model[u],
        decreases count - t,
    {
        let len = track_len(smf, t);
        let mut events: Vec<MidiEvent> = Vec::new();
        let mut i: usize = 0;
        while i < len
            invariant
                i <= len,
                t < count,
                count == model.len(),
                model == smf_tracks(*smf),
                len == model[t as int].len(),
                events@.len() == i,
                forall|k: int| 0 <= k < i ==> #[trigger] events@[k] == model[t as int][k],
            decreases len - i,
        {
            let delta = event_delta(smf, t, i);
            let kind = event_kind(smf, t, i);
            events.push(MidiEvent { delta, kind });
            i = i + 1;
        }
        assert(events@ =~= model[t as int]);
        tracks.push(events);
        t = t + 1;
    }
    let file = MidiFile { ticks_per_beat: ticks_per_beat(smf), tracks };
    assert(file@.tracks =~= model);
    file
}

/// What decoding makes of a byte string: nothing where a header of the
/// file cannot be read, else what `midly` makes of it.
pub open spec fn decoded(bytes: Seq<u8>) -> Option<MidiFileView> {
    if timing_trap(bytes) {
        None
    } else {
        parsed_file(bytes)
    }
}

/// Decodes a MIDI file. A file with a header that cannot be read is refused
/// before it reaches the decoder; bytes that `midly` rejects give a parse
/// error that carries the decoder's words.
pub fn decode_midi(bytes: &[u8]) -> (r: Result<MidiFile, ExtractError>)
    ensures
        match r {
            Ok(file) => decoded(bytes@) == Some(file@),
            Err(e) => decoded(bytes@) is None && e is Parse,
        },
{
    if has_timing_trap(bytes) {
        return Err(ExtractError::Parse(String::from_str("invalid time-code frame rate")));
    }
    match parse_smf(bytes) {
        Ok(smf) => Ok(load_file(&smf)),
        Err(error) => Err(ExtractError::Parse(error_text(&error))),
    }
}

/// Extracts the notes and the tempo of a MIDI file. Every note lasts one
/// grid unit at least, whatever floor the caller asks for.
pub fn extract_midi_notes(midi_data: &[u8], _min_duration: u32, names: &InstrumentNames) -> (r:
    Result<(Vec<Note>, u32), ExtractError>)
    ensures
        match decoded(midi_data@) {
            Some(file) => extraction_of(file, *names, r),
            None => r matches Err(e) && e is Parse,
        },
        r matches Ok((notes, _)) ==> all_on_grid(notes@) && no_adjacent_duplicates(notes@),
{
    match decode_midi(midi_data) {
        Ok(file) => extract_notes(&file, names),
        Err(e) => Err(e),
    }
}

} // verus!
