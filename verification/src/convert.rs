//! From a note list to named, budgeted voices.

use crate::crop::{
    crop_voices, cropped_voices, kept_at, lemma_kept_at, result_of, shared_end, synchronized,
    voice_text, within_budget,
};
use crate::decode::{decode_midi, decoded};
use crate::event::{detected_bpm, MidiFileView};
use crate::extract::{
    extract_notes, extraction_failure, file_extract, ExtractError, InstrumentNames,
};
use crate::instrument::{instrument_names, list_instruments, notes_of, played_by};
use crate::note::Note;
use crate::text::{append_decimal, decimal};
use crate::voices::{allocate_voices_smart, allocated, voice_seqs};
use vstd::prelude::*;
use vstd::string::StringExecFns;

verus! {

/// One voice of a conversion: its name, its notation text, the number of
/// characters and of notes in it, and the tick at which it ends.
#[derive(Debug)]
pub struct VoiceResult {
    pub name: String,
    pub content: String,
    pub char_count: usize,
    pub note_count: usize,
    pub end_tick: u32,
}

/// Name of a voice by its position: the first is the melody, the others
/// are harmonies, numbered.
pub open spec fn voice_label(index: int) -> Seq<char> {
    if index == 0 {
        seq!['m', 'e', 'l', 'o', 'd', 'y']
    } else {
        seq!['h', 'a', 'r', 'm', 'o', 'n', 'y', '-'] + decimal(index as nat)
    }
}

/// Those of the first `n` voices that have a note.
pub open spec fn non_empty(voices: Seq<Seq<Note>>, n: int) -> Seq<Seq<Note>>
    decreases n,
{
    if n <= 0 {
        Seq::empty()
    } else if voices[n - 1].len() > 0 {
        non_empty(voices, n - 1).push(voices[n - 1])
    } else {
        non_empty(voices, n - 1)
    }
}

/// The result is voice `v` of the cut voices, cut off at `end`, under the
/// given name.
pub open spec fn voice_result_of(
    cut: Seq<Seq<Note>>,
    v: int,
    end: u32,
    bpm: u32,
    compress_mode: bool,
    name: Seq<char>,
    o: VoiceResult,
) -> bool {
    let notes = synchronized(cut[v], cut[v].len() as int, end);
    &&& o.name@ == name
    &&& o.content@ == voice_text(notes, bpm, compress_mode)
    &&& o.char_count == o.content@.len()
    &&& o.note_count == notes.len()
    &&& o.end_tick == end
}

/// The results are the voices that keep a note once the given voices have
/// been fitted into the budget and made to end together, each under the
/// name that its position among the given voices gives it.
pub open spec fn results_of(
    voices: Seq<Seq<Note>>,
    names: Seq<Seq<char>>,
    bpm: u32,
    char_limit: usize,
    compress_mode: bool,
    out: Seq<VoiceResult>,
) -> bool {
    let cut = cropped_voices(voices, bpm, char_limit, compress_mode);
    let end = shared_end(voices, bpm, char_limit, compress_mode);
    let kept = kept_at(cut, cut.len() as int, end);
    &&& out.len() == kept.len()
    &&& forall|j: int|
        0 <= j < out.len() ==> voice_result_of(
            cut,
            kept[j],
            end,
            bpm,
            compress_mode,
            names[kept[j]],
            #[trigger] out[j],
        )
}

/// The names of the first `n` voices in a conversion by pitch.
pub open spec fn pitch_names(n: int) -> Seq<Seq<char>> {
    Seq::new(n as nat, |v: int| voice_label(v))
}

/// Every text is within the budget, and all voices end at one tick.
pub open spec fn budgeted(out: Seq<VoiceResult>, char_limit: usize) -> bool {
    forall|j: int, k: int|
        0 <= j < out.len() && 0 <= k < out.len() ==> (#[trigger] out[j]).char_count <= char_limit
            && out[j].end_tick == (#[trigger] out[k]).end_tick
}

/// Name of a voice by its position.
pub fn label_of(index: usize) -> (name: String)
    ensures
        name@ == voice_label(index as int),
{
    proof {
        reveal_strlit("melody");
        reveal_strlit("harmony-");
    }
    if index == 0 {
        let name = String::from_str("melody");
        assert(name@ =~= voice_label(0));
        name
    } else {
        let mut name = String::from_str("harmony-");
        append_decimal(&mut name, index as u64);
        assert(name@ =~= voice_label(index as int));
        name
    }
}

/// The voices that have a note, in their order.
pub fn drop_empty(voices: Vec<Vec<Note>>) -> (r: Vec<Vec<Note>>)
    ensures
        voice_seqs(r@) == non_empty(voice_seqs(voices@), voices@.len() as int),
{
    let ghost all = voice_seqs(voices@);
    let mut voices = voices;
    let mut out: Vec<Vec<Note>> = Vec::new();
    let n = voices.len();
    let mut v: usize = 0;
    while v < n
        invariant
            v <= n,
            n == all.len(),
            voices@.len() == n,
            forall|w: int| v <= w < n ==> (#[trigger] voices@[w])@ == all[w],
            voice_seqs(out@) == non_empty(all, v as int),
        decreases n - v,
    {
        let ghost before = voice_seqs(out@);
        if voices[v].len() > 0 {
            let mut taken: Vec<Note> = Vec::new();
            taken.append(&mut voices[v]);
            out.push(taken);
            assert(voice_seqs(out@) =~= before.push(all[v as int]));
        }
        v = v + 1;
    }
    out
}

/// The texts of the names.
pub open spec fn name_views(names: Seq<String>) -> Seq<Seq<char>> {
    Seq::new(names.len(), |i: int| names[i]@)
}

/// Fits the voices into the budget, makes them end together, and gives
/// each voice that keeps a note its name.
fn finish_voices(
    voices: &Vec<Vec<Note>>,
    names: &Vec<String>,
    bpm: u32,
    char_limit: usize,
    compress_mode: bool,
) -> (out: Vec<VoiceResult>)
    requires
        names@.len() == voices@.len(),
    ensures
        results_of(
            voice_seqs(voices@),
            name_views(names@),
            bpm,
            char_limit,
            compress_mode,
            out@,
        ),
        budgeted(out@, char_limit),
{
    let ghost all = voice_seqs(voices@);
    let ghost cut = cropped_voices(all, bpm, char_limit, compress_mode);
    let ghost end = shared_end(all, bpm, char_limit, compress_mode);
    let ghost kept = kept_at(cut, cut.len() as int, end);
    let cropped = crop_voices(voices, bpm, char_limit, compress_mode);
    proof {
        lemma_kept_at(cut, cut.len() as int, end);
    }
    let mut out: Vec<VoiceResult> = Vec::new();
    let mut j: usize = 0;
    while j < cropped.len()
        invariant
            j <= cropped@.len(),
            cropped@.len() == kept.len(),
            names@.len() == voices@.len(),
            cut.len() == voices@.len(),
            within_budget(cropped@, char_limit),
            forall|k: int| 0 <= k < kept.len() ==> 0 <= #[trigger] kept[k] < cut.len(),
            forall|k: int|
                0 <= k < cropped@.len() ==> result_of(
                    cut,
                    kept[k],
                    end,
                    bpm,
                    compress_mode,
                    #[trigger] cropped@[k],
                ),
            out@.len() == j,
            forall|k: int|
                0 <= k < j ==> voice_result_of(
                    cut,
                    kept[k],
                    end,
                    bpm,
                    compress_mode,
                    name_views(names@)[kept[k]],
                    #[trigger] out@[k],
                ) && out@[k].char_count <= char_limit,
        decreases cropped.len() - j,
    {
        let o = &cropped[j];
        assert(result_of(cut, kept[j as int], end, bpm, compress_mode, *o));
        assert(0 <= kept[j as int] < cut.len());
        let ghost before = out@;
        out.push(
            VoiceResult {
                name: names[o.index].clone(),
                content: o.content.clone(),
                char_count: o.char_count,
                note_count: o.notes.len(),
                end_tick: o.end_tick,
            },
        );
        proof {
            assert forall|k: int| 0 <= k < j + 1 implies voice_result_of(
                cut,
                kept[k],
                end,
                bpm,
                compress_mode,
                name_views(names@)[kept[k]],
                #[trigger] out@[k],
            ) && out@[k].char_count <= char_limit by {
                if k < j {
                    assert(out@[k] == before[k]);
                }
            }
        }
        j = j + 1;
    }
    out
}

/// The names of the first `n` voices of a conversion by pitch.
fn pitch_labels(n: usize) -> (names: Vec<String>)
    ensures
        names@.len() == n,
        name_views(names@) == pitch_names(n as int),
{
    let mut names: Vec<String> = Vec::new();
    let mut v: usize = 0;
    while v < n
        invariant
            v <= n,
            names@.len() == v,
            forall|w: int| 0 <= w < v ==> (#[trigger] names@[w])@ == voice_label(w),
        decreases n - v,
    {
        names.push(label_of(v));
        v = v + 1;
    }
    assert(name_views(names@) =~= pitch_names(n as int));
    names
}

/// The voices that a note list is distributed over, without the empty
/// ones.
pub open spec fn pitch_voices(notes: Seq<Note>) -> Seq<Seq<Note>> {
    non_empty(allocated(notes), 6)
}

/// Converts a note list voice by voice: the notes are distributed over six
/// voices, the voices that got a note are fitted into the budget and made
/// to end together, and each voice that keeps a note is written under its
/// name, the first as the melody.
pub fn convert_by_pitch(notes: Vec<Note>, bpm: u32, char_limit: usize, compress_mode: bool) -> (out:
    Vec<VoiceResult>)
    ensures
        results_of(
            pitch_voices(notes@),
            pitch_names(pitch_voices(notes@).len() as int),
            bpm,
            char_limit,
            compress_mode,
            out@,
        ),
        budgeted(out@, char_limit),
{
    let voices = drop_empty(allocate_voices_smart(notes));
    let names = pitch_labels(voices.len());
    finish_voices(&voices, &names, bpm, char_limit, compress_mode)
}

/// The voices of one instrument: its notes distributed over six voices,
/// without the empty ones.
pub open spec fn voices_of(notes: Seq<Note>, name: String) -> Seq<Seq<Note>> {
    non_empty(allocated(played_by(notes, notes.len() as int, name)), 6)
}

/// The voices of the first `n` instruments, instrument after instrument.
pub open spec fn instrument_voices(notes: Seq<Note>, names: Seq<String>, n: int) -> Seq<Seq<Note>>
    decreases n,
{
    if n <= 0 {
        Seq::empty()
    } else {
        instrument_voices(notes, names, n - 1) + voices_of(notes, names[n - 1])
    }
}

/// Name of a voice in a conversion by instrument: its name by position,
/// then the instrument in brackets; where the instrument has several
/// voices, the number of the voice among them follows the instrument.
pub open spec fn part_label(index: int, instrument: Seq<char>, part: int, parts: int) -> Seq<char> {
    if parts > 1 {
        voice_label(index) + seq![' ', '('] + instrument + seq!['-'] + decimal(part as nat)
            + seq![')']
    } else {
        voice_label(index) + seq![' ', '('] + instrument + seq![')']
    }
}

/// The names of the voices of the first `n` instruments.
pub open spec fn instrument_labels(notes: Seq<Note>, names: Seq<String>, n: int) -> Seq<Seq<char>>
    decreases n,
{
    if n <= 0 {
        Seq::empty()
    } else {
        let before = instrument_labels(notes, names, n - 1);
        let parts = voices_of(notes, names[n - 1]).len() as int;
        before + Seq::new(
            parts as nat,
            |k: int| part_label(before.len() + k, names[n - 1]@, k + 1, parts),
        )
    }
}

/// Name of a voice in a conversion by instrument.
fn instrument_label(index: usize, instrument: &String, part: usize, parts: usize) -> (name: String)
    ensures
        name@ == part_label(index as int, instrument@, part as int, parts as int),
{
    proof {
        reveal_strlit(" (");
        reveal_strlit("-");
        reveal_strlit(")");
    }
    let mut name = label_of(index);
    name.append(" (");
    name.append(instrument.as_str());
    if parts > 1 {
        name.append("-");
        append_decimal(&mut name, part as u64);
    }
    name.append(")");
    assert(name@ =~= part_label(index as int, instrument@, part as int, parts as int));
    name
}

/// Converts a note list instrument by instrument: the instruments are
/// taken in dictionary order, the notes of each are distributed over six
/// voices of its own, and all voices that got a note are fitted into the
/// budget together, made to end together, and written under their names.
pub fn convert_by_instrument(notes: Vec<Note>, bpm: u32, char_limit: usize, compress_mode: bool) -> (out:
    Vec<VoiceResult>)
    ensures
        results_of(
            instrument_voices(
                notes@,
                instrument_names(notes@),
                instrument_names(notes@).len() as int,
            ),
            instrument_labels(
                notes@,
                instrument_names(notes@),
                instrument_names(notes@).len() as int,
            ),
            bpm,
            char_limit,
            compress_mode,
            out@,
        ),
        budgeted(out@, char_limit),
{
    let names = list_instruments(&notes);
    let mut all: Vec<Vec<Note>> = Vec::new();
    let mut labels: Vec<String> = Vec::new();
    assert(voice_seqs(all@) =~= instrument_voices(notes@, names@, 0));
    assert(name_views(labels@) =~= instrument_labels(notes@, names@, 0));
    let mut i: usize = 0;
    while i < names.len()
        invariant
            i <= names@.len(),
            names@ == instrument_names(notes@),
            all@.len() == labels@.len(),
            voice_seqs(all@) == instrument_voices(notes@, names@, i as int),
            name_views(labels@) == instrument_labels(notes@, names@, i as int),
        decreases names.len() - i,
    {
        let ghost old_voices = voice_seqs(all@);
        let ghost old_labels = name_views(labels@);
        let group = notes_of(&notes, &names[i]);
        let mut voices = drop_empty(allocate_voices_smart(group));
        let ghost added = voice_seqs(voices@);
        assert(added == voices_of(notes@, names@[i as int]));
        let parts = voices.len();
        all.append(&mut voices);
        assert(voice_seqs(all@) =~= old_voices + added);
        let total = all.len();
        let base = total - parts;
        let mut k: usize = 0;
        while k < parts
            invariant
                k <= parts,
                i < names@.len(),
                base + parts == total,
                base == old_labels.len(),
                labels@.len() == base + k,
                name_views(labels@) == old_labels + Seq::new(
                    k as nat,
                    |m: int| part_label(base + m, names@[i as int]@, m + 1, parts as int),
                ),
            decreases parts - k,
        {
            let ghost before = name_views(labels@);
            let label = instrument_label(base + k, &names[i], k + 1, parts);
            labels.push(label);
            assert(name_views(labels@) =~= before.push(label@));
            assert(name_views(labels@) =~= old_labels + Seq::new(
                (k + 1) as nat,
                |m: int| part_label(base + m, names@[i as int]@, m + 1, parts as int),
            ));
            k = k + 1;
        }
        i = i + 1;
    }
    finish_voices(&all, &labels, bpm, char_limit, compress_mode)
}

/// What a conversion is asked for: the mode, `instrument` for a conversion
/// instrument by instrument and anything else for one by pitch; the
/// character budget of a voice; and whether text is to be short rather than
/// rhythm exact.
#[derive(Debug)]
pub struct ConversionOptions {
    pub mode: String,
    pub char_limit: usize,
    pub compress_mode: bool,
}

/// What a conversion gives: the voices, the tempo and the number of notes
/// found where it succeeds; the reason where it fails.
#[derive(Debug)]
pub struct ConversionResult {
    pub success: bool,
    pub voices: Vec<VoiceResult>,
    pub error: Option<String>,
    pub bpm: u32,
    pub total_notes: usize,
}

/// The mode asks for a conversion instrument by instrument.
pub open spec fn by_instrument(mode: Seq<char>) -> bool {
    mode == "instrument"@
}

/// The voices are those that the mode makes of the notes.
pub open spec fn voices_for(
    notes: Seq<Note>,
    bpm: u32,
    options: ConversionOptions,
    out: Seq<VoiceResult>,
) -> bool {
    if by_instrument(options.mode@) {
        results_of(
            instrument_voices(notes, instrument_names(notes), instrument_names(notes).len() as int),
            instrument_labels(notes, instrument_names(notes), instrument_names(notes).len() as int),
            bpm,
            options.char_limit,
            options.compress_mode,
            out,
        )
    } else {
        results_of(
            pitch_voices(notes),
            pitch_names(pitch_voices(notes).len() as int),
            bpm,
            options.char_limit,
            options.compress_mode,
            out,
        )
    }
}

/// The result is the successful conversion of the notes.
pub open spec fn converted(
    notes: Seq<Note>,
    bpm: u32,
    options: ConversionOptions,
    r: ConversionResult,
) -> bool {
    &&& r.success
    &&& r.error is None
    &&& r.bpm == bpm
    &&& r.total_notes == notes.len()
    &&& voices_for(notes, bpm, options, r.voices@)
    &&& budgeted(r.voices@, options.char_limit)
}

/// What a failure is reported as.
pub open spec fn failure_text(e: ExtractError) -> Seq<char> {
    match e {
        ExtractError::Parse(reason) => "MIDI parse error: "@ + reason@,
        ExtractError::UnsupportedTiming => "SMPTE timing is not supported"@,
        ExtractError::ZeroResolution => "the file holds notes but declares zero ticks per beat"@,
        ExtractError::TickOverflow => "a note ends beyond the last tick that can be counted"@,
    }
}

/// The result is the report of a failure: no voices, no tempo, no notes,
/// and the reason in words.
pub open spec fn failed(e: ExtractError, r: ConversionResult) -> bool {
    &&& !r.success
    &&& r.voices@.len() == 0
    &&& r.error matches Some(text) && text@ == failure_text(e)
    &&& r.bpm == 0
    &&& r.total_notes == 0
}

/// What a failure is reported as.
pub fn describe_failure(e: &ExtractError) -> (text: String)
    ensures
        text@ == failure_text(*e),
{
    match e {
        ExtractError::Parse(reason) => {
            let mut text = String::from_str("MIDI parse error: ");
            text.append(reason.as_str());
            text
        },
        ExtractError::UnsupportedTiming => String::from_str("SMPTE timing is not supported"),
        ExtractError::ZeroResolution => String::from_str(
            "the file holds notes but declares zero ticks per beat",
        ),
        ExtractError::TickOverflow => String::from_str(
            "a note ends beyond the last tick that can be counted",
        ),
    }
}

/// Converts extracted notes in the mode that the options name.
pub fn convert_notes(notes: Vec<Note>, bpm: u32, options: &ConversionOptions) -> (r:
    ConversionResult)
    ensures
        converted(notes@, bpm, *options, r),
{
    let total_notes = notes.len();
    let wanted = String::from_str("instrument");
    let voices = if options.mode == wanted {
        convert_by_instrument(notes, bpm, options.char_limit, options.compress_mode)
    } else {
        convert_by_pitch(notes, bpm, options.char_limit, options.compress_mode)
    };
    ConversionResult { success: true, voices, error: None, bpm, total_notes }
}

/// What a conversion makes of a decoded file: the failure of the
/// extraction, or the conversion of the extracted notes at the detected
/// tempo.
pub open spec fn conversion_of(
    file: MidiFileView,
    names: InstrumentNames,
    options: ConversionOptions,
    r: Result<ConversionResult, ExtractError>,
) -> bool {
    match extraction_failure(file) {
        Some(e) => r matches Err(x) && x == e,
        None => r matches Ok(c) && converted(
            file_extract(file, names),
            detected_bpm(file.tracks) as u32,
            options,
            c,
        ),
    }
}

/// Converts a MIDI file, or says why it cannot be converted. Bytes that
/// the decoder rejects give a parse error.
pub fn convert_midi_internal(
    midi_data: &[u8],
    options: &ConversionOptions,
    names: &InstrumentNames,
) -> (r: Result<ConversionResult, ExtractError>)
    ensures
        match decoded(midi_data@) {
            Some(file) => conversion_of(file, *names, *options, r),
            None => r matches Err(e) && e is Parse,
        },
{
    let file = match decode_midi(midi_data) {
        Ok(file) => file,
        Err(e) => {
            return Err(e);
        },
    };
    match extract_notes(&file, names) {
        Ok((notes, bpm)) => Ok(convert_notes(notes, bpm, options)),
        Err(e) => Err(e),
    }
}

/// Converts a MIDI file. The result always says whether the conversion
/// succeeded, and carries either voices or the reason of the failure, never
/// both.
pub fn convert_midi(midi_data: &[u8], options: &ConversionOptions, names: &InstrumentNames) -> (r:
    ConversionResult)
    ensures
        match decoded(midi_data@) {
            Some(file) => match extraction_failure(file) {
                Some(e) => failed(e, r),
                None => converted(
                    file_extract(file, *names),
                    detected_bpm(file.tracks) as u32,
                    *options,
                    r,
                ),
            },
            None => exists|e: ExtractError| e is Parse && failed(e, r),
        },
        r.success <==> r.error is None,
        !r.success ==> r.voices@.len() == 0,
{
    match convert_midi_internal(midi_data, options, names) {
        Ok(result) => result,
        Err(e) => {
            let text = describe_failure(&e);
            let r = ConversionResult {
                success: false,
                voices: Vec::new(),
                error: Some(text),
                bpm: 0,
                total_notes: 0,
            };
            assert(failed(e, r));
            r
        },
    }
}

} // verus!
