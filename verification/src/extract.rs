//! From decoded events to a list of quantised notes.

use crate::event::{
    detect_bpm, detected_bpm, event_seqs, held_after, program_after, released, tick_after,
    EventKind, Held, MidiEvent, MidiFile, MidiFileView,
};
use crate::note::{snapped, Note};
use crate::sort::{lemma_stable_sorted, sort_notes, stable_sorted, NoteOrder};
use vstd::prelude::*;

verus! {

/// Display names of instruments by program number, with the name to use for
/// a program that the list does not reach.
#[derive(Debug)]
pub struct InstrumentNames {
    pub names: Vec<String>,
    pub fallback: String,
}

impl InstrumentNames {
    /// The name of a program: its entry in the list, else the fallback.
    pub open spec fn spec_name(self, program: u8) -> String {
        if (program as int) < self.names@.len() {
            self.names@[program as int]
        } else {
            self.fallback
        }
    }

    /// The name of a program.
    pub fn name(&self, program: u8) -> (r: String)
        ensures
            r == self.spec_name(program),
    {
        if (program as usize) < self.names.len() {
            self.names[program as usize].clone()
        } else {
            self.fallback.clone()
        }
    }
}

/// Why a file yields no notes.
#[derive(Debug)]
pub enum ExtractError {
    /// The bytes are no MIDI file; the text says what the decoder met.
    Parse(String),
    /// The file counts time in frames per second, not in ticks per beat.
    UnsupportedTiming,
    /// The file declares zero ticks per beat and holds a note: no tick of
    /// such a file can be brought to the grid.
    ZeroResolution,
    /// A note of the file ends beyond the last tick that 32 bits can count.
    TickOverflow,
}

/// Where a note lies once it is on the grid.
pub struct Span {
    pub start: int,
    pub duration: int,
}

/// A note that an event has completed, before it is known to fit.
pub struct Finished {
    pub key: u8,
    pub velocity: u8,
    pub program: u8,
    pub span: Span,
}

/// A tick count brought from `ticks_per_beat` to 384 ticks per beat, rounded
/// to the nearest tick, halves upward.
pub open spec fn rescaled(x: int, ticks_per_beat: int) -> int {
    if ticks_per_beat == 384 {
        x
    } else {
        (x * 768 + ticks_per_beat) / (2 * ticks_per_beat)
    }
}

/// The grid span of a note that started at `start` and lasted `duration`,
/// both in the file's own ticks: both ends are rescaled and snapped on their
/// own, and the note lasts one grid unit at least.
pub open spec fn quantized(start: int, duration: int, ticks_per_beat: int) -> Span {
    let s = snapped(rescaled(start, ticks_per_beat));
    let e = snapped(rescaled(start, ticks_per_beat) + rescaled(duration, ticks_per_beat));
    Span {
        start: s,
        duration: if e - s < 24 {
            24
        } else {
            e - s
        },
    }
}

/// The note that event `i` of the track completes: the event releases a key
/// that is down. The instrument is the one its channel plays at that moment.
pub open spec fn finished_at(track: Seq<MidiEvent>, i: int, ticks_per_beat: int) -> Option<
    Finished,
> {
    match released(track[i].kind) {
        Some((channel, key)) => match held_after(track, i, channel, key) {
            Some(h) => Some(
                Finished {
                    key,
                    velocity: h.velocity,
                    program: program_after(track, i, channel),
                    span: quantized(h.start, tick_after(track, i + 1) - h.start, ticks_per_beat),
                },
            ),
            None => None,
        },
        None => None,
    }
}

/// The note ends on a tick that 32 bits can count.
pub open spec fn fits(f: Finished) -> bool {
    f.span.start + f.span.duration <= u32::MAX
}

/// The finished note as a record.
pub open spec fn as_note(f: Finished, names: InstrumentNames) -> Note {
    Note {
        note: f.key,
        start: f.span.start as u32,
        end: (f.span.start + f.span.duration) as u32,
        duration: f.span.duration as u32,
        velocity: f.velocity,
        instrument: names.spec_name(f.program),
    }
}

/// The notes that the first `n` events of a track complete, in that order.
pub open spec fn track_notes(
    track: Seq<MidiEvent>,
    n: int,
    ticks_per_beat: int,
    names: InstrumentNames,
) -> Seq<Note>
    decreases n,
{
    if n <= 0 {
        Seq::empty()
    } else {
        match finished_at(track, n - 1, ticks_per_beat) {
            Some(f) => track_notes(track, n - 1, ticks_per_beat, names).push(as_note(f, names)),
            None => track_notes(track, n - 1, ticks_per_beat, names),
        }
    }
}

/// The notes of the first `n` tracks, track after track.
pub open spec fn file_notes(
    tracks: Seq<Seq<MidiEvent>>,
    n: int,
    ticks_per_beat: int,
    names: InstrumentNames,
) -> Seq<Note>
    decreases n,
{
    if n <= 0 {
        Seq::empty()
    } else {
        file_notes(tracks, n - 1, ticks_per_beat, names) + track_notes(
            tracks[n - 1],
            tracks[n - 1].len() as int,
            ticks_per_beat,
            names,
        )
    }
}

/// Every note that the first `n` events of the track complete can be put
/// on the grid: the resolution is not zero, and the note fits. A track that
/// completes no note meets this whatever the resolution.
pub open spec fn track_fits(track: Seq<MidiEvent>, n: int, ticks_per_beat: int) -> bool {
    forall|i: int|
        0 <= i < n ==> (#[trigger] finished_at(track, i, ticks_per_beat) matches Some(f)
            ==> ticks_per_beat > 0 && fits(f))
}

/// Every note of the file can be put on the grid.
pub open spec fn file_fits(tracks: Seq<Seq<MidiEvent>>, ticks_per_beat: int) -> bool {
    forall|t: int|
        0 <= t < tracks.len() ==> track_fits(
            #[trigger] tracks[t],
            tracks[t].len() as int,
            ticks_per_beat,
        )
}

/// Two notes claim the same key at the same moment.
pub open spec fn same_slot(a: Note, b: Note) -> bool {
    a.start == b.start && a.note == b.note
}

/// One more note for a list without duplicates. A note in the slot of the
/// last one replaces it unless it is softer.
pub open spec fn dedup_push(acc: Seq<Note>, n: Note) -> Seq<Note> {
    if acc.len() > 0 && same_slot(acc.last(), n) {
        if n.velocity >= acc.last().velocity {
            acc.drop_last().push(n)
        } else {
            acc
        }
    } else {
        acc.push(n)
    }
}

/// Of each run of neighbours in one slot only the loudest is kept, the last
/// of them where several are equally loud.
pub open spec fn deduplicated(s: Seq<Note>) -> Seq<Note>
    decreases s.len(),
{
    if s.len() == 0 {
        s
    } else {
        dedup_push(deduplicated(s.drop_last()), s.last())
    }
}

/// No two neighbours share a slot.
pub open spec fn no_adjacent_duplicates(s: Seq<Note>) -> bool {
    forall|i: int| 0 <= i < s.len() - 1 ==> !same_slot(#[trigger] s[i], s[i + 1])
}

/// The notes of a file: those that its events complete, by start and then by
/// falling pitch, without duplicates.
pub open spec fn extracted_notes(
    tracks: Seq<Seq<MidiEvent>>,
    ticks_per_beat: int,
    names: InstrumentNames,
) -> Seq<Note> {
    deduplicated(
        stable_sorted(
            file_notes(tracks, tracks.len() as int, ticks_per_beat, names),
            NoteOrder::StartThenPitchDescending,
        ),
    )
}

/// What removing duplicates leaves: notes of the input, no two neighbours in
/// one slot, and nothing where there was nothing.
pub proof fn lemma_deduplicated(s: Seq<Note>)
    ensures
        no_adjacent_duplicates(deduplicated(s)),
        forall|y: Note| #[trigger] deduplicated(s).contains(y) ==> s.contains(y),
        deduplicated(s).len() <= s.len(),
        s.len() > 0 ==> deduplicated(s).len() > 0 && same_slot(deduplicated(s).last(), s.last()),
    decreases s.len(),
{
    if s.len() > 0 {
        let t = s.drop_last();
        let d = deduplicated(t);
        let r = deduplicated(s);
        lemma_deduplicated(t);
        assert forall|y: Note| #[trigger] r.contains(y) implies s.contains(y) by {
            let i = choose|i: int| 0 <= i < r.len() && r[i] == y;
            if y == s.last() {
                assert(s[s.len() - 1] == y);
            } else {
                assert(d[i] == y);
                assert(d.contains(y));
                let k = choose|k: int| 0 <= k < t.len() && t[k] == y;
                assert(s[k] == y);
            }
        }
        assert forall|i: int| 0 <= i < r.len() - 1 implies !same_slot(#[trigger] r[i], r[i + 1]) by {
            if i + 1 < r.len() - 1 || r == d {
                assert(r[i] == d[i] && r[i + 1] == d[i + 1]);
            } else {
                assert(r[i] == d[i]);
                if d.len() > 0 && same_slot(d.last(), s.last()) {
                    assert(!same_slot(d[i], d[i + 1]));
                }
            }
        }
    }
}

/// A list in which no two neighbours share a slot has no duplicates to lose.
pub proof fn lemma_deduplicated_fixed(s: Seq<Note>)
    requires
        no_adjacent_duplicates(s),
    ensures
        deduplicated(s) == s,
    decreases s.len(),
{
    if s.len() > 0 {
        let t = s.drop_last();
        assert forall|i: int| 0 <= i < t.len() - 1 implies !same_slot(#[trigger] t[i], t[i + 1]) by {
            assert(t[i] == s[i] && t[i + 1] == s[i + 1]);
        }
        lemma_deduplicated_fixed(t);
        if t.len() > 0 {
            assert(!same_slot(s[s.len() - 2], s[s.len() - 2 + 1]));
            assert(t.last() == s[s.len() - 2]);
        }
        assert(s =~= t.push(s.last()));
    }
}

/// Removing duplicates twice removes no more than removing them once.
pub proof fn lemma_dedup_idempotent(s: Seq<Note>)
    ensures
        deduplicated(deduplicated(s)) == deduplicated(s),
{
    lemma_deduplicated(s);
    lemma_deduplicated_fixed(deduplicated(s));
}

/// Removes duplicates: of neighbours in one slot the loudest stays.
pub fn deduplicate(notes: &Vec<Note>) -> (r: Vec<Note>)
    ensures
        r@ == deduplicated(notes@),
        no_adjacent_duplicates(r@),
        forall|y: Note| #[trigger] r@.contains(y) ==> notes@.contains(y),
{
    let mut out: Vec<Note> = Vec::new();
    let mut i: usize = 0;
    while i < notes.len()
        invariant
            i <= notes.len(),
            out@ == deduplicated(notes@.take(i as int)),
        decreases notes.len() - i,
    {
        proof {
            assert(notes@.take(i as int + 1).drop_last() =~= notes@.take(i as int));
            assert(notes@.take(i as int + 1).last() == notes@[i as int]);
        }
        let n = &notes[i];
        let len = out.len();
        if len > 0 && out[len - 1].start == n.start && out[len - 1].note == n.note {
            if n.velocity >= out[len - 1].velocity {
                out.pop();
                out.push(n.clone());
            }
        } else {
            out.push(n.clone());
        }
        i = i + 1;
    }
    proof {
        assert(notes@.take(notes@.len() as int) =~= notes@);
        lemma_deduplicated(notes@);
    }
    out
}

/// The largest tick a track can reach: more than any number of 32-bit steps
/// that a list can hold adds up to.
pub const TICK_LIMIT: u128 = 0x1_0000_0000_0000_0000_0000_0000;

/// Ticks never run backwards, and a key that is down went down at a tick
/// that the track had reached by then.
pub proof fn lemma_ticks(track: Seq<MidiEvent>, n: int, channel: u8, key: u8)
    requires
        0 <= n <= track.len(),
    ensures
        0 <= tick_after(track, n) <= n * 0xFFFF_FFFF,
        held_after(track, n, channel, key) matches Some(h) ==> 0 <= h.start <= tick_after(
            track,
            n,
        ),
    decreases n,
{
    if n > 0 {
        lemma_ticks(track, n - 1, channel, key);
    }
}

/// Brings a tick count to 384 ticks per beat.
fn rescale(x: u128, ticks_per_beat: u16) -> (r: u128)
    requires
        ticks_per_beat > 0,
        x <= TICK_LIMIT,
    ensures
        r == rescaled(x as int, ticks_per_beat as int),
        r <= 768 * TICK_LIMIT,
{
    if ticks_per_beat == 384 {
        x
    } else {
        let num: u128 = x * 768 + ticks_per_beat as u128;
        let den: u128 = 2 * ticks_per_beat as u128;
        let q: u128 = num / den;
        assert(q * 2 <= num) by (nonlinear_arith)
            requires
                q == num / den,
                den >= 2,
        ;
        q
    }
}

/// Snaps a wide tick to the grid.
fn snap_wide(tick: u128) -> (r: u128)
    requires
        tick <= 2000 * TICK_LIMIT,
    ensures
        r == snapped(tick as int),
        r % 24 == 0,
{
    (tick + 12) / 24 * 24
}

/// Puts a completed note on the grid, if it fits.
fn finish_note(
    key: u8,
    velocity: u8,
    program: u8,
    start: u128,
    tick: u128,
    ticks_per_beat: u16,
    names: &InstrumentNames,
) -> (r: Option<Note>)
    requires
        ticks_per_beat > 0,
        start <= tick <= TICK_LIMIT,
    ensures
        ({
            let f = Finished {
                key,
                velocity,
                program,
                span: quantized(start as int, tick - start, ticks_per_beat as int),
            };
            match r {
                Some(n) => fits(f) && n == as_note(f, *names),
                None => !fits(f),
            }
        }),
{
    let s_raw = rescale(start, ticks_per_beat);
    let d_raw = rescale(tick - start, ticks_per_beat);
    let s = snap_wide(s_raw);
    let e = snap_wide(s_raw + d_raw);
    let d: u128 = if e - s < 24 {
        24
    } else {
        e - s
    };
    if s + d > u32::MAX as u128 {
        None
    } else {
        Some(
            Note {
                note: key,
                start: s as u32,
                end: (s + d) as u32,
                duration: d as u32,
                velocity,
                instrument: names.name(program),
            },
        )
    }
}

/// What the table of held keys stores for a key.
pub open spec fn stored(h: Option<Held>) -> Option<(u128, u8)> {
    match h {
        Some(h) => Some((h.start as u128, h.velocity)),
        None => None,
    }
}

/// A table of held keys with no key down.
fn fresh_held() -> (table: Vec<Option<(u128, u8)>>)
    ensures
        table@.len() == 32768,
        forall|i: int| 0 <= i < 32768 ==> table@[i] is None,
{
    let mut table: Vec<Option<(u128, u8)>> = Vec::new();
    let mut i: usize = 0;
    while i < 32768
        invariant
            i <= 32768,
            table@.len() == i,
            forall|k: int| 0 <= k < i ==> table@[k] is None,
        decreases 32768 - i,
    {
        table.push(None);
        i = i + 1;
    }
    table
}

/// A table of programs with every channel on program 0.
fn fresh_programs() -> (table: Vec<u8>)
    ensures
        table@.len() == 256,
        forall|i: int| 0 <= i < 256 ==> table@[i] == 0,
{
    let mut table: Vec<u8> = Vec::new();
    let mut i: usize = 0;
    while i < 256
        invariant
            i <= 256,
            table@.len() == i,
            forall|k: int| 0 <= k < i ==> table@[k] == 0,
        decreases 256 - i,
    {
        table.push(0);
        i = i + 1;
    }
    table
}

/// The key that the event releases, if it releases one.
fn released_key(kind: &EventKind) -> (r: Option<(u8, u8)>)
    ensures
        r == released(*kind),
{
    match kind {
        EventKind::NoteOff { channel, key } => if *key <= 127 {
            Some((*channel, *key))
        } else {
            None
        },
        EventKind::NoteOn { channel, key, velocity } => if *key <= 127 && *velocity == 0 {
            Some((*channel, *key))
        } else {
            None
        },
        _ => None,
    }
}

/// Walks one track and appends the notes that its events complete. Gives up,
/// with `false`, at the first note that cannot be put on the grid.
fn extract_track(
    track: &Vec<MidiEvent>,
    ticks_per_beat: u16,
    names: &InstrumentNames,
    out: &mut Vec<Note>,
) -> (ok: bool)
    ensures
        ok ==> track_fits(track@, track@.len() as int, ticks_per_beat as int),
        ok ==> final(out)@ == old(out)@ + track_notes(
            track@,
            track@.len() as int,
            ticks_per_beat as int,
            *names,
        ),
        !ok ==> !track_fits(track@, track@.len() as int, ticks_per_beat as int),
{
    let ghost before = out@;
    let ghost tpb = ticks_per_beat as int;
    let mut programs = fresh_programs();
    let mut held = fresh_held();
    let mut tick: u128 = 0;
    let mut i: usize = 0;
    while i < track.len()
        invariant
            i <= track.len(),
            tpb == ticks_per_beat as int,
            tick == tick_after(track@, i as int),
            programs@.len() == 256,
            held@.len() == 32768,
            forall|c: u8| programs@[c as int] == #[trigger] program_after(track@, i as int, c),
            forall|c: u8, k: u8|
                k <= 127 ==> held@[c as int * 128 + k as int] == stored(
                    #[trigger] held_after(track@, i as int, c, k),
                ),
            track_fits(track@, i as int, tpb),
            out@ == before + track_notes(track@, i as int, tpb, *names),
        decreases track.len() - i,
    {
        let event = track[i];
        proof {
            lemma_ticks(track@, i as int, 0, 0);
            lemma_ticks(track@, i as int + 1, 0, 0);
        }
        tick = tick + event.delta as u128;
        let ghost old_held = held@;
        let ghost old_programs = programs@;
        match event.kind {
            EventKind::ProgramChange { channel, program } => {
                programs.set(channel as usize, program);
            },
            EventKind::NoteOn { channel, key, velocity } => {
                if key <= 127 && velocity > 0 && channel != 9 {
                    held.set(channel as usize * 128 + key as usize, Some((tick, velocity)));
                }
            },
            _ => {},
        }
        match released_key(&event.kind) {
            Some((channel, key)) => {
                let slot = channel as usize * 128 + key as usize;
                proof {
                    lemma_ticks(track@, i as int, channel, key);
                }
                match held[slot] {
                    Some((start, struck)) => {
                        if ticks_per_beat == 0 {
                            assert(finished_at(track@, i as int, tpb) is Some);
                            return false;
                        }
                        let program = programs[channel as usize];
                        match finish_note(key, struck, program, start, tick, ticks_per_beat, names) {
                            Some(note) => {
                                out.push(note);
                            },
                            None => {
                                assert(finished_at(track@, i as int, tpb) is Some);
                                return false;
                            },
                        }
                        held.set(slot, None);
                    },
                    None => {},
                }
            },
            None => {},
        }
        proof {
            assert forall|c: u8, k: u8| k <= 127 implies held@[c as int * 128 + k as int]
                == stored(#[trigger] held_after(track@, i as int + 1, c, k)) by {
                assert(old_held[c as int * 128 + k as int] == stored(
                    held_after(track@, i as int, c, k),
                ));
                lemma_ticks(track@, i as int + 1, c, k);
            }
            assert forall|c: u8| programs@[c as int] == #[trigger] program_after(
                track@,
                i as int + 1,
                c,
            ) by {
                assert(old_programs[c as int] == program_after(track@, i as int, c));
            }
            assert forall|j: int| 0 <= j < i + 1 implies (#[trigger] finished_at(track@, j, tpb)
                matches Some(f) ==> tpb > 0 && fits(f)) by {}
        }
        i = i + 1;
    }
    true
}

/// Why a decoded file yields no notes, if it yields none: it has no
/// resolution in ticks per beat; or it holds a note and its resolution is
/// zero; or a note of it ends beyond the 32-bit range. A file that holds no
/// note fails for none of the last two reasons.
pub open spec fn extraction_failure(file: MidiFileView) -> Option<ExtractError> {
    match file.ticks_per_beat {
        None => Some(ExtractError::UnsupportedTiming),
        Some(tpb) => if file_fits(file.tracks, tpb as int) {
            None
        } else if tpb == 0 {
            Some(ExtractError::ZeroResolution)
        } else {
            Some(ExtractError::TickOverflow)
        },
    }
}

/// The notes of a decoded file that yields notes.
pub open spec fn file_extract(file: MidiFileView, names: InstrumentNames) -> Seq<Note> {
    extracted_notes(file.tracks, file.ticks_per_beat.unwrap() as int, names)
}

/// What extraction makes of a decoded file: its failure, or its notes and
/// its tempo.
pub open spec fn extraction_of(
    file: MidiFileView,
    names: InstrumentNames,
    r: Result<(Vec<Note>, u32), ExtractError>,
) -> bool {
    match extraction_failure(file) {
        Some(e) => r matches Err(x) && x == e,
        None => {
            &&& r matches Ok((notes, bpm))
            &&& notes@ == file_extract(file, names)
            &&& bpm == detected_bpm(file.tracks)
        },
    }
}

/// Every note of the list lies on the grid.
pub open spec fn all_on_grid(notes: Seq<Note>) -> bool {
    forall|i: int| 0 <= i < notes.len() ==> (#[trigger] notes[i]).on_grid()
}

/// Extracts the notes and the tempo of a decoded file.
pub fn extract_notes(file: &MidiFile, names: &InstrumentNames) -> (r: Result<
    (Vec<Note>, u32),
    ExtractError,
>)
    ensures
        extraction_of(file@, *names, r),
        r matches Ok((notes, _)) ==> all_on_grid(notes@) && no_adjacent_duplicates(notes@),
{
    let ticks_per_beat = match file.ticks_per_beat {
        None => {
            return Err(ExtractError::UnsupportedTiming);
        },
        Some(t) => t,
    };
    let ghost all = file@.tracks;
    let ghost tpb = ticks_per_beat as int;
    let bpm = detect_bpm(&file.tracks);
    let mut raw: Vec<Note> = Vec::new();
    let mut t: usize = 0;
    while t < file.tracks.len()
        invariant
            t <= file.tracks.len(),
            tpb == ticks_per_beat as int,
            file.ticks_per_beat == Some(ticks_per_beat),
            all == event_seqs(file.tracks@),
            bpm == detected_bpm(all),
            raw@ == file_notes(all, t as int, tpb, *names),
            forall|u: int| 0 <= u < t ==> track_fits(#[trigger] all[u], all[u].len() as int, tpb),
        decreases file.tracks.len() - t,
    {
        assert(all[t as int] == file.tracks@[t as int]@);
        let ok = extract_track(&file.tracks[t], ticks_per_beat, names, &mut raw);
        if !ok {
            assert(!track_fits(all[t as int], all[t as int].len() as int, tpb));
            if ticks_per_beat == 0 {
                return Err(ExtractError::ZeroResolution);
            }
            return Err(ExtractError::TickOverflow);
        }
        t = t + 1;
    }
    let sorted = sort_notes(raw, NoteOrder::StartThenPitchDescending);
    let notes = deduplicate(&sorted);
    proof {
        lemma_extracted_on_grid(file@, *names);
    }
    Ok((notes, bpm))
}

/// A quantised span starts on a grid line and lasts a whole number of grid
/// units, one at least.
pub proof fn lemma_quantized(start: int, duration: int, ticks_per_beat: int)
    requires
        start >= 0,
        duration >= 0,
        ticks_per_beat > 0,
    ensures
        quantized(start, duration, ticks_per_beat).start >= 0,
        quantized(start, duration, ticks_per_beat).start % 24 == 0,
        quantized(start, duration, ticks_per_beat).duration >= 24,
        quantized(start, duration, ticks_per_beat).duration % 24 == 0,
{
    let s = rescaled(start, ticks_per_beat);
    let d = rescaled(duration, ticks_per_beat);
    assert(s >= 0 && d >= 0) by (nonlinear_arith)
        requires
            start >= 0,
            duration >= 0,
            ticks_per_beat > 0,
            s == if ticks_per_beat == 384 {
                start
            } else {
                (start * 768 + ticks_per_beat) / (2 * ticks_per_beat)
            },
            d == if ticks_per_beat == 384 {
                duration
            } else {
                (duration * 768 + ticks_per_beat) / (2 * ticks_per_beat)
            },
    ;
}

/// The notes that a track completes lie on the grid, if they fit.
pub proof fn lemma_track_notes_on_grid(
    track: Seq<MidiEvent>,
    n: int,
    ticks_per_beat: int,
    names: InstrumentNames,
)
    requires
        0 <= n <= track.len(),
        track_fits(track, n, ticks_per_beat),
    ensures
        all_on_grid(track_notes(track, n, ticks_per_beat, names)),
    decreases n,
{
    if n > 0 {
        assert forall|i: int| 0 <= i < n - 1 implies (#[trigger] finished_at(
            track,
            i,
            ticks_per_beat,
        ) matches Some(f) ==> ticks_per_beat > 0 && fits(f)) by {}
        lemma_track_notes_on_grid(track, n - 1, ticks_per_beat, names);
        let prev = track_notes(track, n - 1, ticks_per_beat, names);
        let cur = track_notes(track, n, ticks_per_beat, names);
        match finished_at(track, n - 1, ticks_per_beat) {
            Some(f) => {
                let (channel, key) = released(track[n - 1].kind).unwrap();
                let h = held_after(track, n - 1, channel, key).unwrap();
                lemma_ticks(track, n - 1, channel, key);
                lemma_ticks(track, n, channel, key);
                lemma_quantized(h.start, tick_after(track, n) - h.start, ticks_per_beat);
                assert(fits(f));
                assert(as_note(f, names).on_grid());
                assert forall|i: int| 0 <= i < cur.len() implies (#[trigger] cur[i]).on_grid() by {
                    if i < prev.len() {
                        assert(cur[i] == prev[i]);
                    }
                }
            },
            None => {},
        }
    }
}

/// The notes that the tracks of a file complete lie on the grid, if they
/// fit.
pub proof fn lemma_file_notes_on_grid(
    tracks: Seq<Seq<MidiEvent>>,
    n: int,
    ticks_per_beat: int,
    names: InstrumentNames,
)
    requires
        0 <= n <= tracks.len(),
        file_fits(tracks, ticks_per_beat),
    ensures
        all_on_grid(file_notes(tracks, n, ticks_per_beat, names)),
    decreases n,
{
    if n > 0 {
        lemma_file_notes_on_grid(tracks, n - 1, ticks_per_beat, names);
        let track = tracks[n - 1];
        lemma_track_notes_on_grid(track, track.len() as int, ticks_per_beat, names);
        let prev = file_notes(tracks, n - 1, ticks_per_beat, names);
        let more = track_notes(track, track.len() as int, ticks_per_beat, names);
        let cur = file_notes(tracks, n, ticks_per_beat, names);
        assert forall|i: int| 0 <= i < cur.len() implies (#[trigger] cur[i]).on_grid() by {
            if i < prev.len() {
                assert(cur[i] == prev[i]);
            } else {
                assert(cur[i] == more[i - prev.len()]);
            }
        }
    }
}

/// Every note that is extracted from a file starts and ends on a grid line
/// and lasts one grid unit at least, and no two neighbours in the list
/// share a start and a pitch.
pub proof fn lemma_extracted_on_grid(file: MidiFileView, names: InstrumentNames)
    requires
        extraction_failure(file) is None,
    ensures
        all_on_grid(file_extract(file, names)),
        no_adjacent_duplicates(file_extract(file, names)),
{
    let tpb = file.ticks_per_beat.unwrap() as int;
    let raw = file_notes(file.tracks, file.tracks.len() as int, tpb, names);
    let sorted = stable_sorted(raw, NoteOrder::StartThenPitchDescending);
    let notes = file_extract(file, names);
    lemma_file_notes_on_grid(file.tracks, file.tracks.len() as int, tpb, names);
    lemma_stable_sorted(raw, NoteOrder::StartThenPitchDescending);
    lemma_deduplicated(sorted);
    assert forall|i: int| 0 <= i < notes.len() implies (#[trigger] notes[i]).on_grid() by {
        let y = notes[i];
        assert(notes.contains(y));
        assert(sorted.contains(y));
        assert(raw.contains(y));
        let k = choose|k: int| 0 <= k < raw.len() && raw[k] == y;
        assert(raw[k].on_grid());
    }
}

/// No event of the file releases a key that is down.
pub open spec fn completes_nothing(tracks: Seq<Seq<MidiEvent>>, ticks_per_beat: int) -> bool {
    forall|t: int, i: int|
        0 <= t < tracks.len() && 0 <= i < tracks[t].len() ==> #[trigger] finished_at(
            tracks[t],
            i,
            ticks_per_beat,
        ) is None
}

/// A track that completes no note yields no note.
pub proof fn lemma_silent_track(
    track: Seq<MidiEvent>,
    n: int,
    ticks_per_beat: int,
    names: InstrumentNames,
)
    requires
        0 <= n <= track.len(),
        forall|i: int| 0 <= i < n ==> #[trigger] finished_at(track, i, ticks_per_beat) is None,
    ensures
        track_notes(track, n, ticks_per_beat, names).len() == 0,
    decreases n,
{
    if n > 0 {
        lemma_silent_track(track, n - 1, ticks_per_beat, names);
        assert(finished_at(track, n - 1, ticks_per_beat) is None);
    }
}

/// Tracks that complete no note yield no note.
pub proof fn lemma_silent_tracks(
    tracks: Seq<Seq<MidiEvent>>,
    n: int,
    ticks_per_beat: int,
    names: InstrumentNames,
)
    requires
        0 <= n <= tracks.len(),
        completes_nothing(tracks, ticks_per_beat),
    ensures
        file_notes(tracks, n, ticks_per_beat, names).len() == 0,
    decreases n,
{
    if n > 0 {
        lemma_silent_tracks(tracks, n - 1, ticks_per_beat, names);
        let track = tracks[n - 1];
        assert forall|i: int| 0 <= i < track.len() implies #[trigger] finished_at(
            track,
            i,
            ticks_per_beat,
        ) is None by {
            assert(finished_at(tracks[n - 1], i, ticks_per_beat) is None);
        }
        lemma_silent_track(track, track.len() as int, ticks_per_beat, names);
    }
}

/// A file that counts in ticks per beat and completes no note is extracted
/// without a failure, whatever its resolution, and yields an empty list.
pub proof fn lemma_no_notes_no_failure(file: MidiFileView, names: InstrumentNames)
    requires
        file.ticks_per_beat is Some,
        completes_nothing(file.tracks, file.ticks_per_beat.unwrap() as int),
    ensures
        extraction_failure(file) is None,
        file_extract(file, names).len() == 0,
{
    let tpb = file.ticks_per_beat.unwrap() as int;
    assert forall|t: int| 0 <= t < file.tracks.len() implies track_fits(
        #[trigger] file.tracks[t],
        file.tracks[t].len() as int,
        tpb,
    ) by {
        assert forall|i: int| 0 <= i < file.tracks[t].len() implies (#[trigger] finished_at(
            file.tracks[t],
            i,
            tpb,
        ) matches Some(f) ==> tpb > 0 && fits(f)) by {}
    }
    lemma_silent_tracks(file.tracks, file.tracks.len() as int, tpb, names);
    let raw = file_notes(file.tracks, file.tracks.len() as int, tpb, names);
    assert(raw =~= Seq::<Note>::empty());
}

} // verus!
