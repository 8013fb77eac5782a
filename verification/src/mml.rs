//! The notation text of one voice.

use crate::lengths::{
    best_length, find_best_length, lemma_best_length, total_ticks, Length,
};
use crate::note::Note;
use crate::text::{append_decimal, append_signed, decimal, signed_decimal};
use vstd::prelude::*;
use vstd::string::StringExecFns;

verus! {

/// Name of a pitch within its octave; a sharp is written with a plus sign.
pub open spec fn note_name(pitch: u8) -> Seq<char> {
    let step = pitch as int % 12;
    if step == 0 {
        seq!['C']
    } else if step == 1 {
        seq!['C', '+']
    } else if step == 2 {
        seq!['D']
    } else if step == 3 {
        seq!['D', '+']
    } else if step == 4 {
        seq!['E']
    } else if step == 5 {
        seq!['F']
    } else if step == 6 {
        seq!['F', '+']
    } else if step == 7 {
        seq!['G']
    } else if step == 8 {
        seq!['G', '+']
    } else if step == 9 {
        seq!['A']
    } else if step == 10 {
        seq!['A', '+']
    } else {
        seq!['B']
    }
}

/// Name of a pitch within its octave.
fn note_symbol(pitch: u8) -> (s: &'static str)
    ensures
        s@ == note_name(pitch),
{
    proof {
        reveal_strlit("C");
        reveal_strlit("C+");
        reveal_strlit("D");
        reveal_strlit("D+");
        reveal_strlit("E");
        reveal_strlit("F");
        reveal_strlit("F+");
        reveal_strlit("G");
        reveal_strlit("G+");
        reveal_strlit("A");
        reveal_strlit("A+");
        reveal_strlit("B");
    }
    let s = match pitch % 12 {
        0 => "C",
        1 => "C+",
        2 => "D",
        3 => "D+",
        4 => "E",
        5 => "F",
        6 => "F+",
        7 => "G",
        8 => "G+",
        9 => "A",
        10 => "A+",
        _ => "B",
    };
    assert(s@ =~= note_name(pitch));
    s
}

/// Name and octave of a MIDI pitch: twelve pitches to the octave, and pitch
/// 60 is the C of octave 4.
pub fn midi_to_note_name(midi_note: u8) -> (r: (String, i32))
    ensures
        r.0@ == note_name(midi_note),
        r.1 == midi_note as int / 12 - 1,
{
    let octave: i32 = (midi_note / 12) as i32 - 1;
    (String::from_str(note_symbol(midi_note)), octave)
}

/// A length as the notation writes it: its denominator, and a dot if it is
/// dotted.
pub open spec fn length_text(l: Length) -> Seq<char> {
    if l.dotted {
        decimal(l.denominator as nat).push('.')
    } else {
        decimal(l.denominator as nat)
    }
}

/// One token: the symbol and its length. The length is left out where it is
/// the voice's default length, undotted.
pub open spec fn token_text(symbol: Seq<char>, l: Length, default_length: u8) -> Seq<char> {
    if !l.dotted && l.denominator == default_length {
        symbol
    } else {
        symbol + length_text(l)
    }
}

/// A chain of tokens for one symbol, tied together with `&`.
pub open spec fn chain_text(symbol: Seq<char>, chain: Seq<Length>, default_length: u8) -> Seq<char>
    decreases chain.len(),
{
    if chain.len() == 0 {
        Seq::empty()
    } else if chain.len() == 1 {
        token_text(symbol, chain[0], default_length)
    } else {
        chain_text(symbol, chain.drop_last(), default_length).push('&') + token_text(
            symbol,
            chain.last(),
            default_length,
        )
    }
}

/// How far the text of a voice has come: what is written, the tick that the
/// written tokens reach, and the octave that the player is in.
pub struct Cursor {
    pub text: Seq<char>,
    pub tick: int,
    pub octave: int,
}

/// The rest that fills the time from the cursor to the start of a note:
/// spelled like a note of octave 4, and nothing where the note starts at the
/// cursor or before it.
pub open spec fn rest_chain(tick: int, n: Note, compress_mode: bool) -> Seq<Length> {
    if n.start as int > tick {
        best_length(n.start as int - tick, 4, compress_mode)
    } else {
        Seq::empty()
    }
}

/// The octave token that brings the player to a note's octave, where it is
/// not there already.
pub open spec fn octave_shift(octave: int, n: Note) -> Seq<char> {
    if n.spec_octave() != octave {
        seq!['O'] + signed_decimal(n.spec_octave())
    } else {
        Seq::empty()
    }
}

/// The cursor after one more note: a rest up to the note's start, a change
/// of octave where the note needs one, and the tokens of the note itself.
pub open spec fn emit_note(c: Cursor, n: Note, default_length: u8, compress_mode: bool) -> Cursor {
    let rest = rest_chain(c.tick, n, compress_mode);
    let chain = best_length(n.duration as int, n.spec_octave(), compress_mode);
    Cursor {
        text: c.text + chain_text(seq!['R'], rest, default_length) + octave_shift(c.octave, n)
            + chain_text(note_name(n.note), chain, default_length),
        tick: c.tick + total_ticks(rest) + total_ticks(chain),
        octave: n.spec_octave(),
    }
}

/// The cursor after the first `n` notes.
pub open spec fn emit_notes(
    notes: Seq<Note>,
    n: int,
    start: Cursor,
    default_length: u8,
    compress_mode: bool,
) -> Cursor
    decreases n,
{
    if n <= 0 {
        start
    } else {
        emit_note(
            emit_notes(notes, n - 1, start, default_length, compress_mode),
            notes[n - 1],
            default_length,
            compress_mode,
        )
    }
}

/// Denominator of the first length that a note is spelled with.
pub open spec fn primary(n: Note, compress_mode: bool) -> u8 {
    best_length(n.duration as int, n.spec_octave(), compress_mode)[0].denominator
}

/// How many of the first `n` notes have `d` as their primary denominator.
pub open spec fn count_primary(notes: Seq<Note>, n: int, compress_mode: bool, d: u8) -> int
    decreases n,
{
    if n <= 0 {
        0
    } else {
        count_primary(notes, n - 1, compress_mode, d) + if primary(notes[n - 1], compress_mode)
            == d {
            1int
        } else {
            0int
        }
    }
}

/// The length that tokens of a voice may leave out: the eighth if a note of
/// the voice starts with one, else the sixteenth, else the quarter, on the
/// same condition; else the length that most notes start with, the longer
/// of two that are equally frequent; the eighth for a voice without notes.
pub open spec fn default_length(notes: Seq<Note>, compress_mode: bool) -> u8 {
    let n = notes.len() as int;
    let c1 = count_primary(notes, n, compress_mode, 1);
    let c2 = count_primary(notes, n, compress_mode, 2);
    let c32 = count_primary(notes, n, compress_mode, 32);
    let c64 = count_primary(notes, n, compress_mode, 64);
    if count_primary(notes, n, compress_mode, 8) > 0 {
        8
    } else if count_primary(notes, n, compress_mode, 16) > 0 {
        16
    } else if count_primary(notes, n, compress_mode, 4) > 0 {
        4
    } else if c1 == 0 && c2 == 0 && c32 == 0 && c64 == 0 {
        8
    } else if c1 >= c2 && c1 >= c32 && c1 >= c64 {
        1
    } else if c2 >= c32 && c2 >= c64 {
        2
    } else if c32 >= c64 {
        32
    } else {
        64
    }
}

/// The head of a voice: tempo, full volume, the octave to start in, and the
/// default length.
pub open spec fn header(bpm: u32, start_octave: i32, default_length: u8) -> Seq<char> {
    seq!['T'] + decimal(bpm as nat) + seq!['V', '1', '5'] + seq!['O'] + signed_decimal(
        start_octave as int,
    ) + seq!['L'] + decimal(default_length as nat)
}

/// The notation text of a voice: nothing for a voice without notes, else
/// the head and the tokens of its notes one after the other.
pub open spec fn mml_text(notes: Seq<Note>, bpm: u32, start_octave: i32, compress_mode: bool) -> Seq<
    char,
> {
    if notes.len() == 0 {
        Seq::empty()
    } else {
        let d = default_length(notes, compress_mode);
        emit_notes(
            notes,
            notes.len() as int,
            Cursor { text: header(bpm, start_octave, d), tick: 0, octave: start_octave as int },
            d,
            compress_mode,
        ).text
    }
}

/// Appends a chain of tokens for one symbol and says how many ticks the
/// chain lasts.
fn append_chain(out: &mut String, symbol: &str, chain: &Vec<Length>, default_length: u8) -> (ticks:
    u128)
    ensures
        final(out)@ == old(out)@ + chain_text(symbol@, chain@, default_length),
        ticks == total_ticks(chain@),
        ticks <= chain@.len() * 2304,
{
    let ghost before = out@;
    let mut ticks: u128 = 0;
    let mut k: usize = 0;
    while k < chain.len()
        invariant
            k <= chain@.len(),
            out@ == before + chain_text(symbol@, chain@.take(k as int), default_length),
            ticks == total_ticks(chain@.take(k as int)),
            ticks <= k * 2304,
        decreases chain.len() - k,
    {
        let l = chain[k];
        let ghost written = out@;
        proof {
            assert(chain@.take(k as int + 1).drop_last() =~= chain@.take(k as int));
            assert(chain@.take(k as int + 1).last() == l);
            reveal_strlit("&");
            reveal_strlit(".");
        }
        if k > 0 {
            out.append("&");
        }
        out.append(symbol);
        if l.dotted || l.denominator != default_length {
            append_decimal(out, l.denominator as u64);
            if l.dotted {
                out.append(".");
            }
        }
        ticks = ticks + l.ticks() as u128;
        proof {
            let head = chain_text(symbol@, chain@.take(k as int), default_length);
            let token = token_text(symbol@, l, default_length);
            if k > 0 {
                assert(out@ =~= before + (head.push('&') + token));
            } else {
                assert(head =~= Seq::<char>::empty());
                assert(chain@.take(k as int + 1)[0] == l);
                assert(out@ =~= before + token);
            }
        }
        k = k + 1;
    }
    proof {
        assert(chain@.take(chain@.len() as int) =~= chain@);
    }
    ticks
}

/// Octave of a pitch.
fn octave_of(pitch: u8) -> (o: i32)
    ensures
        o == pitch as int / 12 - 1,
{
    (pitch / 12) as i32 - 1
}

/// Picks the default length of a voice.
fn choose_default_length(notes: &[Note], compress_mode: bool) -> (d: u8)
    ensures
        d == default_length(notes@, compress_mode),
{
    let mut c1: usize = 0;
    let mut c2: usize = 0;
    let mut c4: usize = 0;
    let mut c8: usize = 0;
    let mut c16: usize = 0;
    let mut c32: usize = 0;
    let mut c64: usize = 0;
    let mut i: usize = 0;
    while i < notes.len()
        invariant
            i <= notes@.len(),
            c1 == count_primary(notes@, i as int, compress_mode, 1),
            c2 == count_primary(notes@, i as int, compress_mode, 2),
            c4 == count_primary(notes@, i as int, compress_mode, 4),
            c8 == count_primary(notes@, i as int, compress_mode, 8),
            c16 == count_primary(notes@, i as int, compress_mode, 16),
            c32 == count_primary(notes@, i as int, compress_mode, 32),
            c64 == count_primary(notes@, i as int, compress_mode, 64),
            c1 <= i && c2 <= i && c4 <= i && c8 <= i && c16 <= i && c32 <= i && c64 <= i,
        decreases notes.len() - i,
    {
        let chain = find_best_length(notes[i].duration, octave_of(notes[i].note), compress_mode);
        let d = chain[0].denominator;
        if d == 1 {
            c1 = c1 + 1;
        } else if d == 2 {
            c2 = c2 + 1;
        } else if d == 4 {
            c4 = c4 + 1;
        } else if d == 8 {
            c8 = c8 + 1;
        } else if d == 16 {
            c16 = c16 + 1;
        } else if d == 32 {
            c32 = c32 + 1;
        } else if d == 64 {
            c64 = c64 + 1;
        }
        i = i + 1;
    }
    if c8 > 0 {
        8
    } else if c16 > 0 {
        16
    } else if c4 > 0 {
        4
    } else if c1 == 0 && c2 == 0 && c32 == 0 && c64 == 0 {
        8
    } else if c1 >= c2 && c1 >= c32 && c1 >= c64 {
        1
    } else if c2 >= c32 && c2 >= c64 {
        2
    } else if c32 >= c64 {
        32
    } else {
        64
    }
}

/// Writes the notation text of one voice. The notes are taken in the order
/// given; a voice without notes gives no text at all.
pub fn generate_mml_final(voice_notes: &[Note], bpm: u32, start_octave: i32, compress_mode: bool) -> (mml:
    String)
    ensures
        mml@ == mml_text(voice_notes@, bpm, start_octave, compress_mode),
{
    let mut out = String::new();
    if voice_notes.len() == 0 {
        return out;
    }
    let default = choose_default_length(voice_notes, compress_mode);
    proof {
        reveal_strlit("T");
        reveal_strlit("V15");
        reveal_strlit("O");
        reveal_strlit("L");
    }
    out.append("T");
    append_decimal(&mut out, bpm as u64);
    out.append("V15");
    out.append("O");
    append_signed(&mut out, start_octave);
    out.append("L");
    append_decimal(&mut out, default as u64);
    assert(out@ =~= header(bpm, start_octave, default));
    let ghost start = Cursor { text: out@, tick: 0, octave: start_octave as int };
    let mut tick: u128 = 0;
    let mut octave: i32 = start_octave;
    let mut i: usize = 0;
    while i < voice_notes.len()
        invariant
            i <= voice_notes@.len(),
            tick <= i * 0x4_0000_0000,
            (Cursor { text: out@, tick: tick as int, octave: octave as int }) == emit_notes(
                voice_notes@,
                i as int,
                start,
                default,
                compress_mode,
            ),
        decreases voice_notes.len() - i,
    {
        let note = &voice_notes[i];
        let ghost before = Cursor { text: out@, tick: tick as int, octave: octave as int };
        let ghost rest_model = rest_chain(tick as int, *note, compress_mode);
        proof {
            reveal_strlit("O");
            reveal_strlit("R");
        }
        let mut rest_ticks: u128 = 0;
        if note.start as u128 > tick {
            let gap: u32 = (note.start as u128 - tick) as u32;
            let rest = find_best_length(gap, 4, compress_mode);
            proof {
                lemma_best_length(gap as int, 4, compress_mode);
            }
            assert("R"@ =~= seq!['R']);
            rest_ticks = append_chain(&mut out, "R", &rest, default);
        } else {
            proof {
                assert(out@ + chain_text(seq!['R'], rest_model, default) =~= out@);
            }
        }
        let ghost after_rest = out@;
        assert(after_rest == before.text + chain_text(seq!['R'], rest_model, default));
        assert(rest_ticks == total_ticks(rest_model));
        let note_octave = octave_of(note.note);
        if note_octave != octave {
            out.append("O");
            append_signed(&mut out, note_octave);
            octave = note_octave;
        }
        proof {
            assert(out@ =~= after_rest + octave_shift(before.octave, *note));
            lemma_best_length(note.duration as int, note_octave as int, compress_mode);
        }
        let chain = find_best_length(note.duration, note_octave, compress_mode);
        let chain_ticks = append_chain(&mut out, note_symbol(note.note), &chain, default);
        tick = tick + rest_ticks + chain_ticks;
        proof {
            let next = emit_note(before, *note, default, compress_mode);
            assert(out@ =~= next.text);
            assert(tick == next.tick);
        }
        i = i + 1;
    }
    out
}

} // verus!
