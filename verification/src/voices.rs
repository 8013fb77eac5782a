//! Distribution of a note list over six monophonic voices.

use crate::note::{non_overlapping, Note};
use crate::sort::{
    lemma_of_rank_stretch, lemma_sort_is_stable, lemma_stable_sorted, of_rank, ordered, sort_key,
    sort_notes, stable_sorted, NoteOrder,
};
use vstd::prelude::*;

verus! {

/// Number of voices that an allocation fills.
pub const VOICE_COUNT: usize = 6;

/// How far, in semitones, the melody may move and still be followed.
pub const MELODY_REACH: u8 = 12;

/// The voices filled so far, and the pitch that the first voice took last.
pub struct Allocation {
    pub voices: Seq<Seq<Note>>,
    pub melody: Option<u8>,
}

/// The notes of each voice as sequences.
pub open spec fn voice_seqs(voices: Seq<Vec<Note>>) -> Seq<Seq<Note>> {
    Seq::new(voices.len(), |v: int| voices[v]@)
}

/// Six empty voices and no melody yet.
pub open spec fn empty_allocation() -> Allocation {
    Allocation { voices: Seq::new(6, |v: int| Seq::<Note>::empty()), melody: None }
}

/// The voice is free when the note starts: it is empty or its last note has
/// ended by then.
pub open spec fn accepts(voice: Seq<Note>, n: Note) -> bool {
    voice.len() == 0 || voice.last().end <= n.start
}

/// The first voice from `from` on that is free for the note.
pub open spec fn first_free(voices: Seq<Seq<Note>>, n: Note, from: int) -> Option<int>
    decreases voices.len() - from,
{
    if from < 0 || from >= voices.len() {
        None
    } else if accepts(voices[from], n) {
        Some(from)
    } else {
        first_free(voices, n, from + 1)
    }
}

/// The note goes to the first voice that is free for it, and is dropped
/// where none is. A note that goes to the first voice sets the melody pitch.
pub open spec fn place(a: Allocation, n: Note) -> Allocation {
    match first_free(a.voices, n, 0) {
        Some(v) => Allocation {
            voices: a.voices.update(v, a.voices[v].push(n)),
            melody: if v == 0 {
                Some(n.note)
            } else {
                a.melody
            },
        },
        None => a,
    }
}

/// The notes placed one after the other.
pub open spec fn place_all(a: Allocation, notes: Seq<Note>) -> Allocation
    decreases notes.len(),
{
    if notes.len() == 0 {
        a
    } else {
        place(place_all(a, notes.drop_last()), notes.last())
    }
}

/// The pitch lies within an octave of the last melody pitch.
pub open spec fn is_close(pitch: u8, last: u8) -> bool {
    pitch as int - last as int <= 12 && last as int - pitch as int <= 12
}

/// Among the first `n` notes, the highest of those close to the last melody
/// pitch; of several equally high ones the last.
pub open spec fn best_close(s: Seq<Note>, last: u8, n: int) -> Option<int>
    decreases n,
{
    if n <= 0 {
        None
    } else {
        let prev = best_close(s, last, n - 1);
        if is_close(s[n - 1].note, last) && (prev matches Some(p) ==> s[n - 1].note >= s[p].note) {
            Some(n - 1)
        } else {
            prev
        }
    }
}

/// Which note of a chord, given by falling pitch, carries the melody: the
/// highest one within an octave of the last melody pitch; the highest of all
/// where there is none, or no melody yet.
pub open spec fn melody_index(s: Seq<Note>, melody: Option<u8>) -> int {
    match melody {
        Some(last) => match best_close(s, last, s.len() as int) {
            Some(i) => i,
            None => 0,
        },
        None => 0,
    }
}

/// Those of the first `n` notes whose pitch is neither `a` nor `b`.
pub open spec fn others(s: Seq<Note>, n: int, a: u8, b: u8) -> Seq<Note>
    decreases n,
{
    if n <= 0 {
        Seq::empty()
    } else if s[n - 1].note != a && s[n - 1].note != b {
        others(s, n - 1, a, b).push(s[n - 1])
    } else {
        others(s, n - 1, a, b)
    }
}

/// The order in which the notes of one moment are placed: the melody, the
/// bass if it is another pitch, then the rest from loud to soft.
pub open spec fn priority_list(group: Seq<Note>, melody: Option<u8>) -> Seq<Note>
    recommends
        group.len() > 0,
{
    let s = stable_sorted(group, NoteOrder::PitchDescending);
    let m = s[melody_index(s, melody)];
    let b = s.last();
    let rest = stable_sorted(
        others(s, s.len() as int, m.note, b.note),
        NoteOrder::VelocityDescending,
    );
    if b.note != m.note {
        seq![m, b] + rest
    } else {
        seq![m] + rest
    }
}

/// Index behind the last of the notes that follow note `i` directly and
/// start when it starts.
pub open spec fn group_end(s: Seq<Note>, i: int) -> int
    decreases s.len() - i,
{
    if 0 <= i && i + 1 < s.len() && s[i + 1].start == s[i].start {
        group_end(s, i + 1)
    } else {
        i + 1
    }
}

/// The allocation after the notes from index `i` on, given by start, have
/// been placed moment by moment.
pub open spec fn allocate_from(s: Seq<Note>, i: int, a: Allocation) -> Allocation
    decreases s.len() - i,
{
    if i < 0 || i >= s.len() {
        a
    } else {
        let j = group_end(s, i);
        if j <= i || j > s.len() {
            a
        } else {
            allocate_from(s, j, place_all(a, priority_list(s.subrange(i, j), a.melody)))
        }
    }
}

/// The six voices that a note list is distributed over.
pub open spec fn allocated(notes: Seq<Note>) -> Seq<Seq<Note>> {
    allocate_from(stable_sorted(notes, NoteOrder::Start), 0, empty_allocation()).voices
}

/// Every voice is free of overlaps and holds only notes of `source`.
pub open spec fn sound(voices: Seq<Seq<Note>>, source: Seq<Note>) -> bool {
    &&& voices.len() == 6
    &&& forall|v: int| 0 <= v < 6 ==> non_overlapping(#[trigger] voices[v])
    &&& forall|v: int, i: int|
        0 <= v < 6 && 0 <= i < voices[v].len() ==> source.contains(#[trigger] voices[v][i])
}

/// The best close note, where there is one, is one of the notes looked at.
pub proof fn lemma_best_close(s: Seq<Note>, last: u8, n: int)
    requires
        0 <= n <= s.len(),
    ensures
        best_close(s, last, n) matches Some(i) ==> 0 <= i < n,
    decreases n,
{
    if n > 0 {
        lemma_best_close(s, last, n - 1);
    }
}

/// The notes picked out are notes of the sequence.
pub proof fn lemma_others(s: Seq<Note>, n: int, a: u8, b: u8)
    requires
        0 <= n <= s.len(),
    ensures
        others(s, n, a, b).len() <= n,
        forall|y: Note| #[trigger] others(s, n, a, b).contains(y) ==> s.contains(y),
    decreases n,
{
    if n > 0 {
        lemma_others(s, n - 1, a, b);
        let prev = others(s, n - 1, a, b);
        let cur = others(s, n, a, b);
        assert forall|y: Note| #[trigger] cur.contains(y) implies s.contains(y) by {
            let i = choose|i: int| 0 <= i < cur.len() && cur[i] == y;
            if i < prev.len() {
                assert(prev[i] == y);
                assert(prev.contains(y));
            } else {
                assert(s[n - 1] == y);
            }
        }
    }
}

/// Every note of a priority list is a note of the group it was made from.
pub proof fn lemma_priority_list(group: Seq<Note>, melody: Option<u8>)
    requires
        group.len() > 0,
    ensures
        forall|y: Note| #[trigger] priority_list(group, melody).contains(y) ==> group.contains(y),
{
    let s = stable_sorted(group, NoteOrder::PitchDescending);
    lemma_stable_sorted(group, NoteOrder::PitchDescending);
    let mi = melody_index(s, melody);
    if let Some(last) = melody {
        lemma_best_close(s, last, s.len() as int);
    }
    let m = s[mi];
    let b = s.last();
    let o = others(s, s.len() as int, m.note, b.note);
    lemma_others(s, s.len() as int, m.note, b.note);
    let rest = stable_sorted(o, NoteOrder::VelocityDescending);
    lemma_stable_sorted(o, NoteOrder::VelocityDescending);
    let p = priority_list(group, melody);
    assert(s.contains(m));
    assert(s.contains(b));
    assert forall|y: Note| #[trigger] p.contains(y) implies group.contains(y) by {
        let i = choose|i: int| 0 <= i < p.len() && p[i] == y;
        if y != m && y != b {
            if b.note != m.note {
                assert(rest[i - 2] == y);
            } else {
                assert(rest[i - 1] == y);
            }
            assert(rest.contains(y));
            assert(o.contains(y));
            assert(s.contains(y));
        }
    }
}

/// The end of a group lies behind its first note and within the sequence.
pub proof fn lemma_group_end(s: Seq<Note>, i: int)
    requires
        0 <= i < s.len(),
    ensures
        i < group_end(s, i) <= s.len(),
    decreases s.len() - i,
{
    if i + 1 < s.len() && s[i + 1].start == s[i].start {
        lemma_group_end(s, i + 1);
    }
}

/// Within a group every note starts when the first one starts, and the
/// note behind the group, if there is one, starts at another tick.
pub proof fn lemma_group_starts(s: Seq<Note>, i: int)
    requires
        0 <= i < s.len(),
    ensures
        forall|k: int| i <= k < group_end(s, i) ==> (#[trigger] s[k]).start == s[i].start,
        group_end(s, i) < s.len() ==> s[group_end(s, i)].start != s[i].start,
    decreases s.len() - i,
{
    lemma_group_end(s, i);
    if i + 1 < s.len() && s[i + 1].start == s[i].start {
        lemma_group_starts(s, i + 1);
    }
}

/// The notes that are placed together are the notes of one moment: a group
/// that begins where the start tick changes holds every note of the list
/// that starts at its tick, in the order in which the list has them.
pub proof fn lemma_group_is_moment(notes: Seq<Note>, i: int)
    requires
        0 <= i < notes.len(),
        i == 0 || stable_sorted(notes, NoteOrder::Start)[i - 1].start != stable_sorted(
            notes,
            NoteOrder::Start,
        )[i].start,
    ensures
        ({
            let s = stable_sorted(notes, NoteOrder::Start);
            s.subrange(i, group_end(s, i)) == of_rank(notes, NoteOrder::Start, s[i].start as int)
        }),
{
    let s = stable_sorted(notes, NoteOrder::Start);
    lemma_stable_sorted(notes, NoteOrder::Start);
    lemma_group_end(s, i);
    lemma_group_starts(s, i);
    let j = group_end(s, i);
    let rank = s[i].start as int;
    assert forall|k: int| 0 <= k < i implies sort_key(NoteOrder::Start, #[trigger] s[k])
        != rank by {
        assert(sort_key(NoteOrder::Start, s[k]) <= sort_key(NoteOrder::Start, s[i - 1]));
        assert(sort_key(NoteOrder::Start, s[i - 1]) <= sort_key(NoteOrder::Start, s[i]));
    }
    assert forall|k: int| j <= k < s.len() implies sort_key(NoteOrder::Start, #[trigger] s[k])
        != rank by {
        assert(sort_key(NoteOrder::Start, s[i]) <= sort_key(NoteOrder::Start, s[j]));
        if k > j {
            assert(sort_key(NoteOrder::Start, s[j]) <= sort_key(NoteOrder::Start, s[k]));
        }
    }
    lemma_of_rank_stretch(s, NoteOrder::Start, rank, i, j);
    lemma_sort_is_stable(notes, NoteOrder::Start, rank);
}

/// Placing a note keeps an allocation sound.
pub proof fn lemma_place(a: Allocation, n: Note, source: Seq<Note>)
    requires
        sound(a.voices, source),
        source.contains(n),
    ensures
        sound(place(a, n).voices, source),
{
    lemma_first_free(a.voices, n, 0);
    let r = place(a, n);
    match first_free(a.voices, n, 0) {
        Some(v) => {
            let old_voice = a.voices[v];
            let new_voice = old_voice.push(n);
            assert forall|w: int| 0 <= w < 6 implies non_overlapping(#[trigger] r.voices[w]) by {
                if w == v {
                    assert forall|i: int| 0 <= i < new_voice.len() - 1 implies (
                    #[trigger] new_voice[i]).end <= new_voice[i + 1].start by {
                        if i + 1 < old_voice.len() {
                            assert(old_voice[i].end <= old_voice[i + 1].start);
                        }
                    }
                } else {
                    assert(r.voices[w] == a.voices[w]);
                }
            }
            assert forall|w: int, i: int|
                0 <= w < 6 && 0 <= i < r.voices[w].len() implies source.contains(
                #[trigger] r.voices[w][i],
            ) by {
                if w == v {
                    if i < old_voice.len() {
                        assert(new_voice[i] == a.voices[v][i]);
                    }
                } else {
                    assert(r.voices[w][i] == a.voices[w][i]);
                }
            }
        },
        None => {},
    }
}

/// The first free voice, where there is one, is a voice that is free, and
/// no voice before it is.
pub proof fn lemma_first_free(voices: Seq<Seq<Note>>, n: Note, from: int)
    requires
        0 <= from <= voices.len(),
    ensures
        match first_free(voices, n, from) {
            Some(v) => from <= v < voices.len() && accepts(voices[v], n) && forall|w: int|
                from <= w < v ==> !accepts(#[trigger] voices[w], n),
            None => forall|w: int| from <= w < voices.len() ==> !accepts(#[trigger] voices[w], n),
        },
    decreases voices.len() - from,
{
    if from < voices.len() && !accepts(voices[from], n) {
        lemma_first_free(voices, n, from + 1);
    }
}

/// Placing notes of the source one after the other keeps an allocation
/// sound.
pub proof fn lemma_place_all(a: Allocation, notes: Seq<Note>, source: Seq<Note>)
    requires
        sound(a.voices, source),
        forall|y: Note| #[trigger] notes.contains(y) ==> source.contains(y),
    ensures
        sound(place_all(a, notes).voices, source),
    decreases notes.len(),
{
    if notes.len() > 0 {
        let t = notes.drop_last();
        assert forall|y: Note| #[trigger] t.contains(y) implies source.contains(y) by {
            let i = choose|i: int| 0 <= i < t.len() && t[i] == y;
            assert(notes[i] == y);
            assert(notes.contains(y));
        }
        lemma_place_all(a, t, source);
        assert(notes.contains(notes[notes.len() - 1]));
        lemma_place(place_all(a, t), notes.last(), source);
    }
}

/// Allocation moment by moment keeps an allocation sound.
pub proof fn lemma_allocate_from(s: Seq<Note>, i: int, a: Allocation)
    requires
        0 <= i <= s.len(),
        sound(a.voices, s),
    ensures
        sound(allocate_from(s, i, a).voices, s),
    decreases s.len() - i,
{
    if i < s.len() {
        let j = group_end(s, i);
        lemma_group_end(s, i);
        let group = s.subrange(i, j);
        let p = priority_list(group, a.melody);
        lemma_priority_list(group, a.melody);
        assert forall|y: Note| #[trigger] p.contains(y) implies s.contains(y) by {
            assert(group.contains(y));
            let k = choose|k: int| 0 <= k < group.len() && group[k] == y;
            assert(s[i + k] == y);
        }
        lemma_place_all(a, p, s);
        lemma_allocate_from(s, j, place_all(a, p));
    }
}

/// Whatever the notes, they come out as six voices, none of which overlaps
/// with itself, and every note that comes out went in.
pub proof fn lemma_allocated(notes: Seq<Note>)
    ensures
        sound(allocated(notes), notes),
{
    let s = stable_sorted(notes, NoteOrder::Start);
    lemma_stable_sorted(notes, NoteOrder::Start);
    let e = empty_allocation();
    assert(sound(e.voices, s));
    lemma_allocate_from(s, 0, e);
    let r = allocated(notes);
    assert forall|v: int, i: int| 0 <= v < 6 && 0 <= i < r[v].len() implies notes.contains(
        #[trigger] r[v][i],
    ) by {
        assert(s.contains(r[v][i]));
    }
}

/// Puts the note into the first voice that is free for it, or drops it.
fn place_note(voices: &mut Vec<Vec<Note>>, melody: &mut Option<u8>, note: Note)
    requires
        old(voices)@.len() == 6,
    ensures
        final(voices)@.len() == 6,
        (Allocation { voices: voice_seqs(final(voices)@), melody: *final(melody) }) == place(
            (Allocation { voices: voice_seqs(old(voices)@), melody: *old(melody) }),
            note,
        ),
{
    let ghost vecs = voices@;
    let ghost before = voice_seqs(voices@);
    let ghost before_melody = *melody;
    let mut v: usize = 0;
    while v < 6
        invariant
            v <= 6,
            voices@ == vecs,
            vecs == old(voices)@,
            before_melody == *old(melody),
            vecs.len() == 6,
            before == voice_seqs(vecs),
            *melody == before_melody,
            first_free(before, note, 0) == first_free(before, note, v as int),
        decreases 6 - v,
    {
        let len = voices[v].len();
        assert(before[v as int] == voices@[v as int]@);
        let free = len == 0 || voices[v][len - 1].end <= note.start;
        if free {
            let mut voice = voices.remove(v);
            if v == 0 {
                *melody = Some(note.note);
            }
            voice.push(note);
            voices.insert(v, voice);
            proof {
                assert(first_free(before, note, 0) == Some(v as int));
                assert(voice_seqs(voices@) =~= before.update(
                    v as int,
                    before[v as int].push(note),
                )) by {
                    assert forall|w: int| 0 <= w < 6 implies voice_seqs(voices@)[w] == before.update(
                        v as int,
                        before[v as int].push(note),
                    )[w] by {
                        if w != v {
                            assert(voices@[w] == vecs[w]);
                        } else {
                            assert(voices@[w]@ == vecs[w]@.push(note));
                        }
                    }
                }
            }
            return ;
        }
        v = v + 1;
    }
}

/// Arranges the notes of one moment in the order in which they are placed.
fn priority_notes(group: Vec<Note>, melody: Option<u8>) -> (r: Vec<Note>)
    requires
        group@.len() > 0,
    ensures
        r@ == priority_list(group@, melody),
{
    let sorted = sort_notes(group, NoteOrder::PitchDescending);
    let n = sorted.len();
    let mut pick: usize = 0;
    match melody {
        Some(last) => {
            let mut best: Option<usize> = None;
            let mut i: usize = 0;
            while i < n
                invariant
                    i <= n,
                    n == sorted@.len(),
                    best matches Some(b) ==> b < i,
                    match best {
                        Some(b) => best_close(sorted@, last, i as int) == Some(b as int),
                        None => best_close(sorted@, last, i as int) is None,
                    },
                decreases n - i,
            {
                let pitch = sorted[i].note;
                let close = pitch as u16 <= last as u16 + 12 && last as u16 <= pitch as u16 + 12;
                let better = match best {
                    Some(b) => pitch >= sorted[b].note,
                    None => true,
                };
                if close && better {
                    best = Some(i);
                }
                i = i + 1;
            }
            match best {
                Some(b) => {
                    pick = b;
                },
                None => {},
            }
        },
        None => {},
    }
    assert(pick == melody_index(sorted@, melody));
    let m = sorted[pick].clone();
    let b = sorted[n - 1].clone();
    let mut rest: Vec<Note> = Vec::new();
    let mut i: usize = 0;
    while i < n
        invariant
            i <= n,
            n == sorted@.len(),
            rest@ == others(sorted@, i as int, m.note, b.note),
        decreases n - i,
    {
        if sorted[i].note != m.note && sorted[i].note != b.note {
            rest.push(sorted[i].clone());
        }
        i = i + 1;
    }
    let mut rest = sort_notes(rest, NoteOrder::VelocityDescending);
    let mut out: Vec<Note> = Vec::new();
    let distinct = b.note != m.note;
    out.push(m);
    if distinct {
        out.push(b);
    }
    out.append(&mut rest);
    assert(out@ =~= priority_list(group@, melody));
    out
}

/// Distributes the notes over six voices. Notes are taken moment by moment,
/// in the order of their start; within a moment the melody comes first, then
/// the bass, then the rest from loud to soft; each note goes to the first
/// voice that is free when it starts, and is dropped where all six sound.
pub fn allocate_voices_smart(notes: Vec<Note>) -> (voices: Vec<Vec<Note>>)
    ensures
        voices@.len() == 6,
        voice_seqs(voices@) == allocated(notes@),
        forall|v: int| 0 <= v < 6 ==> non_overlapping(#[trigger] voices@[v]@),
        forall|v: int, i: int|
            0 <= v < 6 && 0 <= i < voices@[v]@.len() ==> notes@.contains(
                #[trigger] voices@[v]@[i],
            ),
        forall|v: int| 0 <= v < 6 ==> starts_rise(#[trigger] voices@[v]@),
{
    let ghost source = notes@;
    let sorted = sort_notes(notes, NoteOrder::Start);
    let ghost s = sorted@;
    let mut voices: Vec<Vec<Note>> = Vec::new();
    let mut k: usize = 0;
    while k < 6
        invariant
            k <= 6,
            voices@.len() == k,
            forall|v: int| 0 <= v < k ==> (#[trigger] voices@[v])@.len() == 0,
        decreases 6 - k,
    {
        voices.push(Vec::new());
        k = k + 1;
    }
    assert(voice_seqs(voices@) =~= empty_allocation().voices) by {
        assert forall|v: int| 0 <= v < 6 implies voice_seqs(voices@)[v]
            =~= empty_allocation().voices[v] by {
            assert(voices@[v]@.len() == 0);
        }
    }
    let mut melody: Option<u8> = None;
    let n = sorted.len();
    let mut i: usize = 0;
    while i < n
        invariant
            i <= n,
            n == s.len(),
            s == sorted@,
            voices@.len() == 6,
            allocate_from(
                s,
                i as int,
                (Allocation { voices: voice_seqs(voices@), melody }),
            ) == allocate_from(s, 0, empty_allocation()),
        decreases n - i,
    {
        let ghost here = Allocation { voices: voice_seqs(voices@), melody };
        let start = sorted[i].start;
        let mut group: Vec<Note> = Vec::new();
        group.push(sorted[i].clone());
        let mut j: usize = i + 1;
        while j < n && sorted[j].start == start
            invariant
                i < j <= n,
                n == s.len(),
                s == sorted@,
                start == s[i as int].start,
                s[j - 1].start == start,
                group_end(s, i as int) == group_end(s, j - 1),
                group@ == s.subrange(i as int, j as int),
            decreases n - j,
        {
            group.push(sorted[j].clone());
            proof {
                assert(group@ =~= s.subrange(i as int, j as int + 1));
            }
            j = j + 1;
        }
        assert(group_end(s, i as int) == j);
        let priority = priority_notes(group, melody);
        let ghost p = priority@;
        let mut q: usize = 0;
        while q < priority.len()
            invariant
                q <= priority.len(),
                priority@ == p,
                voices@.len() == 6,
                (Allocation { voices: voice_seqs(voices@), melody }) == place_all(here, p.take(q as int)),
            decreases priority.len() - q,
        {
            proof {
                assert(p.take(q as int + 1).drop_last() =~= p.take(q as int));
                assert(p.take(q as int + 1).last() == p[q as int]);
            }
            place_note(&mut voices, &mut melody, priority[q].clone());
            q = q + 1;
        }
        proof {
            assert(p.take(p.len() as int) =~= p);
        }
        i = j;
    }
    proof {
        lemma_allocated(source);
        lemma_allocated_in_order(source);
        let r = allocated(source);
        assert forall|v: int| 0 <= v < 6 implies starts_rise(#[trigger] voices@[v]@) by {
            assert(voice_seqs(voices@)[v] == voices@[v]@);
        }
        assert forall|v: int| 0 <= v < 6 implies non_overlapping(#[trigger] voices@[v]@) by {
            assert(voice_seqs(voices@)[v] == voices@[v]@);
        }
        assert forall|v: int, i: int| 0 <= v < 6 && 0 <= i < voices@[v]@.len() implies source.contains(
            #[trigger] voices@[v]@[i],
        ) by {
            assert(voice_seqs(voices@)[v] == voices@[v]@);
            assert(r[v][i] == voices@[v]@[i]);
        }
    }
    voices
}

/// No note of the voice starts before the one in front of it.
pub open spec fn starts_rise(voice: Seq<Note>) -> bool {
    forall|i: int, j: int|
        0 <= i < j < voice.len() ==> (#[trigger] voice[i]).start <= (#[trigger] voice[j]).start
}

/// In every voice the starts rise, and no note starts after `tick`.
pub open spec fn placed_by(voices: Seq<Seq<Note>>, tick: int) -> bool {
    forall|v: int|
        0 <= v < voices.len() ==> starts_rise(#[trigger] voices[v]) && forall|i: int|
            0 <= i < voices[v].len() ==> (#[trigger] voices[v][i]).start <= tick
}

/// A note that starts no earlier than every note placed so far keeps the
/// starts rising.
pub proof fn lemma_place_in_order(a: Allocation, n: Note, tick: int)
    requires
        placed_by(a.voices, tick),
        tick <= n.start,
    ensures
        placed_by(place(a, n).voices, n.start as int),
{
    lemma_first_free(a.voices, n, 0);
    let r = place(a, n).voices;
    assert forall|w: int| 0 <= w < r.len() implies starts_rise(#[trigger] r[w]) && forall|i: int|
        0 <= i < r[w].len() ==> (#[trigger] r[w][i]).start <= n.start by {
        let old_voice = a.voices[w];
        assert(starts_rise(old_voice));
        assert forall|i: int| 0 <= i < r[w].len() implies (#[trigger] r[w][i]).start
            <= n.start by {
            if i < old_voice.len() {
                assert(r[w][i] == old_voice[i]);
                assert(old_voice[i].start <= tick);
            }
        }
        assert forall|i: int, j: int| 0 <= i < j < r[w].len() implies (#[trigger] r[w][i]).start
            <= (#[trigger] r[w][j]).start by {
            assert(r[w][i] == old_voice[i]);
            assert(old_voice[i].start <= tick);
            if j < old_voice.len() {
                assert(r[w][j] == old_voice[j]);
            }
        }
    }
}

/// Notes of one moment, placed one after the other, keep the starts
/// rising.
pub proof fn lemma_place_all_in_order(a: Allocation, notes: Seq<Note>, tick: int)
    requires
        placed_by(a.voices, tick),
        forall|k: int| 0 <= k < notes.len() ==> (#[trigger] notes[k]).start == tick,
    ensures
        placed_by(place_all(a, notes).voices, tick),
    decreases notes.len(),
{
    if notes.len() > 0 {
        let t = notes.drop_last();
        assert forall|k: int| 0 <= k < t.len() implies (#[trigger] t[k]).start == tick by {
            assert(t[k] == notes[k]);
        }
        lemma_place_all_in_order(a, t, tick);
        assert(notes[notes.len() - 1].start == tick);
        lemma_place_in_order(place_all(a, t), notes.last(), tick);
    }
}

/// Allocation moment by moment keeps the starts rising in every voice.
pub proof fn lemma_allocate_in_order(s: Seq<Note>, i: int, a: Allocation, tick: int)
    requires
        0 <= i <= s.len(),
        ordered(s, NoteOrder::Start),
        placed_by(a.voices, tick),
        i < s.len() ==> tick <= s[i].start,
    ensures
        forall|v: int|
            0 <= v < allocate_from(s, i, a).voices.len() ==> starts_rise(
                #[trigger] allocate_from(s, i, a).voices[v],
            ),
    decreases s.len() - i,
{
    if i < s.len() {
        let j = group_end(s, i);
        lemma_group_end(s, i);
        lemma_group_starts(s, i);
        let now = s[i].start as int;
        let group = s.subrange(i, j);
        let p = priority_list(group, a.melody);
        lemma_priority_list(group, a.melody);
        assert forall|k: int| 0 <= k < p.len() implies (#[trigger] p[k]).start == now by {
            assert(p.contains(p[k]));
            assert(group.contains(p[k]));
            let m = choose|m: int| 0 <= m < group.len() && group[m] == p[k];
            assert(s[i + m] == p[k]);
        }
        assert(placed_by(a.voices, now)) by {
            assert forall|v: int| 0 <= v < a.voices.len() implies starts_rise(
                #[trigger] a.voices[v],
            ) && forall|q: int|
                0 <= q < a.voices[v].len() ==> (#[trigger] a.voices[v][q]).start <= now by {
                assert forall|q: int| 0 <= q < a.voices[v].len() implies (
                #[trigger] a.voices[v][q]).start <= now by {
                    assert(a.voices[v][q].start <= tick);
                }
            }
        }
        lemma_place_all_in_order(a, p, now);
        if j < s.len() {
            assert(sort_key(NoteOrder::Start, s[i]) <= sort_key(NoteOrder::Start, s[j]));
        }
        lemma_allocate_in_order(s, j, place_all(a, p), now);
    }
}

/// In each of the six voices the notes stand in the order of their starts.
pub proof fn lemma_allocated_in_order(notes: Seq<Note>)
    ensures
        forall|v: int| 0 <= v < 6 ==> starts_rise(#[trigger] allocated(notes)[v]),
{
    let s = stable_sorted(notes, NoteOrder::Start);
    lemma_stable_sorted(notes, NoteOrder::Start);
    lemma_allocated(notes);
    let e = empty_allocation();
    assert(placed_by(e.voices, 0));
    lemma_allocate_in_order(s, 0, e, 0);
}

} // verus!
