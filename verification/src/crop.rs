//! Cutting voices down to a character budget.

use crate::mml::{generate_mml_final, mml_text};
use crate::note::Note;
use crate::voices::voice_seqs;
use vstd::prelude::*;
use vstd::string::StrSliceExecFns;

verus! {

/// Those of the first `n` notes that start before the cutoff.
pub open spec fn truncated(voice: Seq<Note>, n: int, cutoff: int) -> Seq<Note>
    decreases n,
{
    if n <= 0 {
        Seq::empty()
    } else if (voice[n - 1].start as int) < cutoff {
        truncated(voice, n - 1, cutoff).push(voice[n - 1])
    } else {
        truncated(voice, n - 1, cutoff)
    }
}

/// The octave that a voice starts in: that of its first note, but no lower
/// than 2 and no higher than 6.
pub open spec fn opening_octave(notes: Seq<Note>) -> int {
    let octave = notes[0].spec_octave();
    if octave < 2 {
        2
    } else if octave > 6 {
        6
    } else {
        octave
    }
}

/// The notation text of a voice that starts in its opening octave.
pub open spec fn voice_text(notes: Seq<Note>, bpm: u32, compress_mode: bool) -> Seq<char> {
    if notes.len() == 0 {
        Seq::empty()
    } else {
        mml_text(notes, bpm, opening_octave(notes) as i32, compress_mode)
    }
}

/// The voice, cut at the cutoff, can be written within the budget.
pub open spec fn fits_budget(
    voice: Seq<Note>,
    cutoff: int,
    bpm: u32,
    char_limit: usize,
    compress_mode: bool,
) -> bool {
    voice_text(truncated(voice, voice.len() as int, cutoff), bpm, compress_mode).len()
        <= char_limit
}

/// The latest end among the first `n` notes; 0 where there is none.
pub open spec fn max_end(voice: Seq<Note>, n: int) -> int
    decreases n,
{
    if n <= 0 {
        0
    } else if voice[n - 1].end as int > max_end(voice, n - 1) {
        voice[n - 1].end as int
    } else {
        max_end(voice, n - 1)
    }
}

/// Bisection for the last grid line, counted in grid units between `lo` and
/// `hi`, at which the voice still fits: the upper half is searched where
/// its first line fits, the lower half where it does not.
pub open spec fn bisect(
    voice: Seq<Note>,
    bpm: u32,
    char_limit: usize,
    compress_mode: bool,
    lo: int,
    hi: int,
) -> int
    decreases hi - lo,
{
    if lo >= hi {
        lo
    } else {
        let mid = lo + (hi - lo + 1) / 2;
        if fits_budget(voice, 24 * mid, bpm, char_limit, compress_mode) {
            bisect(voice, bpm, char_limit, compress_mode, mid, hi)
        } else {
            bisect(voice, bpm, char_limit, compress_mode, lo, mid - 1)
        }
    }
}

/// The cutoff that the search settles on for a voice: a grid line between
/// tick 0 and the voice's latest end.
pub open spec fn best_cutoff(voice: Seq<Note>, bpm: u32, char_limit: usize, compress_mode: bool) -> int {
    24 * bisect(voice, bpm, char_limit, compress_mode, 0, max_end(voice, voice.len() as int) / 24)
}

/// The voice cut down to the budget.
pub open spec fn cropped(voice: Seq<Note>, bpm: u32, char_limit: usize, compress_mode: bool) -> Seq<
    Note,
> {
    truncated(voice, voice.len() as int, best_cutoff(voice, bpm, char_limit, compress_mode))
}

/// Text that grows with the cutoff: a voice that fits at one grid line fits
/// at every earlier one.
pub open spec fn grows_with_cutoff(
    voice: Seq<Note>,
    bpm: u32,
    char_limit: usize,
    compress_mode: bool,
    hi: int,
) -> bool {
    forall|a: int, b: int|
        0 <= a <= b <= hi && #[trigger] fits_budget(voice, 24 * b, bpm, char_limit, compress_mode)
            ==> #[trigger] fits_budget(voice, 24 * a, bpm, char_limit, compress_mode)
}

/// Nothing starts before tick 0, so a voice cut there is empty.
pub proof fn lemma_truncated_at_zero(voice: Seq<Note>, n: int)
    ensures
        truncated(voice, n, 0).len() == 0,
    decreases n,
{
    if n > 0 {
        lemma_truncated_at_zero(voice, n - 1);
    }
}

/// What truncation keeps: notes of the voice, each starting before the
/// cutoff, no more than there were.
pub proof fn lemma_truncated(voice: Seq<Note>, n: int, cutoff: int)
    requires
        0 <= n <= voice.len(),
    ensures
        truncated(voice, n, cutoff).len() <= n,
        forall|i: int|
            0 <= i < truncated(voice, n, cutoff).len() ==> (#[trigger] truncated(
                voice,
                n,
                cutoff,
            )[i]).start < cutoff && voice.contains(truncated(voice, n, cutoff)[i]),
    decreases n,
{
    if n > 0 {
        lemma_truncated(voice, n - 1, cutoff);
        let prev = truncated(voice, n - 1, cutoff);
        let cur = truncated(voice, n, cutoff);
        assert forall|i: int| 0 <= i < cur.len() implies (#[trigger] cur[i]).start < cutoff
            && voice.contains(cur[i]) by {
            if i < prev.len() {
                assert(cur[i] == prev[i]);
            } else {
                assert(cur[i] == voice[n - 1]);
            }
        }
    }
}

/// The search ends on a grid line at which the voice fits, whatever the
/// text does in between.
pub proof fn lemma_bisect_fits(
    voice: Seq<Note>,
    bpm: u32,
    char_limit: usize,
    compress_mode: bool,
    lo: int,
    hi: int,
)
    requires
        0 <= lo <= hi,
        fits_budget(voice, 24 * lo, bpm, char_limit, compress_mode),
    ensures
        lo <= bisect(voice, bpm, char_limit, compress_mode, lo, hi) <= hi,
        fits_budget(
            voice,
            24 * bisect(voice, bpm, char_limit, compress_mode, lo, hi),
            bpm,
            char_limit,
            compress_mode,
        ),
    decreases hi - lo,
{
    if lo < hi {
        let mid = lo + (hi - lo + 1) / 2;
        if fits_budget(voice, 24 * mid, bpm, char_limit, compress_mode) {
            lemma_bisect_fits(voice, bpm, char_limit, compress_mode, mid, hi);
        } else {
            lemma_bisect_fits(voice, bpm, char_limit, compress_mode, lo, mid - 1);
        }
    }
}

/// Where the text grows with the cutoff, the search ends on the last grid
/// line at which the voice fits.
pub proof fn lemma_bisect_maximal(
    voice: Seq<Note>,
    bpm: u32,
    char_limit: usize,
    compress_mode: bool,
    lo: int,
    hi: int,
    top: int,
)
    requires
        0 <= lo <= hi <= top,
        grows_with_cutoff(voice, bpm, char_limit, compress_mode, top),
        forall|j: int|
            hi < j <= top ==> !#[trigger] fits_budget(voice, 24 * j, bpm, char_limit, compress_mode),
    ensures
        forall|j: int|
            bisect(voice, bpm, char_limit, compress_mode, lo, hi) < j <= top ==> !#[trigger] fits_budget(
                voice,
                24 * j,
                bpm,
                char_limit,
                compress_mode,
            ),
    decreases hi - lo,
{
    if lo < hi {
        let mid = lo + (hi - lo + 1) / 2;
        if fits_budget(voice, 24 * mid, bpm, char_limit, compress_mode) {
            lemma_bisect_maximal(voice, bpm, char_limit, compress_mode, mid, hi, top);
        } else {
            assert forall|j: int| mid - 1 < j <= top implies !#[trigger] fits_budget(
                voice,
                24 * j,
                bpm,
                char_limit,
                compress_mode,
            ) by {
                if j <= hi && fits_budget(voice, 24 * j, bpm, char_limit, compress_mode) {
                    assert(fits_budget(voice, 24 * mid, bpm, char_limit, compress_mode));
                }
            }
            lemma_bisect_maximal(voice, bpm, char_limit, compress_mode, lo, mid - 1, top);
        }
    }
}

/// A voice cut down to the budget fits the budget. Where the text grows
/// with the cutoff, no later grid line up to the voice's end would do.
pub proof fn lemma_cropped(voice: Seq<Note>, bpm: u32, char_limit: usize, compress_mode: bool)
    ensures
        voice_text(cropped(voice, bpm, char_limit, compress_mode), bpm, compress_mode).len()
            <= char_limit,
        0 <= best_cutoff(voice, bpm, char_limit, compress_mode) <= max_end(
            voice,
            voice.len() as int,
        ),
        best_cutoff(voice, bpm, char_limit, compress_mode) % 24 == 0,
        grows_with_cutoff(
            voice,
            bpm,
            char_limit,
            compress_mode,
            max_end(voice, voice.len() as int) / 24,
        ) ==> forall|j: int|
            best_cutoff(voice, bpm, char_limit, compress_mode) < 24 * j <= max_end(
                voice,
                voice.len() as int,
            ) ==> !#[trigger] fits_budget(voice, 24 * j, bpm, char_limit, compress_mode),
{
    let top = max_end(voice, voice.len() as int) / 24;
    lemma_max_end(voice, voice.len() as int);
    lemma_truncated_at_zero(voice, voice.len() as int);
    assert(fits_budget(voice, 24 * 0int, bpm, char_limit, compress_mode));
    lemma_bisect_fits(voice, bpm, char_limit, compress_mode, 0, top);
    if grows_with_cutoff(voice, bpm, char_limit, compress_mode, top) {
        lemma_bisect_maximal(voice, bpm, char_limit, compress_mode, 0, top, top);
    }
}

/// The latest end is the end of a note, or 0.
pub proof fn lemma_max_end(voice: Seq<Note>, n: int)
    requires
        0 <= n <= voice.len(),
    ensures
        0 <= max_end(voice, n) <= u32::MAX,
        forall|i: int| 0 <= i < n ==> (#[trigger] voice[i]).end <= max_end(voice, n),
    decreases n,
{
    if n > 0 {
        lemma_max_end(voice, n - 1);
    }
}

/// Number of characters of a text.
pub fn text_len(text: &String) -> (n: usize)
    ensures
        n == text@.len(),
{
    text.as_str().unicode_len()
}

/// The notes that start before the cutoff.
pub fn take_before(voice: &[Note], cutoff: u32) -> (r: Vec<Note>)
    ensures
        r@ == truncated(voice@, voice@.len() as int, cutoff as int),
{
    let mut out: Vec<Note> = Vec::new();
    let mut i: usize = 0;
    while i < voice.len()
        invariant
            i <= voice@.len(),
            out@ == truncated(voice@, i as int, cutoff as int),
        decreases voice.len() - i,
    {
        if voice[i].start < cutoff {
            out.push(voice[i].clone());
        }
        i = i + 1;
    }
    out
}

/// Writes a voice, starting in its opening octave.
pub fn encode_voice(notes: &[Note], bpm: u32, compress_mode: bool) -> (text: String)
    ensures
        text@ == voice_text(notes@, bpm, compress_mode),
{
    if notes.len() == 0 {
        return String::new();
    }
    let first: i32 = (notes[0].note / 12) as i32 - 1;
    let start_octave: i32 = if first < 2 {
        2
    } else if first > 6 {
        6
    } else {
        first
    };
    generate_mml_final(notes, bpm, start_octave, compress_mode)
}

/// The latest end among the notes of a voice.
fn latest_end(voice: &[Note]) -> (end: u32)
    ensures
        end == max_end(voice@, voice@.len() as int),
{
    let mut end: u32 = 0;
    let mut i: usize = 0;
    while i < voice.len()
        invariant
            i <= voice@.len(),
            end == max_end(voice@, i as int),
        decreases voice.len() - i,
    {
        if voice[i].end > end {
            end = voice[i].end;
        }
        i = i + 1;
    }
    end
}

/// Cuts a voice down to the budget: the notes that start before the last
/// grid line, found by bisection, at which the text of the voice has no
/// more than `char_limit` characters.
pub fn crop_voice_to_limit(voice: &[Note], bpm: u32, char_limit: usize, compress_mode: bool) -> (r:
    Vec<Note>)
    ensures
        r@ == cropped(voice@, bpm, char_limit, compress_mode),
        voice_text(r@, bpm, compress_mode).len() <= char_limit,
        forall|i: int| 0 <= i < r@.len() ==> voice@.contains(#[trigger] r@[i]),
        grows_with_cutoff(
            voice@,
            bpm,
            char_limit,
            compress_mode,
            max_end(voice@, voice@.len() as int) / 24,
        ) ==> forall|j: int|
            best_cutoff(voice@, bpm, char_limit, compress_mode) < 24 * j <= max_end(
                voice@,
                voice@.len() as int,
            ) ==> !#[trigger] fits_budget(voice@, 24 * j, bpm, char_limit, compress_mode),
{
    let top: u32 = latest_end(voice) / 24;
    let mut lo: u32 = 0;
    let mut hi: u32 = top;
    proof {
        lemma_truncated_at_zero(voice@, voice@.len() as int);
        assert(fits_budget(voice@, 24 * 0int, bpm, char_limit, compress_mode));
    }
    while lo < hi
        invariant
            lo <= hi <= top <= 178956970,
            top == max_end(voice@, voice@.len() as int) / 24,
            bisect(voice@, bpm, char_limit, compress_mode, lo as int, hi as int) == bisect(
                voice@,
                bpm,
                char_limit,
                compress_mode,
                0,
                top as int,
            ),
        decreases hi - lo,
    {
        let mid: u32 = lo + (hi - lo + 1) / 2;
        let probe = take_before(voice, 24 * mid);
        let text = encode_voice(probe.as_slice(), bpm, compress_mode);
        if text_len(&text) <= char_limit {
            lo = mid;
        } else {
            hi = mid - 1;
        }
    }
    let r = take_before(voice, 24 * lo);
    proof {
        lemma_cropped(voice@, bpm, char_limit, compress_mode);
        lemma_truncated(voice@, voice@.len() as int, 24 * lo);
    }
    r
}

/// The note cut off at the cutoff where it sounds beyond it.
pub open spec fn clipped(n: Note, cutoff: u32) -> Note {
    if n.end > cutoff {
        Note {
            note: n.note,
            start: n.start,
            end: cutoff,
            duration: (cutoff - n.start) as u32,
            velocity: n.velocity,
            instrument: n.instrument,
        }
    } else {
        n
    }
}

/// Those of the first `n` notes that start before the cutoff, each cut off
/// there.
pub open spec fn synchronized(voice: Seq<Note>, n: int, cutoff: u32) -> Seq<Note>
    decreases n,
{
    if n <= 0 {
        Seq::empty()
    } else if voice[n - 1].start < cutoff {
        synchronized(voice, n - 1, cutoff).push(clipped(voice[n - 1], cutoff))
    } else {
        synchronized(voice, n - 1, cutoff)
    }
}

/// Where the last note ends in that one of the first `n` voices in which it
/// ends first; nothing where all of them are empty.
pub open spec fn min_last_end(voices: Seq<Seq<Note>>, n: int) -> Option<u32>
    decreases n,
{
    if n <= 0 {
        None
    } else if voices[n - 1].len() == 0 {
        min_last_end(voices, n - 1)
    } else {
        match min_last_end(voices, n - 1) {
            Some(m) => if voices[n - 1].last().end < m {
                Some(voices[n - 1].last().end)
            } else {
                Some(m)
            },
            None => Some(voices[n - 1].last().end),
        }
    }
}

/// Every voice, cut off at the cutoff, can be written within the budget.
pub open spec fn all_fit(
    voices: Seq<Seq<Note>>,
    cutoff: u32,
    bpm: u32,
    char_limit: usize,
    compress_mode: bool,
) -> bool {
    forall|v: int|
        0 <= v < voices.len() ==> voice_text(
            synchronized(#[trigger] voices[v], voices[v].len() as int, cutoff),
            bpm,
            compress_mode,
        ).len() <= char_limit
}

/// The tick at which all voices end together: the cutoff if every voice
/// fits there; where cutting a last note short has made a text longer than
/// the budget, the first earlier grid step at which every voice fits.
pub open spec fn settled(
    voices: Seq<Seq<Note>>,
    cutoff: u32,
    bpm: u32,
    char_limit: usize,
    compress_mode: bool,
) -> u32
    decreases cutoff,
{
    if cutoff == 0 || all_fit(voices, cutoff, bpm, char_limit, compress_mode) {
        cutoff
    } else if cutoff >= 24 {
        settled(voices, (cutoff - 24) as u32, bpm, char_limit, compress_mode)
    } else {
        0
    }
}

/// Each voice cut down to the budget on its own.
pub open spec fn cropped_voices(
    voices: Seq<Seq<Note>>,
    bpm: u32,
    char_limit: usize,
    compress_mode: bool,
) -> Seq<Seq<Note>> {
    Seq::new(voices.len(), |v: int| cropped(voices[v], bpm, char_limit, compress_mode))
}

/// The tick at which the voices end together once each has been cut down
/// to the budget: the earliest end of a voice, settled; 0 where no voice
/// has a note left.
pub open spec fn shared_end(
    voices: Seq<Seq<Note>>,
    bpm: u32,
    char_limit: usize,
    compress_mode: bool,
) -> u32 {
    let c = cropped_voices(voices, bpm, char_limit, compress_mode);
    match min_last_end(c, c.len() as int) {
        Some(m) => settled(c, m, bpm, char_limit, compress_mode),
        None => 0,
    }
}

/// What is left of voice `v` in the end: cut down to the budget, then cut
/// off where all voices end together.
pub open spec fn final_voice(
    voices: Seq<Seq<Note>>,
    v: int,
    bpm: u32,
    char_limit: usize,
    compress_mode: bool,
) -> Seq<Note> {
    let c = cropped_voices(voices, bpm, char_limit, compress_mode);
    synchronized(c[v], c[v].len() as int, shared_end(voices, bpm, char_limit, compress_mode))
}

/// A voice as it leaves the cropper: which of the voices it was, its notes,
/// its text, the number of characters of the text, and the tick at which it
/// ends with all the others.
#[derive(Debug)]
pub struct CroppedVoice {
    pub index: usize,
    pub notes: Vec<Note>,
    pub content: String,
    pub char_count: usize,
    pub end_tick: u32,
}

/// The voices among the first `n` that keep a note when cut off at the
/// cutoff, by their index.
pub open spec fn kept_at(voices: Seq<Seq<Note>>, n: int, cutoff: u32) -> Seq<int>
    decreases n,
{
    if n <= 0 {
        Seq::empty()
    } else if synchronized(voices[n - 1], voices[n - 1].len() as int, cutoff).len() > 0 {
        kept_at(voices, n - 1, cutoff).push(n - 1)
    } else {
        kept_at(voices, n - 1, cutoff)
    }
}

/// The result is voice `v` cut off at the cutoff: its notes, its text, the
/// number of characters of the text, and the cutoff as its end.
pub open spec fn result_of(
    voices: Seq<Seq<Note>>,
    v: int,
    cutoff: u32,
    bpm: u32,
    compress_mode: bool,
    o: CroppedVoice,
) -> bool {
    &&& o.index == v
    &&& o.notes@ == synchronized(voices[v], voices[v].len() as int, cutoff)
    &&& o.content@ == voice_text(o.notes@, bpm, compress_mode)
    &&& o.char_count == o.content@.len()
    &&& o.end_tick == cutoff
}

/// The results are the voices among the first `n` that keep a note when
/// every voice is cut off at the cutoff, in their order.
pub open spec fn results_at(
    voices: Seq<Seq<Note>>,
    n: int,
    cutoff: u32,
    bpm: u32,
    compress_mode: bool,
    out: Seq<CroppedVoice>,
) -> bool {
    &&& out.len() == kept_at(voices, n, cutoff).len()
    &&& forall|j: int|
        0 <= j < out.len() ==> result_of(
            voices,
            kept_at(voices, n, cutoff)[j],
            cutoff,
            bpm,
            compress_mode,
            #[trigger] out[j],
        )
}

/// The voices that are kept are voices that keep a note, each listed once,
/// in rising order.
pub proof fn lemma_kept_at(voices: Seq<Seq<Note>>, n: int, cutoff: u32)
    requires
        0 <= n <= voices.len(),
    ensures
        kept_at(voices, n, cutoff).len() <= n,
        forall|j: int|
            0 <= j < kept_at(voices, n, cutoff).len() ==> {
                let v = #[trigger] kept_at(voices, n, cutoff)[j];
                0 <= v < n && synchronized(voices[v], voices[v].len() as int, cutoff).len() > 0
            },
        forall|j: int, k: int|
            0 <= j < k < kept_at(voices, n, cutoff).len() ==> (#[trigger] kept_at(
                voices,
                n,
                cutoff,
            )[j]) < (#[trigger] kept_at(voices, n, cutoff)[k]),
        forall|v: int|
            0 <= v < n && synchronized(#[trigger] voices[v], voices[v].len() as int, cutoff).len()
                > 0 ==> kept_at(voices, n, cutoff).contains(v),
    decreases n,
{
    if n > 0 {
        lemma_kept_at(voices, n - 1, cutoff);
        let prev = kept_at(voices, n - 1, cutoff);
        let cur = kept_at(voices, n, cutoff);
        assert forall|j: int| 0 <= j < cur.len() implies {
            let v = #[trigger] cur[j];
            0 <= v < n && synchronized(voices[v], voices[v].len() as int, cutoff).len() > 0
        } by {
            if j < prev.len() {
                assert(cur[j] == prev[j]);
            }
        }
        assert forall|j: int, k: int| 0 <= j < k < cur.len() implies (#[trigger] cur[j]) < (
        #[trigger] cur[k]) by {
            assert(cur[j] == prev[j]);
            if k < prev.len() {
                assert(cur[k] == prev[k]);
            }
        }
        assert forall|v: int|
            0 <= v < n && synchronized(#[trigger] voices[v], voices[v].len() as int, cutoff).len()
                > 0 implies cur.contains(v) by {
            if v < n - 1 {
                assert(prev.contains(v));
                let j = choose|j: int| 0 <= j < prev.len() && prev[j] == v;
                assert(cur[j] == v);
            } else {
                assert(cur[cur.len() - 1] == v);
            }
        }
    }
}

/// What cutting off keeps of a voice: no note that starts at the cutoff or
/// later, and no note that ends after it.
pub proof fn lemma_synchronized(voice: Seq<Note>, n: int, cutoff: u32)
    requires
        0 <= n <= voice.len(),
    ensures
        synchronized(voice, n, cutoff).len() <= n,
        forall|i: int|
            0 <= i < synchronized(voice, n, cutoff).len() ==> {
                let x = #[trigger] synchronized(voice, n, cutoff)[i];
                x.start < cutoff && x.end <= cutoff
            },
        cutoff == 0 ==> synchronized(voice, n, cutoff).len() == 0,
    decreases n,
{
    if n > 0 {
        lemma_synchronized(voice, n - 1, cutoff);
        let prev = synchronized(voice, n - 1, cutoff);
        let cur = synchronized(voice, n, cutoff);
        assert forall|i: int| 0 <= i < cur.len() implies {
            let x = #[trigger] cur[i];
            x.start < cutoff && x.end <= cutoff
        } by {
            if i < prev.len() {
                assert(cur[i] == prev[i]);
            }
        }
    }
}

/// At tick 0 every voice is empty, and so fits.
pub proof fn lemma_all_fit_at_zero(
    voices: Seq<Seq<Note>>,
    bpm: u32,
    char_limit: usize,
    compress_mode: bool,
)
    ensures
        all_fit(voices, 0, bpm, char_limit, compress_mode),
{
    assert forall|v: int| 0 <= v < voices.len() implies voice_text(
        synchronized(#[trigger] voices[v], voices[v].len() as int, 0),
        bpm,
        compress_mode,
    ).len() <= char_limit by {
        lemma_synchronized(voices[v], voices[v].len() as int, 0);
    }
}

/// At the settled tick every voice fits, and the settled tick is the cutoff
/// itself where every voice fits there.
pub proof fn lemma_settled(
    voices: Seq<Seq<Note>>,
    cutoff: u32,
    bpm: u32,
    char_limit: usize,
    compress_mode: bool,
)
    ensures
        settled(voices, cutoff, bpm, char_limit, compress_mode) <= cutoff,
        all_fit(
            voices,
            settled(voices, cutoff, bpm, char_limit, compress_mode),
            bpm,
            char_limit,
            compress_mode,
        ),
        all_fit(voices, cutoff, bpm, char_limit, compress_mode) ==> settled(
            voices,
            cutoff,
            bpm,
            char_limit,
            compress_mode,
        ) == cutoff,
    decreases cutoff,
{
    lemma_all_fit_at_zero(voices, bpm, char_limit, compress_mode);
    if cutoff != 0 && !all_fit(voices, cutoff, bpm, char_limit, compress_mode) && cutoff >= 24 {
        lemma_settled(voices, (cutoff - 24) as u32, bpm, char_limit, compress_mode);
    }
}

/// The notes that start before the cutoff, each cut off there.
pub fn synchronize(voice: &[Note], cutoff: u32) -> (r: Vec<Note>)
    ensures
        r@ == synchronized(voice@, voice@.len() as int, cutoff),
{
    let mut out: Vec<Note> = Vec::new();
    let mut i: usize = 0;
    while i < voice.len()
        invariant
            i <= voice@.len(),
            out@ == synchronized(voice@, i as int, cutoff),
        decreases voice.len() - i,
    {
        let n = &voice[i];
        if n.start < cutoff {
            if n.end > cutoff {
                out.push(
                    Note {
                        note: n.note,
                        start: n.start,
                        end: cutoff,
                        duration: cutoff - n.start,
                        velocity: n.velocity,
                        instrument: n.instrument.clone(),
                    },
                );
            } else {
                out.push(n.clone());
            }
        }
        i = i + 1;
    }
    out
}

/// Where the last note ends in the voice in which it ends first.
fn earliest_last_end(voices: &Vec<Vec<Note>>) -> (r: Option<u32>)
    ensures
        r == min_last_end(voice_seqs(voices@), voices@.len() as int),
{
    let ghost all = voice_seqs(voices@);
    let mut best: Option<u32> = None;
    let mut v: usize = 0;
    while v < voices.len()
        invariant
            v <= voices@.len(),
            all == voice_seqs(voices@),
            best == min_last_end(all, v as int),
        decreases voices.len() - v,
    {
        let len = voices[v].len();
        assert(all[v as int] == voices@[v as int]@);
        if len > 0 {
            let end = voices[v][len - 1].end;
            best = match best {
                Some(m) => if end < m {
                    Some(end)
                } else {
                    Some(m)
                },
                None => Some(end),
            };
        }
        v = v + 1;
    }
    best
}

/// Cuts every voice off at the cutoff and writes it. Gives the voices that
/// keep a note, or nothing if one of the texts is longer than the budget.
fn try_synchronize(
    voices: &Vec<Vec<Note>>,
    cutoff: u32,
    bpm: u32,
    char_limit: usize,
    compress_mode: bool,
) -> (r: Option<Vec<CroppedVoice>>)
    ensures
        match r {
            Some(out) => all_fit(voice_seqs(voices@), cutoff, bpm, char_limit, compress_mode)
                && results_at(
                voice_seqs(voices@),
                voices@.len() as int,
                cutoff,
                bpm,
                compress_mode,
                out@,
            ),
            None => !all_fit(voice_seqs(voices@), cutoff, bpm, char_limit, compress_mode),
        },
{
    let ghost all = voice_seqs(voices@);
    let mut out: Vec<CroppedVoice> = Vec::new();
    let mut v: usize = 0;
    while v < voices.len()
        invariant
            v <= voices@.len(),
            all == voice_seqs(voices@),
            results_at(all, v as int, cutoff, bpm, compress_mode, out@),
            forall|w: int|
                0 <= w < v ==> voice_text(
                    synchronized(#[trigger] all[w], all[w].len() as int, cutoff),
                    bpm,
                    compress_mode,
                ).len() <= char_limit,
        decreases voices.len() - v,
    {
        assert(all[v as int] == voices@[v as int]@);
        let notes = synchronize(voices[v].as_slice(), cutoff);
        let content = encode_voice(notes.as_slice(), bpm, compress_mode);
        let char_count = text_len(&content);
        if char_count > char_limit {
            return None;
        }
        let ghost before = out@;
        if notes.len() > 0 {
            out.push(CroppedVoice { index: v, notes, content, char_count, end_tick: cutoff });
        }
        proof {
            let kept = kept_at(all, v as int + 1, cutoff);
            assert forall|j: int| 0 <= j < out@.len() implies result_of(
                all,
                kept[j],
                cutoff,
                bpm,
                compress_mode,
                #[trigger] out@[j],
            ) by {
                if j < before.len() {
                    assert(out@[j] == before[j]);
                    assert(kept[j] == kept_at(all, v as int, cutoff)[j]);
                }
            }
        }
        v = v + 1;
    }
    Some(out)
}

/// The results are what is left of the voices in the end, in their order:
/// every voice that keeps a note, with its notes, its text, and the tick at
/// which all of them end.
pub open spec fn crop_result(
    voices: Seq<Seq<Note>>,
    bpm: u32,
    char_limit: usize,
    compress_mode: bool,
    out: Seq<CroppedVoice>,
) -> bool {
    results_at(
        cropped_voices(voices, bpm, char_limit, compress_mode),
        voices.len() as int,
        shared_end(voices, bpm, char_limit, compress_mode),
        bpm,
        compress_mode,
        out,
    )
}

/// No text is longer than the budget.
pub open spec fn within_budget(out: Seq<CroppedVoice>, char_limit: usize) -> bool {
    forall|j: int| 0 <= j < out.len() ==> (#[trigger] out[j]).char_count <= char_limit
}

/// All voices end at one tick, and no note sounds beyond it.
pub open spec fn in_step(out: Seq<CroppedVoice>, end_tick: u32) -> bool {
    forall|j: int|
        0 <= j < out.len() ==> (#[trigger] out[j]).end_tick == end_tick && forall|i: int|
            0 <= i < out[j].notes@.len() ==> (#[trigger] out[j].notes@[i]).end <= end_tick
}

/// Fits the voices into the budget and makes them end together.
///
/// Each voice is first cut down on its own, to the last grid line at which
/// its text fits. The earliest end among the voices that keep a note then
/// becomes the end of all: notes that start there or later go, notes that
/// sound beyond it are cut short. Where cutting a note short makes a text
/// longer than the budget, the common end moves back grid step by grid step
/// until every text fits. Voices that keep no note are left out.
pub fn crop_voices(voices: &Vec<Vec<Note>>, bpm: u32, char_limit: usize, compress_mode: bool) -> (out:
    Vec<CroppedVoice>)
    ensures
        crop_result(voice_seqs(voices@), bpm, char_limit, compress_mode, out@),
        within_budget(out@, char_limit),
        in_step(out@, shared_end(voice_seqs(voices@), bpm, char_limit, compress_mode)),
{
    let ghost all = voice_seqs(voices@);
    let ghost model = cropped_voices(all, bpm, char_limit, compress_mode);
    let mut cut: Vec<Vec<Note>> = Vec::new();
    let mut v: usize = 0;
    while v < voices.len()
        invariant
            v <= voices@.len(),
            all == voice_seqs(voices@),
            cut@.len() == v,
            forall|w: int|
                0 <= w < v ==> (#[trigger] cut@[w])@ == cropped(
                    all[w],
                    bpm,
                    char_limit,
                    compress_mode,
                ),
        decreases voices.len() - v,
    {
        assert(all[v as int] == voices@[v as int]@);
        let one = crop_voice_to_limit(voices[v].as_slice(), bpm, char_limit, compress_mode);
        cut.push(one);
        v = v + 1;
    }
    assert(voice_seqs(cut@) =~= model);
    let first = match earliest_last_end(&cut) {
        Some(m) => m,
        None => {
            proof {
                lemma_nothing_kept(model, model.len() as int);
            }
            return Vec::new();
        },
    };
    let mut tick: u32 = first;
    loop
        invariant
            model == voice_seqs(cut@),
            model.len() == voices@.len(),
            all == voice_seqs(voices@),
            model == cropped_voices(all, bpm, char_limit, compress_mode),
            settled(model, tick, bpm, char_limit, compress_mode) == shared_end(
                all,
                bpm,
                char_limit,
                compress_mode,
            ),
        decreases tick,
    {
        match try_synchronize(&cut, tick, bpm, char_limit, compress_mode) {
            Some(out) => {
                proof {
                    lemma_kept_at(model, model.len() as int, tick);
                    assert forall|j: int| 0 <= j < out@.len() implies (#[trigger] out@[j]).char_count
                        <= char_limit by {
                        let o = out@[j];
                        assert(o.index == kept_at(model, model.len() as int, tick)[j]);
                        assert(voice_text(
                            synchronized(
                                model[o.index as int],
                                model[o.index as int].len() as int,
                                tick,
                            ),
                            bpm,
                            compress_mode,
                        ).len() <= char_limit);
                    }
                    assert forall|j: int| 0 <= j < out@.len() implies (#[trigger] out@[j]).end_tick
                        == tick && forall|i: int|
                        0 <= i < out@[j].notes@.len() ==> (#[trigger] out@[j].notes@[i]).end
                            <= tick by {
                        let o = out@[j];
                        assert(o.index == kept_at(model, model.len() as int, tick)[j]);
                        lemma_synchronized(
                            model[o.index as int],
                            model[o.index as int].len() as int,
                            tick,
                        );
                    }
                }
                return out;
            },
            None => {
                proof {
                    lemma_all_fit_at_zero(model, bpm, char_limit, compress_mode);
                }
                tick = if tick >= 24 {
                    tick - 24
                } else {
                    0
                };
            },
        }
    }
}

/// At tick 0 no voice keeps a note.
pub proof fn lemma_nothing_kept(voices: Seq<Seq<Note>>, n: int)
    requires
        0 <= n <= voices.len(),
    ensures
        kept_at(voices, n, 0).len() == 0,
    decreases n,
{
    if n > 0 {
        lemma_nothing_kept(voices, n - 1);
        lemma_synchronized(voices[n - 1], voices[n - 1].len() as int, 0);
    }
}

/// In the end the text of every voice is within the budget, and no note of
/// any voice sounds beyond the tick at which all of them end. That tick is
/// the earliest end among the voices cut down to the budget, unless a text
/// would not fit there.
pub proof fn lemma_final_voices(
    voices: Seq<Seq<Note>>,
    bpm: u32,
    char_limit: usize,
    compress_mode: bool,
)
    ensures
        forall|v: int|
            0 <= v < voices.len() ==> voice_text(
                #[trigger] final_voice(voices, v, bpm, char_limit, compress_mode),
                bpm,
                compress_mode,
            ).len() <= char_limit,
        forall|v: int, i: int|
            0 <= v < voices.len() && 0 <= i < final_voice(
                voices,
                v,
                bpm,
                char_limit,
                compress_mode,
            ).len() ==> (#[trigger] final_voice(voices, v, bpm, char_limit, compress_mode)[i]).end
                <= shared_end(voices, bpm, char_limit, compress_mode),
        ({
            let cut = cropped_voices(voices, bpm, char_limit, compress_mode);
            match min_last_end(cut, cut.len() as int) {
                Some(m) => all_fit(cut, m, bpm, char_limit, compress_mode) ==> shared_end(
                    voices,
                    bpm,
                    char_limit,
                    compress_mode,
                ) == m,
                None => shared_end(voices, bpm, char_limit, compress_mode) == 0,
            }
        }),
{
    let cut = cropped_voices(voices, bpm, char_limit, compress_mode);
    let end = shared_end(voices, bpm, char_limit, compress_mode);
    match min_last_end(cut, cut.len() as int) {
        Some(m) => {
            lemma_settled(cut, m, bpm, char_limit, compress_mode);
        },
        None => {
            lemma_all_fit_at_zero(cut, bpm, char_limit, compress_mode);
        },
    }
    assert forall|v: int| 0 <= v < voices.len() implies voice_text(
        #[trigger] final_voice(voices, v, bpm, char_limit, compress_mode),
        bpm,
        compress_mode,
    ).len() <= char_limit by {
        assert(voice_text(synchronized(cut[v], cut[v].len() as int, end), bpm, compress_mode).len()
            <= char_limit);
    }
    assert forall|v: int, i: int|
        0 <= v < voices.len() && 0 <= i < final_voice(
            voices,
            v,
            bpm,
            char_limit,
            compress_mode,
        ).len() implies (#[trigger] final_voice(voices, v, bpm, char_limit, compress_mode)[i]).end
        <= end by {
        lemma_synchronized(cut[v], cut[v].len() as int, end);
    }
}

} // verus!
