//! Note lengths of the notation, and how a tick duration is spelled in them.

use vstd::prelude::*;

verus! {

/// A note length of the notation: the `denominator`-th part of a whole note,
/// half as long again when dotted.
#[derive(Clone, Copy, Debug, PartialEq, Eq, Structural)]
pub struct Length {
    pub denominator: u8,
    pub dotted: bool,
}

/// Ticks of a whole note.
pub const WHOLE_TICKS: u32 = 1536;

impl Length {
    /// Ticks that the length lasts.
    pub open spec fn spec_ticks(self) -> int {
        if self.denominator == 0 {
            0
        } else if self.dotted {
            1536int / (self.denominator as int) + 1536int / (self.denominator as int) / 2
        } else {
            1536int / (self.denominator as int)
        }
    }

    /// Ticks that the length lasts.
    pub fn ticks(&self) -> (t: u32)
        ensures
            t == self.spec_ticks(),
            t <= 2304,
    {
        if self.denominator == 0 {
            0
        } else {
            let base: u32 = 1536 / (self.denominator as u32);
            assert(base <= 1536) by (nonlinear_arith)
                requires
                    base == 1536int / (self.denominator as int),
                    self.denominator > 0,
            ;
            if self.dotted {
                base + base / 2
            } else {
                base
            }
        }
    }
}

/// The sixteenth note, which stands in where nothing else can.
pub open spec fn sixteenth() -> Length {
    Length { denominator: 16, dotted: false }
}

/// The lengths that a mode spells durations in, longest first. The compact
/// mode has the plain lengths from the whole note to the sixty-fourth; the
/// accurate mode has the dotted form of each as well.
pub open spec fn length_table(compress_mode: bool) -> Seq<Length> {
    if compress_mode {
        seq![
            Length { denominator: 1, dotted: false },
            Length { denominator: 2, dotted: false },
            Length { denominator: 4, dotted: false },
            Length { denominator: 8, dotted: false },
            Length { denominator: 16, dotted: false },
            Length { denominator: 32, dotted: false },
            Length { denominator: 64, dotted: false },
        ]
    } else {
        seq![
            Length { denominator: 1, dotted: true },
            Length { denominator: 1, dotted: false },
            Length { denominator: 2, dotted: true },
            Length { denominator: 2, dotted: false },
            Length { denominator: 4, dotted: true },
            Length { denominator: 4, dotted: false },
            Length { denominator: 8, dotted: true },
            Length { denominator: 8, dotted: false },
            Length { denominator: 16, dotted: true },
            Length { denominator: 16, dotted: false },
            Length { denominator: 32, dotted: true },
            Length { denominator: 32, dotted: false },
            Length { denominator: 64, dotted: true },
            Length { denominator: 64, dotted: false },
        ]
    }
}

/// Ticks of a chain of lengths taken together.
pub open spec fn total_ticks(chain: Seq<Length>) -> int
    decreases chain.len(),
{
    if chain.len() == 0 {
        0
    } else {
        total_ticks(chain.drop_last()) + chain.last().spec_ticks()
    }
}

/// The entry among the first `n` of the table that lasts exactly `ticks`.
pub open spec fn exact_match(table: Seq<Length>, ticks: int, n: int) -> Option<Length>
    decreases n,
{
    if n <= 0 {
        None
    } else if table[n - 1].spec_ticks() == ticks {
        Some(table[n - 1])
    } else {
        exact_match(table, ticks, n - 1)
    }
}

/// The first entry from `from` on that lasts no longer than `ticks`: in a
/// table that goes from long to short, the longest that fits.
pub open spec fn largest_fitting(table: Seq<Length>, ticks: int, from: int) -> Option<Length>
    decreases table.len() - from,
{
    if from < 0 || from >= table.len() {
        None
    } else if table[from].spec_ticks() <= ticks {
        Some(table[from])
    } else {
        largest_fitting(table, ticks, from + 1)
    }
}

/// The duration spelled greedily: the longest length that fits, then the
/// longest that fits into what is left, and so on until nothing fits.
pub open spec fn greedy(table: Seq<Length>, ticks: int) -> Seq<Length>
    decreases ticks,
{
    match largest_fitting(table, ticks, 0) {
        Some(l) => if l.spec_ticks() <= 0 || l.spec_ticks() > ticks {
            Seq::empty()
        } else {
            seq![l] + greedy(table, ticks - l.spec_ticks())
        },
        None => Seq::empty(),
    }
}

/// At most `max` lengths from the front of the chain.
pub open spec fn capped(chain: Seq<Length>, max: Option<usize>) -> Seq<Length> {
    match max {
        Some(m) => if (m as int) < chain.len() {
            chain.take(m as int)
        } else {
            chain
        },
        None => chain,
    }
}

/// The greedy spelling of a duration, cut off after `max_ties` lengths where
/// a limit is given; a single sixteenth where no length is left.
pub open spec fn tie_combination(ticks: int, max_ties: Option<usize>, compress_mode: bool) -> Seq<
    Length,
> {
    let chain = capped(greedy(length_table(compress_mode), ticks), max_ties);
    if chain.len() == 0 {
        seq![sixteenth()]
    } else {
        chain
    }
}

/// How far a length is from a duration.
pub open spec fn distance(l: Length, ticks: int) -> int {
    if l.spec_ticks() >= ticks {
        l.spec_ticks() - ticks
    } else {
        ticks - l.spec_ticks()
    }
}

/// Index of the entry nearest to `ticks` among the first `n`; of two equally
/// near entries the one that the table lists first.
pub open spec fn nearest_index(table: Seq<Length>, ticks: int, n: int) -> int
    decreases n,
{
    if n <= 1 {
        0
    } else {
        let p = nearest_index(table, ticks, n - 1);
        if distance(table[n - 1], ticks) < distance(table[p], ticks) {
            n - 1
        } else {
            p
        }
    }
}

/// The one length of the mode's table that comes nearest to the duration.
pub open spec fn safe_approximation(ticks: int, compress_mode: bool) -> Seq<Length> {
    let table = length_table(compress_mode);
    seq![table[nearest_index(table, ticks, table.len() as int)]]
}

/// How a duration is spelled for a note in a given octave.
///
/// A duration that the table holds is that one length. Any other duration
/// is, in compact mode, the nearest single length; in accurate mode it is
/// spelled greedily up to octave 4, greedily in octave 5 if two lengths are
/// enough and by the nearest single length if not, and by the nearest single
/// length above octave 5.
pub open spec fn best_length(ticks: int, octave: int, compress_mode: bool) -> Seq<Length> {
    let table = length_table(compress_mode);
    match exact_match(table, ticks, table.len() as int) {
        Some(l) => seq![l],
        None => if compress_mode {
            safe_approximation(ticks, compress_mode)
        } else if octave <= 4 {
            tie_combination(ticks, None, compress_mode)
        } else if octave == 5 {
            if greedy(table, ticks).len() <= 2 {
                tie_combination(ticks, None, compress_mode)
            } else {
                safe_approximation(ticks, compress_mode)
            }
        } else {
            safe_approximation(ticks, compress_mode)
        },
    }
}

/// The spelling comes from the table itself: not from the nearest single
/// length, and not from the sixteenth that stands in for an empty chain.
pub open spec fn spelled_exactly(ticks: int, octave: int, compress_mode: bool) -> bool {
    let table = length_table(compress_mode);
    ||| exact_match(table, ticks, table.len() as int) is Some
    ||| !compress_mode && octave <= 4 && greedy(table, ticks).len() > 0
    ||| !compress_mode && octave == 5 && 0 < greedy(table, ticks).len() <= 2
}

/// The table of a mode.
pub fn get_exact_lengths(compress_mode: bool) -> (table: Vec<Length>)
    ensures
        table@ == length_table(compress_mode),
{
    let mut table: Vec<Length> = Vec::new();
    let mut denominator: u8 = 1;
    let mut i: usize = 0;
    while i < 7
        invariant
            i <= 7,
            denominator as int == pow2(i as int),
            compress_mode ==> table@ == length_table(true).take(i as int),
            !compress_mode ==> table@ == length_table(false).take(2 * i as int),
        decreases 7 - i,
    {
        if !compress_mode {
            table.push(Length { denominator, dotted: true });
        }
        table.push(Length { denominator, dotted: false });
        proof {
            if compress_mode {
                assert(table@ =~= length_table(true).take(i as int + 1));
            } else {
                assert(table@ =~= length_table(false).take(2 * (i as int + 1)));
            }
        }
        if i < 6 {
            denominator = denominator * 2;
        }
        i = i + 1;
    }
    proof {
        if compress_mode {
            assert(table@ =~= length_table(true));
        } else {
            assert(table@ =~= length_table(false));
        }
    }
    table
}

/// Powers of two up to the sixty-fourth; 64 beyond.
pub open spec fn pow2(i: int) -> int {
    if i <= 0 {
        1
    } else if i == 1 {
        2
    } else if i == 2 {
        4
    } else if i == 3 {
        8
    } else if i == 4 {
        16
    } else if i == 5 {
        32
    } else {
        64
    }
}

/// The tables go from long to short, from the dotted whole note, or the
/// whole note, down to the sixty-fourth; every length but the dotted
/// sixty-fourth is a whole number of grid units.
pub proof fn lemma_table(compress_mode: bool)
    ensures
        length_table(compress_mode).len() == if compress_mode {
            7int
        } else {
            14int
        },
        forall|i: int|
            0 <= i < length_table(compress_mode).len() ==> 24 <= (#[trigger] length_table(
                compress_mode,
            )[i]).spec_ticks() <= 2304,
        forall|i: int, j: int|
            0 <= i < j < length_table(compress_mode).len() ==> (#[trigger] length_table(
                compress_mode,
            )[i]).spec_ticks() > (#[trigger] length_table(compress_mode)[j]).spec_ticks(),
        forall|i: int|
            0 <= i < length_table(compress_mode).len() ==> (#[trigger] length_table(
                compress_mode,
            )[i]).spec_ticks() % 24 == 0 || length_table(compress_mode)[i].spec_ticks() == 36,
        length_table(compress_mode).last().spec_ticks() == 24,
        forall|i: int|
            0 <= i < length_table(compress_mode).len() - 1 ==> (#[trigger] length_table(
                compress_mode,
            )[i]).spec_ticks() >= 36,
        forall|i: int|
            0 <= i < length_table(compress_mode).len() && length_table(compress_mode)[i].spec_ticks()
                == 36 ==> (#[trigger] length_table(compress_mode)[i - 1]).spec_ticks() == 48,
{
    let t = length_table(compress_mode);
    if compress_mode {
        assert(t[0].spec_ticks() == 1536);
        assert(t[1].spec_ticks() == 768);
        assert(t[2].spec_ticks() == 384);
        assert(t[3].spec_ticks() == 192);
        assert(t[4].spec_ticks() == 96);
        assert(t[5].spec_ticks() == 48);
        assert(t[6].spec_ticks() == 24);
    } else {
        assert(t[0].spec_ticks() == 2304);
        assert(t[1].spec_ticks() == 1536);
        assert(t[2].spec_ticks() == 1152);
        assert(t[3].spec_ticks() == 768);
        assert(t[4].spec_ticks() == 576);
        assert(t[5].spec_ticks() == 384);
        assert(t[6].spec_ticks() == 288);
        assert(t[7].spec_ticks() == 192);
        assert(t[8].spec_ticks() == 144);
        assert(t[9].spec_ticks() == 96);
        assert(t[10].spec_ticks() == 72);
        assert(t[11].spec_ticks() == 48);
        assert(t[12].spec_ticks() == 36);
        assert(t[13].spec_ticks() == 24);
    }
}

/// What an exact match is: an entry of that many ticks, where the table has
/// one.
pub proof fn lemma_exact_match(table: Seq<Length>, ticks: int, n: int)
    requires
        0 <= n <= table.len(),
    ensures
        match exact_match(table, ticks, n) {
            Some(l) => l.spec_ticks() == ticks && exists|i: int| 0 <= i < n && table[i] == l,
            None => forall|i: int| 0 <= i < n ==> (#[trigger] table[i]).spec_ticks() != ticks,
        },
    decreases n,
{
    if n > 0 {
        if table[n - 1].spec_ticks() == ticks {
            assert(table[n - 1] == exact_match(table, ticks, n).unwrap());
        } else {
            lemma_exact_match(table, ticks, n - 1);
        }
    }
}

/// What the longest fitting length is: it fits, and nothing listed before
/// it does.
pub proof fn lemma_largest_fitting(table: Seq<Length>, ticks: int, from: int)
    requires
        0 <= from <= table.len(),
    ensures
        match largest_fitting(table, ticks, from) {
            Some(l) => exists|k: int|
                from <= k < table.len() && table[k] == l && l.spec_ticks() <= ticks && forall|
                    i: int,
                | from <= i < k ==> (#[trigger] table[i]).spec_ticks() > ticks,
            None => forall|i: int| from <= i < table.len() ==> (#[trigger] table[i]).spec_ticks() > ticks,
        },
    decreases table.len() - from,
{
    if from < table.len() {
        if table[from].spec_ticks() <= ticks {
            assert(table[from] == largest_fitting(table, ticks, from).unwrap());
        } else {
            lemma_largest_fitting(table, ticks, from + 1);
            match largest_fitting(table, ticks, from + 1) {
                Some(l) => {
                    let k = choose|k: int|
                        from + 1 <= k < table.len() && table[k] == l && l.spec_ticks() <= ticks
                            && forall|i: int|
                            from + 1 <= i < k ==> (#[trigger] table[i]).spec_ticks() > ticks;
                    assert(from <= k < table.len() && table[k] == l && l.spec_ticks() <= ticks
                        && forall|i: int| from <= i < k ==> (#[trigger] table[i]).spec_ticks() > ticks);
                },
                None => {},
            }
        }
    }
}

/// The ticks of a chain are those of its first length and of the rest.
pub proof fn lemma_total_front(l: Length, rest: Seq<Length>)
    ensures
        total_ticks(seq![l] + rest) == l.spec_ticks() + total_ticks(rest),
    decreases rest.len(),
{
    let whole = seq![l] + rest;
    if rest.len() == 0 {
        assert(whole.drop_last() =~= Seq::<Length>::empty());
        assert(total_ticks(whole.drop_last()) == 0);
    } else {
        assert(whole.drop_last() =~= seq![l] + rest.drop_last());
        assert(whole.last() == rest.last());
        lemma_total_front(l, rest.drop_last());
    }
}

/// A chain of one length lasts as long as that length.
pub proof fn lemma_total_single(l: Length)
    ensures
        total_ticks(seq![l]) == l.spec_ticks(),
{
    lemma_total_front(l, Seq::empty());
    assert(seq![l] + Seq::<Length>::empty() =~= seq![l]);
}

/// A greedy spelling never lasts longer than the duration, uses a length
/// for every 24 ticks at most, and stops short of it by less than 24 ticks.
pub proof fn lemma_greedy(compress_mode: bool, ticks: int)
    requires
        ticks >= 0,
    ensures
        total_ticks(greedy(length_table(compress_mode), ticks)) <= ticks,
        ticks - total_ticks(greedy(length_table(compress_mode), ticks)) < 24,
        greedy(length_table(compress_mode), ticks).len() * 24 <= ticks,
        ticks >= 24 ==> greedy(length_table(compress_mode), ticks).len() > 0,
        forall|i: int|
            0 <= i < greedy(length_table(compress_mode), ticks).len() ==> 24 <= (#[trigger] greedy(
                length_table(compress_mode),
                ticks,
            )[i]).spec_ticks() <= 2304,
    decreases ticks,
{
    let table = length_table(compress_mode);
    lemma_table(compress_mode);
    lemma_largest_fitting(table, ticks, 0);
    match largest_fitting(table, ticks, 0) {
        Some(l) => {
            let rest = greedy(table, ticks - l.spec_ticks());
            lemma_greedy(compress_mode, ticks - l.spec_ticks());
            lemma_total_front(l, rest);
            let g = greedy(table, ticks);
            assert(g == seq![l] + rest);
            assert forall|i: int| 0 <= i < g.len() implies 24 <= (#[trigger] g[i]).spec_ticks()
                <= 2304 by {
                if i > 0 {
                    assert(g[i] == rest[i - 1]);
                }
            }
        },
        None => {
            assert(table.last() == table[table.len() - 1]);
        },
    }
}

/// On the grid a greedy spelling is exact: a duration of whole grid units
/// is spelled without a remainder.
pub proof fn lemma_greedy_exact(compress_mode: bool, ticks: int)
    requires
        ticks >= 0,
        ticks % 24 == 0,
    ensures
        total_ticks(greedy(length_table(compress_mode), ticks)) == ticks,
    decreases ticks,
{
    let table = length_table(compress_mode);
    lemma_table(compress_mode);
    lemma_largest_fitting(table, ticks, 0);
    match largest_fitting(table, ticks, 0) {
        Some(l) => {
            let k = choose|k: int|
                0 <= k < table.len() && table[k] == l && l.spec_ticks() <= ticks && forall|i: int|
                    0 <= i < k ==> (#[trigger] table[i]).spec_ticks() > ticks;
            if l.spec_ticks() == 36 {
                assert(table[k - 1].spec_ticks() == 48);
                assert(false);
            }
            let rest = greedy(table, ticks - l.spec_ticks());
            lemma_greedy_exact(compress_mode, ticks - l.spec_ticks());
            lemma_total_front(l, rest);
        },
        None => {
            assert(table.last() == table[table.len() - 1]);
        },
    }
}

/// What the nearest length is: none of the entries looked at is nearer, and
/// none that is listed before it is as near.
pub proof fn lemma_nearest_index(table: Seq<Length>, ticks: int, n: int)
    requires
        1 <= n <= table.len(),
    ensures
        0 <= nearest_index(table, ticks, n) < n,
        forall|i: int|
            0 <= i < n ==> distance(table[nearest_index(table, ticks, n)], ticks) <= distance(
                #[trigger] table[i],
                ticks,
            ),
        forall|i: int|
            0 <= i < nearest_index(table, ticks, n) ==> distance(
                table[nearest_index(table, ticks, n)],
                ticks,
            ) < distance(#[trigger] table[i], ticks),
    decreases n,
{
    if n > 1 {
        lemma_nearest_index(table, ticks, n - 1);
    }
}

/// Every spelling has a first length, none of its lengths is longer than a
/// dotted whole note, and together they last at most 2304 ticks more than
/// the duration.
pub proof fn lemma_best_length(ticks: int, octave: int, compress_mode: bool)
    requires
        ticks >= 0,
    ensures
        best_length(ticks, octave, compress_mode).len() >= 1,
        best_length(ticks, octave, compress_mode).len() <= ticks / 24 + 1,
        total_ticks(best_length(ticks, octave, compress_mode)) <= ticks + 2304,
        forall|i: int|
            0 <= i < best_length(ticks, octave, compress_mode).len() ==> 24 <= (
            #[trigger] best_length(ticks, octave, compress_mode)[i]).spec_ticks() <= 2304,
{
    let table = length_table(compress_mode);
    lemma_table(compress_mode);
    lemma_exact_match(table, ticks, table.len() as int);
    lemma_nearest_index(table, ticks, table.len() as int);
    lemma_greedy(compress_mode, ticks);
    let b = best_length(ticks, octave, compress_mode);
    lemma_total_single(table[nearest_index(table, ticks, table.len() as int)]);
    lemma_total_single(sixteenth());
    match exact_match(table, ticks, table.len() as int) {
        Some(l) => {
            lemma_total_single(l);
        },
        None => {},
    }
}

/// No length of the chain is longer than the one before it.
pub open spec fn falling(chain: Seq<Length>) -> bool {
    forall|i: int, j: int|
        0 <= i < j < chain.len() ==> (#[trigger] chain[i]).spec_ticks() >= (
        #[trigger] chain[j]).spec_ticks()
}

/// Every length of the chain is one of the mode's table.
pub open spec fn from_table(chain: Seq<Length>, compress_mode: bool) -> bool {
    forall|i: int| 0 <= i < chain.len() ==> length_table(compress_mode).contains(#[trigger] chain[i])
}

/// A greedy spelling uses lengths of the table, from long to short.
pub proof fn lemma_greedy_falls(compress_mode: bool, ticks: int)
    requires
        ticks >= 0,
    ensures
        from_table(greedy(length_table(compress_mode), ticks), compress_mode),
        falling(greedy(length_table(compress_mode), ticks)),
    decreases ticks,
{
    let table = length_table(compress_mode);
    lemma_table(compress_mode);
    lemma_largest_fitting(table, ticks, 0);
    match largest_fitting(table, ticks, 0) {
        Some(l) => {
            let left = ticks - l.spec_ticks();
            let rest = greedy(table, left);
            let g = greedy(table, ticks);
            lemma_greedy_falls(compress_mode, left);
            assert(g == seq![l] + rest);
            let k = choose|k: int|
                0 <= k < table.len() && table[k] == l && l.spec_ticks() <= ticks && forall|i: int|
                    0 <= i < k ==> (#[trigger] table[i]).spec_ticks() > ticks;
            assert forall|i: int| 0 <= i < g.len() implies table.contains(#[trigger] g[i]) by {
                if i > 0 {
                    assert(g[i] == rest[i - 1]);
                }
            }
            if rest.len() > 0 {
                lemma_largest_fitting(table, left, 0);
                let next = largest_fitting(table, left, 0).unwrap();
                assert(rest[0] == next);
                let m = choose|m: int|
                    0 <= m < table.len() && table[m] == next && next.spec_ticks() <= left && forall|
                        i: int,
                    | 0 <= i < m ==> (#[trigger] table[i]).spec_ticks() > left;
                if m < k {
                    assert(table[m].spec_ticks() > ticks);
                }
                if m > k {
                    assert(table[k].spec_ticks() > table[m].spec_ticks());
                }
                assert(next.spec_ticks() <= l.spec_ticks());
            }
            assert forall|i: int, j: int| 0 <= i < j < g.len() implies (#[trigger] g[i]).spec_ticks()
                >= (#[trigger] g[j]).spec_ticks() by {
                assert(g[j] == rest[j - 1]);
                if i > 0 {
                    assert(g[i] == rest[i - 1]);
                } else if j > 1 {
                    assert(rest[0].spec_ticks() >= rest[j - 1].spec_ticks());
                }
            }
        },
        None => {},
    }
}

/// Every spelling uses lengths of the mode's table, from long to short.
pub proof fn lemma_best_length_falls(ticks: int, octave: int, compress_mode: bool)
    requires
        ticks >= 0,
    ensures
        from_table(best_length(ticks, octave, compress_mode), compress_mode),
        falling(best_length(ticks, octave, compress_mode)),
{
    let table = length_table(compress_mode);
    lemma_table(compress_mode);
    lemma_exact_match(table, ticks, table.len() as int);
    lemma_nearest_index(table, ticks, table.len() as int);
    lemma_greedy_falls(compress_mode, ticks);
    let b = best_length(ticks, octave, compress_mode);
    if compress_mode {
        assert(table[4] == sixteenth());
    } else {
        assert(table[9] == sixteenth());
    }
    assert forall|i: int| 0 <= i < b.len() implies table.contains(#[trigger] b[i]) by {
        match exact_match(table, ticks, table.len() as int) {
            Some(l) => {},
            None => {},
        }
    }
}

/// A note on the grid whose spelling comes from the table is spelled to the
/// tick: the lengths of its tokens add up to its duration.
pub proof fn lemma_spelling_exact(ticks: int, octave: int, compress_mode: bool)
    requires
        ticks >= 0,
        ticks % 24 == 0,
        spelled_exactly(ticks, octave, compress_mode),
    ensures
        total_ticks(best_length(ticks, octave, compress_mode)) == ticks,
{
    let table = length_table(compress_mode);
    lemma_exact_match(table, ticks, table.len() as int);
    lemma_greedy_exact(compress_mode, ticks);
    match exact_match(table, ticks, table.len() as int) {
        Some(l) => {
            lemma_total_single(l);
        },
        None => {},
    }
}

/// The length of the mode's table that lasts exactly `ticks`, as a chain of
/// one; nothing where the table has no such length.
pub fn find_exact_match(ticks: u32, compress_mode: bool) -> (r: Option<Vec<Length>>)
    ensures
        match exact_match(
            length_table(compress_mode),
            ticks as int,
            length_table(compress_mode).len() as int,
        ) {
            Some(l) => r matches Some(v) && v@ == seq![l],
            None => r is None,
        },
{
    let table = get_exact_lengths(compress_mode);
    let mut n: usize = table.len();
    while n > 0
        invariant
            n <= table@.len(),
            table@ == length_table(compress_mode),
            exact_match(table@, ticks as int, table@.len() as int) == exact_match(
                table@,
                ticks as int,
                n as int,
            ),
        decreases n,
    {
        if table[n - 1].ticks() == ticks {
            let mut chain: Vec<Length> = Vec::new();
            chain.push(table[n - 1]);
            assert(chain@ =~= seq![table@[n - 1]]);
            return Some(chain);
        }
        n = n - 1;
    }
    None
}

/// The longest length of the table that fits into `ticks`.
fn find_largest_fitting(table: &Vec<Length>, ticks: u32) -> (r: Option<Length>)
    ensures
        r == largest_fitting(table@, ticks as int, 0),
{
    let mut i: usize = 0;
    while i < table.len()
        invariant
            i <= table@.len(),
            largest_fitting(table@, ticks as int, 0) == largest_fitting(
                table@,
                ticks as int,
                i as int,
            ),
        decreases table.len() - i,
    {
        if table[i].ticks() <= ticks {
            return Some(table[i]);
        }
        i = i + 1;
    }
    None
}

/// Spells a duration greedily in the lengths of the mode's table, with no
/// more than `max_ties` lengths where a limit is given. Where that leaves
/// nothing, the result is a single sixteenth.
pub fn find_tie_combination(ticks: u32, max_ties: Option<usize>, compress_mode: bool) -> (r: Vec<
    Length,
>)
    ensures
        r@ == tie_combination(ticks as int, max_ties, compress_mode),
        r@.len() >= 1,
{
    let table = get_exact_lengths(compress_mode);
    let ghost full = greedy(table@, ticks as int);
    let mut chain: Vec<Length> = Vec::new();
    let mut remaining: u32 = ticks;
    loop
        invariant
            table@ == length_table(compress_mode),
            full == greedy(table@, ticks as int),
            chain@ + greedy(table@, remaining as int) == full,
            max_ties matches Some(m) ==> chain@.len() <= m,
        ensures
            chain@ == capped(full, max_ties),
        decreases remaining,
    {
        match max_ties {
            Some(m) => {
                if chain.len() >= m {
                    proof {
                        assert(full.take(m as int) =~= chain@);
                        if m as int >= full.len() {
                            assert(chain@ =~= full);
                        }
                    }
                    break ;
                }
            },
            None => {},
        }
        match find_largest_fitting(&table, remaining) {
            Some(l) => {
                let t = l.ticks();
                proof {
                    lemma_table(compress_mode);
                    lemma_largest_fitting(table@, remaining as int, 0);
                    assert(chain@.push(l) + greedy(table@, remaining - t) =~= chain@ + (seq![l]
                        + greedy(table@, remaining - t)));
                }
                chain.push(l);
                remaining = remaining - t;
            },
            None => {
                proof {
                    assert(chain@ + Seq::<Length>::empty() =~= chain@);
                }
                break ;
            },
        }
    }
    if chain.len() == 0 {
        chain.push(Length { denominator: 16, dotted: false });
        assert(chain@ =~= seq![sixteenth()]);
    }
    chain
}

/// The one length of the mode's table that comes nearest to the duration;
/// of two that are equally near, the longer.
pub fn find_safe_approximation(ticks: u32, compress_mode: bool) -> (r: Vec<Length>)
    ensures
        r@ == safe_approximation(ticks as int, compress_mode),
        r@.len() == 1,
        forall|i: int|
            0 <= i < length_table(compress_mode).len() ==> distance(r@[0], ticks as int)
                <= distance(#[trigger] length_table(compress_mode)[i], ticks as int),
{
    let table = get_exact_lengths(compress_mode);
    proof {
        lemma_table(compress_mode);
        lemma_nearest_index(table@, ticks as int, table@.len() as int);
    }
    let mut best: usize = 0;
    let mut best_distance: u32 = gap_between(table[0].ticks(), ticks);
    let mut i: usize = 1;
    while i < table.len()
        invariant
            1 <= i <= table@.len(),
            table@ == length_table(compress_mode),
            best == nearest_index(table@, ticks as int, i as int),
            best < i,
            best_distance == distance(table@[best as int], ticks as int),
        decreases table.len() - i,
    {
        let d = gap_between(table[i].ticks(), ticks);
        if d < best_distance {
            best = i;
            best_distance = d;
        }
        i = i + 1;
    }
    let mut chain: Vec<Length> = Vec::new();
    chain.push(table[best]);
    assert(chain@ =~= safe_approximation(ticks as int, compress_mode));
    chain
}

/// How far two tick counts are apart.
fn gap_between(a: u32, b: u32) -> (d: u32)
    ensures
        d == if a >= b {
            a - b
        } else {
            b - a
        },
{
    if a >= b {
        a - b
    } else {
        b - a
    }
}

/// Spells the duration of a note in the given octave.
pub fn find_best_length(ticks: u32, octave: i32, compress_mode: bool) -> (r: Vec<Length>)
    ensures
        r@ == best_length(ticks as int, octave as int, compress_mode),
        r@.len() >= 1,
        from_table(r@, compress_mode),
        falling(r@),
{
    proof {
        lemma_best_length_falls(ticks as int, octave as int, compress_mode);
    }
    match find_exact_match(ticks, compress_mode) {
        Some(exact) => {
            return exact;
        },
        None => {},
    }
    if compress_mode {
        return find_safe_approximation(ticks, compress_mode);
    }
    if octave <= 4 {
        find_tie_combination(ticks, None, compress_mode)
    } else if octave == 5 {
        let ties = find_tie_combination(ticks, Some(3), compress_mode);
        if ties.len() <= 2 {
            ties
        } else {
            find_safe_approximation(ticks, compress_mode)
        }
    } else {
        find_safe_approximation(ticks, compress_mode)
    }
}

} // verus!
