//! Stable sorting of notes by one of the orders the pipeline needs.

use crate::note::Note;
use vstd::prelude::*;

verus! {

/// The orders in which notes get arranged.
#[derive(Clone, Copy, Debug)]
pub enum NoteOrder {
    /// Earlier start first.
    Start,
    /// Earlier start first; among equal starts, higher pitch first.
    StartThenPitchDescending,
    /// Higher pitch first.
    PitchDescending,
    /// Louder first.
    VelocityDescending,
}

/// Rank of a note under an order: a note with a smaller rank comes first.
pub open spec fn sort_key(order: NoteOrder, n: Note) -> int {
    match order {
        NoteOrder::Start => n.start as int,
        NoteOrder::StartThenPitchDescending => n.start as int * 256 + (255 - n.note as int),
        NoteOrder::PitchDescending => 255 - n.note as int,
        NoteOrder::VelocityDescending => 255 - n.velocity as int,
    }
}

/// Ranks never decrease along the sequence.
pub open spec fn ordered(s: Seq<Note>, order: NoteOrder) -> bool {
    forall|i: int, j: int|
        0 <= i < j < s.len() ==> sort_key(order, #[trigger] s[i]) <= sort_key(
            order,
            #[trigger] s[j],
        )
}

/// `x` put into `s` behind every note that does not rank after it.
pub open spec fn insert_stable(s: Seq<Note>, x: Note, order: NoteOrder) -> Seq<Note>
    decreases s.len(),
{
    if s.len() == 0 || sort_key(order, s.last()) <= sort_key(order, x) {
        s.push(x)
    } else {
        insert_stable(s.drop_last(), x, order).push(s.last())
    }
}

/// The notes of `s` by ascending rank, notes of equal rank in the order in
/// which `s` has them.
pub open spec fn stable_sorted(s: Seq<Note>, order: NoteOrder) -> Seq<Note>
    decreases s.len(),
{
    if s.len() == 0 {
        s
    } else {
        insert_stable(stable_sorted(s.drop_last(), order), s.last(), order)
    }
}

/// Inserting behind the last note that does not rank after `x` is a plain
/// insertion at that index.
pub proof fn lemma_insert_position(s: Seq<Note>, x: Note, j: int, order: NoteOrder)
    requires
        0 <= j <= s.len(),
        forall|k: int| j <= k < s.len() ==> sort_key(order, #[trigger] s[k]) > sort_key(order, x),
        j == 0 || sort_key(order, s[j - 1]) <= sort_key(order, x),
    ensures
        insert_stable(s, x, order) == s.insert(j, x),
    decreases s.len() - j,
{
    if j == s.len() {
        assert(s.push(x) =~= s.insert(j, x));
    } else {
        let t = s.drop_last();
        assert(sort_key(order, s[s.len() - 1]) > sort_key(order, x));
        assert forall|k: int| j <= k < t.len() implies sort_key(order, #[trigger] t[k])
            > sort_key(order, x) by {
            assert(t[k] == s[k]);
        }
        if j > 0 {
            assert(t[j - 1] == s[j - 1]);
        }
        lemma_insert_position(t, x, j, order);
        assert(t.insert(j, x).push(s.last()) =~= s.insert(j, x));
    }
}

/// What inserting does: one note more, the same notes otherwise, and the
/// order kept.
pub proof fn lemma_insert_stable(s: Seq<Note>, x: Note, order: NoteOrder)
    ensures
        insert_stable(s, x, order).len() == s.len() + 1,
        insert_stable(s, x, order).to_multiset() == s.to_multiset().insert(x),
        forall|y: Note| #[trigger]
            insert_stable(s, x, order).contains(y) <==> (y == x || s.contains(y)),
        ordered(s, order) ==> ordered(insert_stable(s, x, order), order),
    decreases s.len(),
{
    broadcast use vstd::seq_lib::group_to_multiset_ensures;

    let r = insert_stable(s, x, order);
    if s.len() == 0 || sort_key(order, s.last()) <= sort_key(order, x) {
        assert(r == s.push(x));
        assert forall|y: Note| #[trigger] r.contains(y) <==> (y == x || s.contains(y)) by {
            if r.contains(y) {
                let i = choose|i: int| 0 <= i < r.len() && r[i] == y;
                if i < s.len() {
                    assert(s[i] == y);
                }
            }
            if y == x {
                assert(r[s.len() as int] == x);
            }
            if s.contains(y) {
                let i = choose|i: int| 0 <= i < s.len() && s[i] == y;
                assert(r[i] == y);
            }
        }
        if ordered(s, order) {
            assert forall|i: int, j: int| 0 <= i < j < r.len() implies sort_key(
                order,
                #[trigger] r[i],
            ) <= sort_key(order, #[trigger] r[j]) by {
                if j < s.len() {
                    assert(r[i] == s[i] && r[j] == s[j]);
                } else {
                    assert(r[i] == s[i]);
                    assert(sort_key(order, s[i]) <= sort_key(order, s.last()));
                }
            }
        }
    } else {
        let t = s.drop_last();
        let u = insert_stable(t, x, order);
        lemma_insert_stable(t, x, order);
        assert(r == u.push(s.last()));
        assert(s =~= t.push(s.last()));
        assert(s.to_multiset() == t.to_multiset().insert(s.last()));
        assert(r.to_multiset() =~= s.to_multiset().insert(x));
        assert forall|y: Note| #[trigger] r.contains(y) <==> (y == x || s.contains(y)) by {
            if r.contains(y) {
                let i = choose|i: int| 0 <= i < r.len() && r[i] == y;
                if i < u.len() {
                    assert(u[i] == y);
                    assert(u.contains(y));
                    if y != x {
                        let k = choose|k: int| 0 <= k < t.len() && t[k] == y;
                        assert(s[k] == y);
                    }
                } else {
                    assert(s[s.len() - 1] == y);
                }
            }
            if y == x {
                assert(u.contains(x));
                let i = choose|i: int| 0 <= i < u.len() && u[i] == x;
                assert(r[i] == x);
            }
            if s.contains(y) {
                let i = choose|i: int| 0 <= i < s.len() && s[i] == y;
                if i < t.len() {
                    assert(t[i] == y);
                    assert(t.contains(y));
                    assert(u.contains(y));
                    let k = choose|k: int| 0 <= k < u.len() && u[k] == y;
                    assert(r[k] == y);
                } else {
                    assert(r[u.len() as int] == y);
                }
            }
        }
        if ordered(s, order) {
            assert forall|i: int, j: int| 0 <= i < j < t.len() implies sort_key(
                order,
                #[trigger] t[i],
            ) <= sort_key(order, #[trigger] t[j]) by {
                assert(t[i] == s[i] && t[j] == s[j]);
            }
            assert forall|i: int, j: int| 0 <= i < j < r.len() implies sort_key(
                order,
                #[trigger] r[i],
            ) <= sort_key(order, #[trigger] r[j]) by {
                if j < u.len() {
                    assert(r[i] == u[i] && r[j] == u[j]);
                } else {
                    assert(r[i] == u[i]);
                    assert(u.contains(u[i]));
                    if u[i] != x {
                        let k = choose|k: int| 0 <= k < t.len() && t[k] == u[i];
                        assert(s[k] == u[i]);
                        assert(sort_key(order, s[k]) <= sort_key(order, s[s.len() - 1]));
                    }
                }
            }
        }
    }
}

/// Sorting rearranges: the result is in order and holds exactly the notes it
/// was given, each as often as before.
pub proof fn lemma_stable_sorted(s: Seq<Note>, order: NoteOrder)
    ensures
        stable_sorted(s, order).len() == s.len(),
        stable_sorted(s, order).to_multiset() == s.to_multiset(),
        forall|y: Note| #[trigger] stable_sorted(s, order).contains(y) <==> s.contains(y),
        ordered(stable_sorted(s, order), order),
    decreases s.len(),
{
    broadcast use vstd::seq_lib::group_to_multiset_ensures;

    if s.len() > 0 {
        let t = s.drop_last();
        let u = stable_sorted(t, order);
        lemma_stable_sorted(t, order);
        lemma_insert_stable(u, s.last(), order);
        let r = stable_sorted(s, order);
        assert(s =~= t.push(s.last()));
        assert(s.to_multiset() == t.to_multiset().insert(s.last()));
        assert forall|y: Note| #[trigger] r.contains(y) <==> s.contains(y) by {
            if s.contains(y) {
                let i = choose|i: int| 0 <= i < s.len() && s[i] == y;
                if i < t.len() {
                    assert(t[i] == y);
                    assert(t.contains(y));
                }
            }
            if r.contains(y) && y != s.last() {
                assert(u.contains(y));
                assert(t.contains(y));
                let k = choose|k: int| 0 <= k < t.len() && t[k] == y;
                assert(s[k] == y);
            }
            if y == s.last() {
                assert(s[s.len() - 1] == y);
            }
        }
    }
}

/// The notes of one rank, in the order in which the sequence has them.
pub open spec fn of_rank(s: Seq<Note>, order: NoteOrder, rank: int) -> Seq<Note>
    decreases s.len(),
{
    if s.len() == 0 {
        s
    } else if sort_key(order, s.last()) == rank {
        of_rank(s.drop_last(), order, rank).push(s.last())
    } else {
        of_rank(s.drop_last(), order, rank)
    }
}

/// An inserted note comes behind the notes of its own rank, and the notes
/// of any other rank stay as they are.
pub proof fn lemma_insert_keeps_ranks(s: Seq<Note>, x: Note, order: NoteOrder, rank: int)
    ensures
        of_rank(insert_stable(s, x, order), order, rank) == if sort_key(order, x) == rank {
            of_rank(s, order, rank).push(x)
        } else {
            of_rank(s, order, rank)
        },
    decreases s.len(),
{
    if s.len() == 0 || sort_key(order, s.last()) <= sort_key(order, x) {
        assert(s.push(x).drop_last() =~= s);
    } else {
        let t = s.drop_last();
        let u = insert_stable(t, x, order);
        lemma_insert_keeps_ranks(t, x, order, rank);
        assert(u.push(s.last()).drop_last() =~= u);
    }
}

/// Sorting is stable: the notes of any one rank come out in the order in
/// which they went in.
pub proof fn lemma_sort_is_stable(s: Seq<Note>, order: NoteOrder, rank: int)
    ensures
        of_rank(stable_sorted(s, order), order, rank) == of_rank(s, order, rank),
    decreases s.len(),
{
    if s.len() > 0 {
        lemma_sort_is_stable(s.drop_last(), order, rank);
        lemma_insert_keeps_ranks(stable_sorted(s.drop_last(), order), s.last(), order, rank);
    }
}

/// Where the notes of one rank stand side by side, they are that stretch
/// of the sequence.
pub proof fn lemma_of_rank_stretch(s: Seq<Note>, order: NoteOrder, rank: int, a: int, b: int)
    requires
        0 <= a <= b <= s.len(),
        forall|k: int| 0 <= k < a ==> sort_key(order, #[trigger] s[k]) != rank,
        forall|k: int| a <= k < b ==> sort_key(order, #[trigger] s[k]) == rank,
        forall|k: int| b <= k < s.len() ==> sort_key(order, #[trigger] s[k]) != rank,
    ensures
        of_rank(s, order, rank) == s.subrange(a, b),
    decreases s.len(),
{
    if s.len() == 0 {
        assert(s.subrange(a, b) =~= s);
    } else {
        let t = s.drop_last();
        let n = s.len() as int;
        assert forall|k: int| 0 <= k < t.len() implies #[trigger] t[k] == s[k] by {}
        if b < n {
            lemma_of_rank_stretch(t, order, rank, a, b);
            assert(t.subrange(a, b) =~= s.subrange(a, b));
        } else if a < n {
            lemma_of_rank_stretch(t, order, rank, a, n - 1);
            assert(t.subrange(a, n - 1).push(s.last()) =~= s.subrange(a, b));
        } else {
            lemma_of_rank_stretch(t, order, rank, n - 1, n - 1);
            assert(t.subrange(n - 1, n - 1) =~= s.subrange(a, b));
        }
    }
}

/// Rank of a note under an order.
pub fn note_key(order: NoteOrder, n: &Note) -> (k: u64)
    ensures
        k == sort_key(order, *n),
{
    match order {
        NoteOrder::Start => n.start as u64,
        NoteOrder::StartThenPitchDescending => n.start as u64 * 256 + (255 - n.note as u64),
        NoteOrder::PitchDescending => 255 - n.note as u64,
        NoteOrder::VelocityDescending => 255 - n.velocity as u64,
    }
}

/// Sorts the notes by the given order, keeping notes of equal rank in the
/// order in which they came.
pub fn sort_notes(notes: Vec<Note>, order: NoteOrder) -> (r: Vec<Note>)
    ensures
        r@ == stable_sorted(notes@, order),
        r@.len() == notes@.len(),
        ordered(r@, order),
        r@.to_multiset() == notes@.to_multiset(),
        forall|y: Note| #[trigger] r@.contains(y) <==> notes@.contains(y),
        forall|rank: int| #[trigger] of_rank(r@, order, rank) == of_rank(notes@, order, rank),
{
    let ghost orig = notes@;
    let mut v = notes;
    let n = v.len();
    let mut i: usize = 0;
    while i < n
        invariant
            n == orig.len(),
            v@.len() == n,
            i <= n,
            v@ == stable_sorted(orig.take(i as int), order) + orig.skip(i as int),
        decreases n - i,
    {
        let ghost prefix = stable_sorted(orig.take(i as int), order);
        proof {
            lemma_stable_sorted(orig.take(i as int), order);
            assert(orig.take(i as int + 1).drop_last() =~= orig.take(i as int));
            assert(orig.take(i as int + 1).last() == orig[i as int]);
        }
        let key = note_key(order, &v[i]);
        let mut j: usize = i;
        while j > 0 && note_key(order, &v[j - 1]) > key
            invariant
                j <= i < n,
                v@.len() == n,
                key == sort_key(order, v@[i as int]),
                forall|k: int| j <= k < i ==> sort_key(order, #[trigger] v@[k]) > key,
            decreases j,
        {
            j = j - 1;
        }
        if j < i {
            let x = v.remove(i);
            v.insert(j, x);
            proof {
                assert(x == orig[i as int]);
                assert forall|k: int| j <= k < prefix.len() implies sort_key(
                    order,
                    #[trigger] prefix[k],
                ) > sort_key(order, x) by {
                    assert(prefix[k] == (prefix + orig.skip(i as int))[k]);
                }
                if j > 0 {
                    assert(prefix[j - 1] == (prefix + orig.skip(i as int))[j - 1]);
                }
                lemma_insert_position(prefix, x, j as int, order);
                assert(v@ =~= prefix.insert(j as int, x) + orig.skip(i as int + 1));
            }
        } else {
            proof {
                let x = orig[i as int];
                assert(v@[i as int] == x);
                if j > 0 {
                    assert(prefix[j - 1] == (prefix + orig.skip(i as int))[j - 1]);
                }
                lemma_insert_position(prefix, x, i as int, order);
                assert(v@ =~= prefix.insert(i as int, x) + orig.skip(i as int + 1));
            }
        }
        i = i + 1;
    }
    proof {
        assert(orig.take(n as int) =~= orig);
        assert(v@ =~= stable_sorted(orig, order));
        lemma_stable_sorted(orig, order);
        assert forall|rank: int| #[trigger] of_rank(v@, order, rank) == of_rank(
            orig,
            order,
            rank,
        ) by {
            lemma_sort_is_stable(orig, order, rank);
        }
    }
    v
}

} // verus!
