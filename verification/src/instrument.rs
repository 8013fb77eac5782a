//! Grouping of notes by the instrument that plays them.

use crate::note::Note;
use vstd::prelude::*;
use vstd::utf8::encode_utf8;

verus! {

/// The first byte string comes before the second in dictionary order.
pub open spec fn bytes_before(a: Seq<u8>, b: Seq<u8>) -> bool
    decreases a.len(),
{
    if b.len() == 0 {
        false
    } else if a.len() == 0 {
        true
    } else if a[0] != b[0] {
        a[0] < b[0]
    } else {
        bytes_before(a.drop_first(), b.drop_first())
    }
}

/// The first name comes before the second: by the bytes of their UTF-8
/// encoding, in dictionary order.
pub open spec fn name_before(a: String, b: String) -> bool {
    bytes_before(encode_utf8(a@), encode_utf8(b@))
}

/// The list holds the name.
pub open spec fn listed(names: Seq<String>, name: String) -> bool {
    exists|i: int| 0 <= i < names.len() && (#[trigger] names[i])@ == name@
}

/// The instruments of the first `n` notes, each once, in the order in which
/// they first occur.
pub open spec fn distinct_instruments(notes: Seq<Note>, n: int) -> Seq<String>
    decreases n,
{
    if n <= 0 {
        Seq::empty()
    } else if listed(distinct_instruments(notes, n - 1), notes[n - 1].instrument) {
        distinct_instruments(notes, n - 1)
    } else {
        distinct_instruments(notes, n - 1).push(notes[n - 1].instrument)
    }
}

/// `x` put into `s` in front of the names that it comes before.
pub open spec fn insert_name(s: Seq<String>, x: String) -> Seq<String>
    decreases s.len(),
{
    if s.len() == 0 || !name_before(x, s.last()) {
        s.push(x)
    } else {
        insert_name(s.drop_last(), x).push(s.last())
    }
}

/// The names in dictionary order.
pub open spec fn sorted_names(s: Seq<String>) -> Seq<String>
    decreases s.len(),
{
    if s.len() == 0 {
        s
    } else {
        insert_name(sorted_names(s.drop_last()), s.last())
    }
}

/// The instruments of a note list, each once, in dictionary order.
pub open spec fn instrument_names(notes: Seq<Note>) -> Seq<String> {
    sorted_names(distinct_instruments(notes, notes.len() as int))
}

/// Those of the first `n` notes that the instrument plays.
pub open spec fn played_by(notes: Seq<Note>, n: int, name: String) -> Seq<Note>
    decreases n,
{
    if n <= 0 {
        Seq::empty()
    } else if notes[n - 1].instrument@ == name@ {
        played_by(notes, n - 1, name).push(notes[n - 1])
    } else {
        played_by(notes, n - 1, name)
    }
}

/// Inserting in front of the names that `x` comes before is a plain
/// insertion at that index.
pub proof fn lemma_name_position(s: Seq<String>, x: String, j: int)
    requires
        0 <= j <= s.len(),
        forall|k: int| j <= k < s.len() ==> name_before(x, #[trigger] s[k]),
        j == 0 || !name_before(x, s[j - 1]),
    ensures
        insert_name(s, x) == s.insert(j, x),
    decreases s.len() - j,
{
    if j == s.len() {
        assert(s.push(x) =~= s.insert(j, x));
    } else {
        let t = s.drop_last();
        assert(name_before(x, s[s.len() - 1]));
        assert forall|k: int| j <= k < t.len() implies name_before(x, #[trigger] t[k]) by {
            assert(t[k] == s[k]);
        }
        if j > 0 {
            assert(t[j - 1] == s[j - 1]);
        }
        lemma_name_position(t, x, j);
        assert(t.insert(j, x).push(s.last()) =~= s.insert(j, x));
    }
}

/// The first byte string comes before the second in dictionary order.
fn compare_bytes(a: &[u8], b: &[u8]) -> (r: bool)
    ensures
        r == bytes_before(a@, b@),
{
    let mut i: usize = 0;
    assert(a@.skip(0) =~= a@ && b@.skip(0) =~= b@);
    while i < a.len() && i < b.len()
        invariant
            i <= a@.len(),
            i <= b@.len(),
            bytes_before(a@, b@) == bytes_before(a@.skip(i as int), b@.skip(i as int)),
        decreases a.len() - i,
    {
        proof {
            assert(a@.skip(i as int).drop_first() =~= a@.skip(i as int + 1));
            assert(b@.skip(i as int).drop_first() =~= b@.skip(i as int + 1));
            assert(a@.skip(i as int)[0] == a@[i as int]);
            assert(b@.skip(i as int)[0] == b@[i as int]);
        }
        if a[i] != b[i] {
            return a[i] < b[i];
        }
        i = i + 1;
    }
    i < b.len()
}

/// The first name comes before the second.
pub fn comes_before(a: &String, b: &String) -> (r: bool)
    ensures
        r == name_before(*a, *b),
{
    compare_bytes(a.as_str().as_bytes(), b.as_str().as_bytes())
}

/// The instruments of the notes, each once, in the order in which they
/// first occur.
fn collect_instruments(notes: &Vec<Note>) -> (names: Vec<String>)
    ensures
        names@ == distinct_instruments(notes@, notes@.len() as int),
{
    let mut names: Vec<String> = Vec::new();
    let mut i: usize = 0;
    while i < notes.len()
        invariant
            i <= notes@.len(),
            names@ == distinct_instruments(notes@, i as int),
        decreases notes.len() - i,
    {
        let mut found = false;
        let mut k: usize = 0;
        while k < names.len() && !found
            invariant
                k <= names@.len(),
                i < notes@.len(),
                found ==> listed(names@, notes@[i as int].instrument),
                !found ==> forall|m: int|
                    0 <= m < k ==> (#[trigger] names@[m])@ != notes@[i as int].instrument@,
            decreases names.len() - k + if found {
                0int
            } else {
                1int
            },
        {
            if names[k] == notes[i].instrument {
                found = true;
            } else {
                k = k + 1;
            }
        }
        if !found {
            names.push(notes[i].instrument.clone());
        }
        i = i + 1;
    }
    names
}

/// Puts names into dictionary order.
fn sort_names(names: &Vec<String>) -> (r: Vec<String>)
    ensures
        r@ == sorted_names(names@),
{
    let mut out: Vec<String> = Vec::new();
    let mut i: usize = 0;
    while i < names.len()
        invariant
            i <= names@.len(),
            out@ == sorted_names(names@.take(i as int)),
        decreases names.len() - i,
    {
        proof {
            assert(names@.take(i as int + 1).drop_last() =~= names@.take(i as int));
            assert(names@.take(i as int + 1).last() == names@[i as int]);
        }
        let x = names[i].clone();
        let mut j: usize = out.len();
        while j > 0 && comes_before(&x, &out[j - 1])
            invariant
                j <= out@.len(),
                forall|k: int| j <= k < out@.len() ==> name_before(x, #[trigger] out@[k]),
            decreases j,
        {
            j = j - 1;
        }
        proof {
            lemma_name_position(out@, x, j as int);
        }
        out.insert(j, x);
        i = i + 1;
    }
    proof {
        assert(names@.take(names@.len() as int) =~= names@);
    }
    out
}

/// The instruments of a note list in dictionary order.
pub fn list_instruments(notes: &Vec<Note>) -> (names: Vec<String>)
    ensures
        names@ == instrument_names(notes@),
        rising(names@),
        distinct_names(names@),
        forall|k: int| 0 <= k < notes@.len() ==> listed(names@, (#[trigger] notes@[k]).instrument),
        forall|i: int| 0 <= i < names@.len() ==> plays(notes@, #[trigger] names@[i]),
{
    let found = collect_instruments(notes);
    proof {
        lemma_instrument_names(notes@);
    }
    sort_names(&found)
}

/// The notes that the instrument plays, in their order.
pub fn notes_of(notes: &Vec<Note>, name: &String) -> (r: Vec<Note>)
    ensures
        r@ == played_by(notes@, notes@.len() as int, *name),
{
    let mut out: Vec<Note> = Vec::new();
    let mut i: usize = 0;
    while i < notes.len()
        invariant
            i <= notes@.len(),
            out@ == played_by(notes@, i as int, *name),
        decreases notes.len() - i,
    {
        if notes[i].instrument == *name {
            out.push(notes[i].clone());
        }
        i = i + 1;
    }
    out
}

/// Every name comes before the names behind it.
pub open spec fn rising(s: Seq<String>) -> bool {
    forall|i: int, j: int| 0 <= i < j < s.len() ==> name_before(#[trigger] s[i], #[trigger] s[j])
}

/// No two names of the list read the same.
pub open spec fn distinct_names(s: Seq<String>) -> bool {
    forall|i: int, j: int| 0 <= i < j < s.len() ==> (#[trigger] s[i])@ != (#[trigger] s[j])@
}

/// One of the notes is played by the instrument.
pub open spec fn plays(notes: Seq<Note>, name: String) -> bool {
    exists|k: int| 0 <= k < notes.len() && (#[trigger] notes[k]).instrument@ == name@
}

/// No byte string comes before itself.
pub proof fn lemma_bytes_irreflexive(a: Seq<u8>)
    ensures
        !bytes_before(a, a),
    decreases a.len(),
{
    if a.len() > 0 {
        lemma_bytes_irreflexive(a.drop_first());
    }
}

/// Of two different byte strings one comes before the other.
pub proof fn lemma_bytes_total(a: Seq<u8>, b: Seq<u8>)
    requires
        a != b,
    ensures
        bytes_before(a, b) || bytes_before(b, a),
    decreases a.len(),
{
    if a.len() > 0 && b.len() > 0 && a[0] == b[0] {
        let ta = a.drop_first();
        let tb = b.drop_first();
        if ta == tb {
            assert(a.len() == ta.len() + 1 && b.len() == tb.len() + 1);
            assert forall|i: int| 0 <= i < a.len() implies a[i] == b[i] by {
                if i > 0 {
                    assert(a[i] == ta[i - 1]);
                    assert(b[i] == tb[i - 1]);
                }
            }
            assert(a =~= b);
        }
        lemma_bytes_total(ta, tb);
    } else if a.len() == 0 && b.len() == 0 {
        assert(a =~= b);
    }
}

/// What comes before something that comes before a third comes before the
/// third.
pub proof fn lemma_bytes_transitive(a: Seq<u8>, b: Seq<u8>, c: Seq<u8>)
    requires
        bytes_before(a, b),
        bytes_before(b, c),
    ensures
        bytes_before(a, c),
    decreases a.len(),
{
    if a.len() > 0 && a[0] == b[0] && b[0] == c[0] {
        lemma_bytes_transitive(a.drop_first(), b.drop_first(), c.drop_first());
    }
}

/// Names that read differently are written in different bytes.
pub proof fn lemma_names_differ(a: String, b: String)
    requires
        a@ != b@,
    ensures
        encode_utf8(a@) != encode_utf8(b@),
{
    vstd::utf8::encode_utf8_decode_utf8(a@);
    vstd::utf8::encode_utf8_decode_utf8(b@);
}

/// A name put into a rising list that does not hold it leaves the list
/// rising, with that one name more.
pub proof fn lemma_insert_name(s: Seq<String>, x: String)
    requires
        rising(s),
        !listed(s, x),
    ensures
        rising(insert_name(s, x)),
        insert_name(s, x).len() == s.len() + 1,
        forall|y: String| #[trigger] insert_name(s, x).contains(y) <==> (y == x || s.contains(y)),
    decreases s.len(),
{
    let r = insert_name(s, x);
    if s.len() == 0 || !name_before(x, s.last()) {
        assert(r == s.push(x));
        assert forall|y: String| #[trigger] r.contains(y) <==> (y == x || s.contains(y)) by {
            if r.contains(y) {
                let i = choose|i: int| 0 <= i < r.len() && r[i] == y;
                if i < s.len() {
                    assert(s[i] == y);
                }
            }
            if y == x {
                assert(r[s.len() as int] == x);
            }
            if s.contains(y) {
                let i = choose|i: int| 0 <= i < s.len() && s[i] == y;
                assert(r[i] == y);
            }
        }
        assert forall|i: int, j: int| 0 <= i < j < r.len() implies name_before(
            #[trigger] r[i],
            #[trigger] r[j],
        ) by {
            if j < s.len() {
                assert(r[i] == s[i] && r[j] == s[j]);
            } else {
                let last = s[s.len() - 1];
                assert(r[i] == s[i]);
                assert(last@ != x@);
                lemma_names_differ(last, x);
                lemma_bytes_total(encode_utf8(last@), encode_utf8(x@));
                assert(name_before(last, x));
                if i < s.len() - 1 {
                    assert(name_before(s[i], s[s.len() - 1]));
                    lemma_bytes_transitive(
                        encode_utf8(s[i]@),
                        encode_utf8(last@),
                        encode_utf8(x@),
                    );
                }
            }
        }
    } else {
        let t = s.drop_last();
        let last = s.last();
        let u = insert_name(t, x);
        assert forall|i: int, j: int| 0 <= i < j < t.len() implies name_before(
            #[trigger] t[i],
            #[trigger] t[j],
        ) by {
            assert(t[i] == s[i] && t[j] == s[j]);
        }
        if listed(t, x) {
            let i = choose|i: int| 0 <= i < t.len() && (#[trigger] t[i])@ == x@;
            assert(s[i]@ == x@);
        }
        lemma_insert_name(t, x);
        assert(r == u.push(last));
        assert forall|y: String| #[trigger] r.contains(y) <==> (y == x || s.contains(y)) by {
            if r.contains(y) {
                let i = choose|i: int| 0 <= i < r.len() && r[i] == y;
                if i < u.len() {
                    assert(u[i] == y);
                    assert(u.contains(y));
                    if y != x {
                        let k = choose|k: int| 0 <= k < t.len() && t[k] == y;
                        assert(s[k] == y);
                    }
                } else {
                    assert(s[s.len() - 1] == y);
                }
            }
            if y == x {
                assert(u.contains(x));
                let i = choose|i: int| 0 <= i < u.len() && u[i] == x;
                assert(r[i] == x);
            }
            if s.contains(y) {
                let i = choose|i: int| 0 <= i < s.len() && s[i] == y;
                if i < t.len() {
                    assert(t[i] == y);
                    assert(t.contains(y));
                    assert(u.contains(y));
                    let k = choose|k: int| 0 <= k < u.len() && u[k] == y;
                    assert(r[k] == y);
                } else {
                    assert(r[u.len() as int] == y);
                }
            }
        }
        assert forall|i: int, j: int| 0 <= i < j < r.len() implies name_before(
            #[trigger] r[i],
            #[trigger] r[j],
        ) by {
            if j < u.len() {
                assert(r[i] == u[i] && r[j] == u[j]);
            } else {
                assert(r[i] == u[i]);
                assert(u.contains(u[i]));
                if u[i] != x {
                    let k = choose|k: int| 0 <= k < t.len() && t[k] == u[i];
                    assert(s[k] == u[i]);
                    assert(name_before(s[k], s[s.len() - 1]));
                }
            }
        }
    }
}

/// Names that all read differently come out of sorting in rising order,
/// each of them once.
pub proof fn lemma_sorted_names(s: Seq<String>)
    requires
        distinct_names(s),
    ensures
        rising(sorted_names(s)),
        sorted_names(s).len() == s.len(),
        forall|y: String| #[trigger] sorted_names(s).contains(y) <==> s.contains(y),
    decreases s.len(),
{
    if s.len() > 0 {
        let t = s.drop_last();
        let x = s.last();
        let u = sorted_names(t);
        assert forall|i: int, j: int| 0 <= i < j < t.len() implies (#[trigger] t[i])@ != (
        #[trigger] t[j])@ by {
            assert(t[i] == s[i] && t[j] == s[j]);
        }
        lemma_sorted_names(t);
        if listed(u, x) {
            let i = choose|i: int| 0 <= i < u.len() && (#[trigger] u[i])@ == x@;
            assert(u.contains(u[i]));
            assert(t.contains(u[i]));
            let k = choose|k: int| 0 <= k < t.len() && t[k] == u[i];
            assert(s[k]@ == s[s.len() - 1]@);
        }
        lemma_insert_name(u, x);
        let r = sorted_names(s);
        assert forall|y: String| #[trigger] r.contains(y) <==> s.contains(y) by {
            if s.contains(y) {
                let i = choose|i: int| 0 <= i < s.len() && s[i] == y;
                if i < t.len() {
                    assert(t[i] == y);
                    assert(t.contains(y));
                }
            }
            if r.contains(y) && y != x {
                assert(u.contains(y));
                assert(t.contains(y));
                let k = choose|k: int| 0 <= k < t.len() && t[k] == y;
                assert(s[k] == y);
            }
            if y == x {
                assert(s[s.len() - 1] == y);
            }
        }
    }
}

/// The instruments collected from the first `n` notes all read differently,
/// every one of those notes is played by one of them, and each of them plays
/// one of those notes.
pub proof fn lemma_distinct_instruments(notes: Seq<Note>, n: int)
    requires
        0 <= n <= notes.len(),
    ensures
        distinct_names(distinct_instruments(notes, n)),
        forall|k: int|
            0 <= k < n ==> listed(distinct_instruments(notes, n), (#[trigger] notes[k]).instrument),
        forall|i: int|
            0 <= i < distinct_instruments(notes, n).len() ==> plays(
                notes,
                #[trigger] distinct_instruments(notes, n)[i],
            ),
    decreases n,
{
    if n > 0 {
        lemma_distinct_instruments(notes, n - 1);
        let prev = distinct_instruments(notes, n - 1);
        let cur = distinct_instruments(notes, n);
        let x = notes[n - 1].instrument;
        assert forall|i: int| 0 <= i < prev.len() implies #[trigger] cur[i] == prev[i] by {}
        assert forall|k: int| 0 <= k < n implies listed(cur, (#[trigger] notes[k]).instrument) by {
            if k < n - 1 {
                assert(listed(prev, notes[k].instrument));
                let i = choose|i: int|
                    0 <= i < prev.len() && (#[trigger] prev[i])@ == notes[k].instrument@;
                assert(cur[i]@ == notes[k].instrument@);
            } else if listed(prev, x) {
            } else {
                assert(cur[cur.len() - 1]@ == x@);
            }
        }
        assert forall|i: int| 0 <= i < cur.len() implies plays(notes, #[trigger] cur[i]) by {
            if i < prev.len() {
                assert(plays(notes, prev[i]));
            } else {
                assert(notes[n - 1].instrument@ == cur[i]@);
            }
        }
        assert forall|i: int, j: int| 0 <= i < j < cur.len() implies (#[trigger] cur[i])@ != (
        #[trigger] cur[j])@ by {
            if j < prev.len() {
                assert(prev[i]@ != prev[j]@);
            } else {
                assert(!listed(prev, x));
                assert(prev[i]@ != x@);
            }
        }
    }
}

/// The instruments of a note list stand in rising dictionary order, no
/// name twice, and they are exactly the instruments that play its notes.
pub proof fn lemma_instrument_names(notes: Seq<Note>)
    ensures
        rising(instrument_names(notes)),
        distinct_names(instrument_names(notes)),
        forall|k: int|
            0 <= k < notes.len() ==> listed(instrument_names(notes), (#[trigger] notes[k]).instrument),
        forall|i: int|
            0 <= i < instrument_names(notes).len() ==> plays(
                notes,
                #[trigger] instrument_names(notes)[i],
            ),
{
    let found = distinct_instruments(notes, notes.len() as int);
    let names = instrument_names(notes);
    lemma_distinct_instruments(notes, notes.len() as int);
    lemma_sorted_names(found);
    assert forall|i: int, j: int| 0 <= i < j < names.len() implies (#[trigger] names[i])@ != (
    #[trigger] names[j])@ by {
        assert(name_before(names[i], names[j]));
        lemma_bytes_irreflexive(encode_utf8(names[i]@));
    }
    assert forall|k: int| 0 <= k < notes.len() implies listed(
        names,
        (#[trigger] notes[k]).instrument,
    ) by {
        assert(listed(found, notes[k].instrument));
        let i = choose|i: int| 0 <= i < found.len() && (#[trigger] found[i])@ == notes[k].instrument@;
        assert(found.contains(found[i]));
        assert(names.contains(found[i]));
        let m = choose|m: int| 0 <= m < names.len() && names[m] == found[i];
        assert(names[m]@ == notes[k].instrument@);
    }
    assert forall|i: int| 0 <= i < names.len() implies plays(notes, #[trigger] names[i]) by {
        assert(names.contains(names[i]));
        assert(found.contains(names[i]));
        let m = choose|m: int| 0 <= m < found.len() && found[m] == names[i];
        assert(plays(notes, found[m]));
    }
}

} // verus!
