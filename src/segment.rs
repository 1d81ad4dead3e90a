//! Splitting a text run into maximal alphabetic runs and single other characters.
use vstd::prelude::*;
use crate::chars::{alphabetic, chars_of, is_alpha, slice_chars, string_of};

verus! {

/// Position `i` continues the run before it: the characters on both sides are alphabetic.
pub open spec fn joins(s: Seq<char>, i: int) -> bool {
    0 < i < s.len() && alphabetic(s[i - 1]) && alphabetic(s[i])
}

/// `r` lists the half-open spans of `s`'s runs, left to right: together they
/// cover `s` without gaps or overlaps, and a run ends exactly where the next
/// position does not join it.
pub open spec fn spans_of(s: Seq<char>, r: Seq<(usize, usize)>) -> bool {
    &&& (r.len() == 0 <==> s.len() == 0)
    &&& r.len() > 0 ==> r[0].0 == 0 && r.last().1 == s.len()
    &&& forall|k: int| 0 <= k < r.len() ==> #[trigger] r[k].0 < r[k].1
    &&& forall|k: int| 0 <= k < r.len() - 1 ==> #[trigger] r[k].1 == r[k + 1].0
    &&& forall|k: int| 0 <= k < r.len() ==> !joins(s, #[trigger] r[k].0 as int)
    &&& forall|k: int, i: int| #![trigger r[k], joins(s, i)] 0 <= k < r.len() && r[k].0 < i < r[k].1 ==> joins(s, i)
}

/// The spans of a list of runs with their texts.
pub open spec fn spans(r: Seq<(usize, usize, String)>) -> Seq<(usize, usize)> {
    r.map_values(|t: (usize, usize, String)| (t.0, t.1))
}

/// `r` holds the runs of `s`, each with its span and its text.
pub open spec fn runs_of(s: Seq<char>, r: Seq<(usize, usize, String)>) -> bool {
    &&& spans_of(s, spans(r))
    &&& forall|k: int| 0 <= k < r.len() ==> (#[trigger] r[k]).2@ == s.subrange(
        r[k].0 as int,
        r[k].1 as int,
    )
}

/// Sequences joined end to end.
pub open spec fn joined(parts: Seq<Seq<char>>) -> Seq<char>
    decreases parts.len(),
{
    if parts.len() == 0 {
        Seq::empty()
    } else {
        joined(parts.drop_last()) + parts.last()
    }
}

/// The span of the run that holds position `at`.
pub open spec fn holds(r: Seq<(usize, usize)>, k: int, at: int) -> bool {
    0 <= k < r.len() && r[k].0 <= at < r[k].1
}

/// The spans of the runs of `s`.
pub fn word_spans(s: &Vec<char>) -> (r: Vec<(usize, usize)>)
    ensures
        spans_of(s@, r@),
{
    let n = s.len();
    let mut r: Vec<(usize, usize)> = Vec::new();
    let mut i: usize = 0;
    while i < n
        invariant
            i <= n == s@.len(),
            (r@.len() == 0 <==> i == 0),
            r@.len() > 0 ==> r@[0].0 == 0 && r@.last().1 == i,
            forall|k: int| 0 <= k < r@.len() ==> #[trigger] r@[k].0 < r@[k].1,
            forall|k: int| 0 <= k < r@.len() - 1 ==> #[trigger] r@[k].1 == r@[k + 1].0,
            forall|k: int| 0 <= k < r@.len() ==> !joins(s@, #[trigger] r@[k].0 as int),
            forall|k: int, j: int| #![trigger r@[k], joins(s@, j)] 0 <= k < r@.len() && r@[k].0 < j < r@[k].1 ==> joins(s@, j),
        decreases n - i,
    {
        let c = s[i];
        let a = is_alpha(c);
        if i > 0 && a && is_alpha(s[i - 1]) {
            let last = r.len() - 1;
            let (st, _) = r[last];
            r.set(last, (st, i + 1));
            assert forall|k: int, j: int|
                #![trigger r@[k], joins(s@, j)]
                0 <= k < r@.len() && r@[k].0 < j < r@[k].1 implies joins(s@, j) by {
                if k == last as int && j == i as int {
                    assert(joins(s@, j));
                }
            }
        } else {
            r.push((i, i + 1));
        }
        i = i + 1;
    }
    r
}

/// Every position of `s` lies in some run.
pub proof fn lemma_spans_cover(s: Seq<char>, r: Seq<(usize, usize)>, at: int)
    requires
        spans_of(s, r),
        0 <= at < s.len(),
    ensures
        exists|k: int| holds(r, k, at),
{
    lemma_cover_prefix(s, r, at, r.len() - 1);
}

proof fn lemma_cover_prefix(s: Seq<char>, r: Seq<(usize, usize)>, at: int, k: int)
    requires
        spans_of(s, r),
        0 <= k < r.len(),
        0 <= at < r[k].1,
    ensures
        exists|j: int| holds(r, j, at),
    decreases k,
{
    if r[k].0 <= at {
        assert(holds(r, k, at));
    } else {
        assert(r[k - 1].1 == r[k].0);
        lemma_cover_prefix(s, r, at, k - 1);
    }
}

/// Runs appear left to right.
pub proof fn lemma_spans_ordered(s: Seq<char>, r: Seq<(usize, usize)>, k1: int, k2: int)
    requires
        spans_of(s, r),
        0 <= k1 < k2 < r.len(),
    ensures
        r[k1].1 <= r[k2].0,
    decreases k2 - k1,
{
    assert(r[k2 - 1].1 == r[k2].0);
    if k1 < k2 - 1 {
        lemma_spans_ordered(s, r, k1, k2 - 1);
        assert(r[k2 - 1].0 < r[k2 - 1].1);
    }
}

/// At most one run holds a position.
pub proof fn lemma_holds_unique(s: Seq<char>, r: Seq<(usize, usize)>, k1: int, k2: int, at: int)
    requires
        spans_of(s, r),
        holds(r, k1, at),
        holds(r, k2, at),
    ensures
        k1 == k2,
{
    if k1 < k2 {
        lemma_spans_ordered(s, r, k1, k2);
    } else if k2 < k1 {
        lemma_spans_ordered(s, r, k2, k1);
    }
}

/// The index of the run whose span holds position `at`, if any.
pub fn run_at(r: &Vec<(usize, usize)>, at: usize) -> (k: Option<usize>)
    ensures
        match k {
            Some(k) => holds(r@, k as int, at as int),
            None => forall|j: int| !holds(r@, j, at as int),
        },
{
    let mut k: usize = 0;
    while k < r.len()
        invariant
            k <= r@.len(),
            forall|j: int| 0 <= j < k ==> !holds(r@, j, at as int),
        decreases r@.len() - k,
    {
        let (st, en) = r[k];
        if st <= at && at < en {
            return Some(k);
        }
        k = k + 1;
    }
    None
}

/// The runs of `text`, left to right, each as its start and end character
/// offsets and its text. A run is a maximal stretch of alphabetic characters
/// or a single other character.
pub fn words_map(text: &str) -> (r: Vec<(usize, usize, String)>)
    ensures
        runs_of(text@, r@),
{
    let s = chars_of(text);
    let sp = word_spans(&s);
    let mut r: Vec<(usize, usize, String)> = Vec::new();
    let mut k: usize = 0;
    while k < sp.len()
        invariant
            k <= sp@.len(),
            s@ == text@,
            spans_of(s@, sp@),
            r@.len() == k,
            forall|j: int| 0 <= j < k ==> (#[trigger] r@[j]).0 == sp@[j].0 && r@[j].1 == sp@[j].1,
            forall|j: int| 0 <= j < k ==> (#[trigger] r@[j]).2@ == s@.subrange(
                r@[j].0 as int,
                r@[j].1 as int,
            ),
        decreases sp@.len() - k,
    {
        let (st, en) = sp[k];
        proof {
            assert(st < en);
            if k + 1 < sp@.len() {
                assert(sp@[k as int].1 == sp@[k + 1].0);
                lemma_spans_ordered(s@, sp@, k as int, sp@.len() - 1);
                assert(sp@[sp@.len() - 1].0 < sp@[sp@.len() - 1].1);
            }
        }
        let part = slice_chars(&s, st, en);
        let w = string_of(part.as_slice());
        r.push((st, en, w));
        k = k + 1;
    }
    assert(spans(r@) =~= sp@);
    r
}

/// `s[a..b]` is a nonempty alphabetic stretch that cannot be extended either way.
pub open spec fn maximal_alpha(s: Seq<char>, a: int, b: int) -> bool {
    &&& 0 <= a < b <= s.len()
    &&& forall|i: int| a <= i < b ==> alphabetic(#[trigger] s[i])
    &&& a == 0 || !alphabetic(s[a - 1])
    &&& b == s.len() || !alphabetic(s[b])
}

/// The texts of a list of runs.
pub open spec fn run_texts(r: Seq<(usize, usize, String)>) -> Seq<Seq<char>> {
    r.map_values(|t: (usize, usize, String)| t.2@)
}

proof fn lemma_joined_prefix(s: Seq<char>, r: Seq<(usize, usize, String)>, k: int)
    requires
        0 <= k <= r.len(),
        r.len() > 0 ==> r[0].0 == 0,
        forall|j: int| 0 <= j < r.len() - 1 ==> #[trigger] r[j].1 == r[j + 1].0,
        forall|j: int| 0 <= j < r.len() ==> (#[trigger] r[j]).0 <= r[j].1 <= s.len(),
        forall|j: int|
            0 <= j < r.len() ==> (#[trigger] r[j]).2@ == s.subrange(r[j].0 as int, r[j].1 as int),
    ensures
        k == 0 ==> joined(run_texts(r.take(k))) == Seq::<char>::empty(),
        k > 0 ==> joined(run_texts(r.take(k))) == s.subrange(0, r[k - 1].1 as int),
    decreases k,
{
    let parts = run_texts(r.take(k));
    if k > 0 {
        lemma_joined_prefix(s, r, k - 1);
        assert(parts.drop_last() =~= run_texts(r.take(k - 1)));
        assert(parts.last() == r[k - 1].2@);
        if k > 1 {
            assert(r[k - 2].1 == r[k - 1].0);
        }
        assert(joined(parts) =~= s.subrange(0, r[k - 1].1 as int));
    }
}

/// Facts of the triples that `runs_of` states through their spans.
proof fn lemma_runs_fields(s: Seq<char>, r: Seq<(usize, usize, String)>)
    requires
        runs_of(s, r),
    ensures
        spans(r).len() == r.len(),
        forall|j: int| 0 <= j < r.len() ==> #[trigger] spans(r)[j] == (r[j].0, r[j].1),
        r.len() > 0 ==> r[0].0 == 0 && r.last().1 == s.len(),
        forall|j: int| 0 <= j < r.len() - 1 ==> #[trigger] r[j].1 == r[j + 1].0,
        forall|j: int| 0 <= j < r.len() ==> (#[trigger] r[j]).0 < r[j].1 <= s.len(),
{
    let sp = spans(r);
    assert forall|j: int| 0 <= j < r.len() - 1 implies #[trigger] r[j].1 == r[j + 1].0 by {
        assert(sp[j].1 == sp[j + 1].0);
    }
    assert forall|j: int| 0 <= j < r.len() implies (#[trigger] r[j]).0 < r[j].1 <= s.len() by {
        assert(sp[j].0 < sp[j].1);
        if j < r.len() - 1 {
            lemma_spans_ordered(s, sp, j, r.len() - 1);
            assert(sp[r.len() - 1].0 < sp[r.len() - 1].1);
        }
    }
    if r.len() > 0 {
        assert(sp[0] == (r[0].0, r[0].1));
        assert(sp[r.len() - 1] == (r.last().0, r.last().1));
    }
}

/// Joining the texts of all runs of `s` gives back `s`; each maximal
/// alphabetic stretch of `s` is the span of a run, and no two runs share a
/// start.
pub proof fn lemma_runs_rebuild(s: Seq<char>, r: Seq<(usize, usize, String)>)
    requires
        runs_of(s, r),
    ensures
        joined(run_texts(r)) == s,
        forall|a: int, b: int|
            #[trigger] maximal_alpha(s, a, b) ==> exists|k: int|
                0 <= k < r.len() && r[k].0 == a && r[k].1 == b,
        forall|k1: int, k2: int|
            0 <= k1 < r.len() && 0 <= k2 < r.len() && r[k1].0 == r[k2].0 ==> k1 == k2,
{
    lemma_runs_join(s, r);
    lemma_runs_maximal(s, r);
    lemma_runs_distinct(s, r);
}

proof fn lemma_runs_join(s: Seq<char>, r: Seq<(usize, usize, String)>)
    requires
        runs_of(s, r),
    ensures
        joined(run_texts(r)) == s,
{
    lemma_runs_fields(s, r);
    lemma_joined_prefix(s, r, r.len() as int);
    assert(r.take(r.len() as int) =~= r);
    if r.len() > 0 {
        assert(s.subrange(0, s.len() as int) =~= s);
    } else {
        assert(s =~= Seq::<char>::empty());
    }
}

proof fn lemma_runs_maximal(s: Seq<char>, r: Seq<(usize, usize, String)>)
    requires
        runs_of(s, r),
    ensures
        forall|a: int, b: int|
            #[trigger] maximal_alpha(s, a, b) ==> exists|k: int|
                0 <= k < r.len() && r[k].0 == a && r[k].1 == b,
{
    assert forall|a: int, b: int| #[trigger] maximal_alpha(s, a, b) implies exists|k: int|
        0 <= k < r.len() && r[k].0 == a && r[k].1 == b by {
        lemma_maximal_run(s, spans(r), a, b);
        let k = choose|k: int| 0 <= k < spans(r).len() && spans(r)[k].0 == a && spans(r)[k].1 == b;
        assert(spans(r)[k] == (r[k].0, r[k].1));
    }
}

proof fn lemma_runs_distinct(s: Seq<char>, r: Seq<(usize, usize, String)>)
    requires
        runs_of(s, r),
    ensures
        forall|k1: int, k2: int|
            0 <= k1 < r.len() && 0 <= k2 < r.len() && r[k1].0 == r[k2].0 ==> k1 == k2,
{
    assert forall|k1: int, k2: int|
        0 <= k1 < r.len() && 0 <= k2 < r.len() && r[k1].0 == r[k2].0 implies k1 == k2 by {
        let sp = spans(r);
        assert(sp[k1] == (r[k1].0, r[k1].1));
        assert(sp[k2] == (r[k2].0, r[k2].1));
        assert(sp[k1].0 < sp[k1].1);
        assert(sp[k2].0 < sp[k2].1);
        lemma_holds_unique(s, sp, k1, k2, r[k1].0 as int);
    }
}

proof fn lemma_maximal_run(s: Seq<char>, sp: Seq<(usize, usize)>, a: int, b: int)
    requires
        spans_of(s, sp),
        maximal_alpha(s, a, b),
    ensures
        exists|k: int| 0 <= k < sp.len() && sp[k].0 == a && sp[k].1 == b,
{
    lemma_spans_cover(s, sp, a);
    let k = choose|k: int| holds(sp, k, a);
    let st = sp[k].0 as int;
    let e = sp[k].1 as int;
    assert(!joins(s, st));
    if st < a {
        assert(joins(s, a));
        assert(false);
    }
    if e > b {
        assert(joins(s, b));
        assert(false);
    }
    if e < b {
        if k + 1 >= sp.len() {
            assert(sp.last().1 == s.len());
            assert(false);
        }
        assert(sp[k].1 == sp[k + 1].0);
        assert(!joins(s, sp[k + 1].0 as int));
        assert(alphabetic(s[e - 1]));
        assert(alphabetic(s[e]));
        assert(false);
    }
    assert(0 <= k < sp.len() && sp[k].0 == a && sp[k].1 == b);
}

/// Where the run holding position `i` starts.
pub open spec fn run_start(s: Seq<char>, i: int) -> int
    decreases i,
{
    if i > 0 && joins(s, i) {
        run_start(s, i - 1)
    } else {
        i
    }
}

/// Where the run holding position `i` ends (exclusive).
pub open spec fn run_end(s: Seq<char>, i: int) -> int
    decreases s.len() - i,
{
    if i + 1 < s.len() && joins(s, i + 1) {
        run_end(s, i + 1)
    } else {
        i + 1
    }
}

/// How many runs start before position `i`: the ordinal of a run starting at `i`.
pub open spec fn starts_before(s: Seq<char>, i: int) -> int
    decreases i,
{
    if i <= 0 {
        0
    } else {
        starts_before(s, i - 1) + if joins(s, i - 1) {
            0int
        } else {
            1int
        }
    }
}

proof fn lemma_run_start(s: Seq<char>, sp: Seq<(usize, usize)>, k: int, i: int)
    requires
        spans_of(s, sp),
        holds(sp, k, i),
    ensures
        run_start(s, i) == sp[k].0,
    decreases i - sp[k].0,
{
    if i > sp[k].0 {
        assert(joins(s, i));
        lemma_run_start(s, sp, k, i - 1);
    } else {
        assert(!joins(s, sp[k].0 as int));
    }
}

proof fn lemma_run_end(s: Seq<char>, sp: Seq<(usize, usize)>, k: int, i: int)
    requires
        spans_of(s, sp),
        holds(sp, k, i),
    ensures
        run_end(s, i) == sp[k].1,
    decreases sp[k].1 - i,
{
    lemma_spans_bounded(s, sp, k);
    if i + 1 < sp[k].1 {
        assert(joins(s, i + 1));
        lemma_run_end(s, sp, k, i + 1);
    } else if i + 1 < s.len() {
        assert(k + 1 < sp.len()) by {
            if k + 1 >= sp.len() {
                assert(sp.last().1 == s.len());
            }
        }
        assert(sp[k].1 == sp[k + 1].0);
        assert(!joins(s, sp[k + 1].0 as int));
    }
}

proof fn lemma_spans_bounded(s: Seq<char>, sp: Seq<(usize, usize)>, k: int)
    requires
        spans_of(s, sp),
        0 <= k < sp.len(),
    ensures
        sp[k].1 <= s.len(),
{
    if k < sp.len() - 1 {
        lemma_spans_ordered(s, sp, k, sp.len() - 1);
        assert(sp[sp.len() - 1].0 < sp[sp.len() - 1].1);
    }
}

proof fn lemma_starts_step(s: Seq<char>, a: int, b: int)
    requires
        0 <= a < b,
        !joins(s, a),
        forall|i: int| a < i < b ==> joins(s, i),
    ensures
        starts_before(s, b) == starts_before(s, a) + 1,
    decreases b - a,
{
    if b > a + 1 {
        lemma_starts_step(s, a, b - 1);
        assert(joins(s, b - 1));
    }
}

proof fn lemma_starts_ordinal(s: Seq<char>, sp: Seq<(usize, usize)>, k: int)
    requires
        spans_of(s, sp),
        0 <= k < sp.len(),
    ensures
        starts_before(s, sp[k].0 as int) == k,
    decreases k,
{
    if k > 0 {
        lemma_starts_ordinal(s, sp, k - 1);
        assert(sp[k - 1].1 == sp[k].0);
        assert(sp[k - 1].0 < sp[k - 1].1);
        assert(!joins(s, sp[k - 1].0 as int));
        assert forall|i: int| sp[k - 1].0 < i < sp[k].0 implies joins(s, i) by {
            assert(sp[k - 1].0 < i < sp[k - 1].1);
        }
        lemma_starts_step(s, sp[k - 1].0 as int, sp[k].0 as int);
    }
}

/// The span that holds a position is the run around it, and its index is its ordinal.
pub proof fn lemma_run_around(s: Seq<char>, sp: Seq<(usize, usize)>, k: int, i: int)
    requires
        spans_of(s, sp),
        holds(sp, k, i),
    ensures
        run_start(s, i) == sp[k].0,
        run_end(s, i) == sp[k].1,
        sp[k].1 <= s.len(),
        starts_before(s, sp[k].0 as int) == k,
{
    lemma_run_start(s, sp, k, i);
    lemma_run_end(s, sp, k, i);
    lemma_spans_bounded(s, sp, k);
    lemma_starts_ordinal(s, sp, k);
}

} // verus!
