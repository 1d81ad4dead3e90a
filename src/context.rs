//! The context sent with a word: a window of whitespace-separated words
//! around it, taken from the nearest enclosing element whose text holds it.
use vstd::prelude::*;
use crate::chars::{is_white, whitespace};
use crate::dom::Dom;

verus! {

/// How many words before and after the marked word the context keeps.
pub const CONTEXT_WORDS: usize = 3;

/// The whitespace-separated words of `s`, in order.
pub open spec fn ws_words(s: Seq<char>) -> Seq<Seq<char>>
    decreases s.len(),
{
    if s.len() == 0 {
        Seq::empty()
    } else {
        let w = ws_words(s.drop_last());
        let c = s.last();
        if whitespace(c) {
            w
        } else if s.len() >= 2 && !whitespace(s[s.len() - 2]) && w.len() > 0 {
            w.update(w.len() - 1, w.last().push(c))
        } else {
            w.push(seq![c])
        }
    }
}

/// `s` without its whitespace.
pub open spec fn squash(s: Seq<char>) -> Seq<char>
    decreases s.len(),
{
    if s.len() == 0 {
        Seq::empty()
    } else if whitespace(s.last()) {
        squash(s.drop_last())
    } else {
        squash(s.drop_last()).push(s.last())
    }
}

/// `needle` occurs in `hay` at position `i`.
pub open spec fn infix_at(hay: Seq<char>, needle: Seq<char>, i: int) -> bool {
    0 <= i && i + needle.len() <= hay.len() && hay.subrange(i, i + needle.len()) == needle
}

/// `needle` occurs somewhere in `hay`.
pub open spec fn has_infix(hay: Seq<char>, needle: Seq<char>) -> bool {
    exists|i: int| infix_at(hay, needle, i)
}

/// The first index, from `j` on, of `w` in `words`.
pub open spec fn index_from(words: Seq<Seq<char>>, w: Seq<char>, j: int) -> Option<int>
    decreases words.len() - j,
{
    if j < 0 || j >= words.len() {
        None
    } else if words[j] == w {
        Some(j)
    } else {
        index_from(words, w, j + 1)
    }
}

/// Words joined with single spaces.
pub open spec fn join_space(ws: Seq<Seq<char>>) -> Seq<char>
    decreases ws.len(),
{
    if ws.len() == 0 {
        Seq::empty()
    } else if ws.len() == 1 {
        ws[0]
    } else {
        join_space(ws.drop_last()) + seq![' '] + ws.last()
    }
}

/// The words around position `pos`: up to `CONTEXT_WORDS` before it, the
/// word itself, and up to `CONTEXT_WORDS` after it, joined with spaces.
pub open spec fn window(words: Seq<Seq<char>>, pos: int) -> Seq<char> {
    let a = if pos - CONTEXT_WORDS >= 0 {
        pos - CONTEXT_WORDS
    } else {
        0
    };
    let b = if pos + CONTEXT_WORDS + 1 <= words.len() {
        pos + CONTEXT_WORDS + 1
    } else {
        words.len() as int
    };
    join_space(words.subrange(a, b))
}

/// Walking up from `e`, the window around `word` in the first element whose
/// text, without whitespace, holds `word` and whose words include it.
pub open spec fn context_up(d: Dom, e: int, word: Seq<char>) -> Option<Seq<char>>
    decreases e,
{
    if !d.valid(e) {
        None
    } else {
        let t = d.text_of(e);
        if has_infix(squash(t), word) && index_from(ws_words(t), word, 0) is Some {
            Some(window(ws_words(t), index_from(ws_words(t), word, 0)->0))
        } else {
            match d.parent_of(e) {
                Some(p) => if 0 <= p < e {
                    context_up(d, p as int, word)
                } else {
                    None
                },
                None => None,
            }
        }
    }
}

/// The context of `word` marked inside wrapper `root`: found above the
/// wrapper, or else taken from the wrapper's own text.
pub open spec fn word_context(d: Dom, root: int, word: Seq<char>) -> Seq<char> {
    let up = match d.parent_of(root) {
        Some(p) => context_up(d, p as int, word),
        None => None,
    };
    match up {
        Some(c) => c,
        None => {
            let ws = ws_words(d.text_of(root));
            let pos = match index_from(ws, word, 0) {
                Some(p) => p,
                None => 0,
            };
            window(ws, pos)
        },
    }
}

/// The character sequences of a list of character vectors.
pub open spec fn views(ws: Seq<Vec<char>>) -> Seq<Seq<char>> {
    ws.map_values(|v: Vec<char>| v@)
}

/// The whitespace-separated words of `s`.
pub fn split_words(s: &Vec<char>) -> (r: Vec<Vec<char>>)
    ensures
        views(r@) == ws_words(s@),
{
    let mut r: Vec<Vec<char>> = Vec::new();
    let mut i: usize = 0;
    while i < s.len()
        invariant
            i <= s@.len(),
            r@.len() == ws_words(s@.take(i as int)).len(),
            forall|k: int| 0 <= k < r@.len() ==> (#[trigger] r@[k])@ == ws_words(s@.take(i as int))[k],
        decreases s@.len() - i,
    {
        let c = s[i];
        let ghost pre = s@.take(i as int);
        let ghost next = s@.take(i + 1);
        assert(next.drop_last() =~= pre);
        assert(next.last() == c);
        if !is_white(c) {
            if i >= 1 && !is_white(s[i - 1]) && r.len() > 0 {
                assert(next[next.len() - 2] == s@[i - 1]);
                let mut w = r.pop().unwrap();
                w.push(c);
                r.push(w);
            } else {
                if i >= 1 {
                    assert(next[next.len() - 2] == s@[i - 1]);
                }
                r.push(seq_vec(c));
                assert forall|k: int| 0 <= k < r@.len() implies (#[trigger] r@[k])@ == ws_words(next)[k] by {
                    if k == r@.len() - 1 {
                        assert(r@[k]@ =~= seq![c]);
                    }
                }
            }
        }
        i = i + 1;
    }
    assert(s@.take(s@.len() as int) =~= s@);
    assert(views(r@) =~= ws_words(s@));
    r
}

fn seq_vec(c: char) -> (r: Vec<char>)
    ensures
        r@ == seq![c],
{
    let mut v: Vec<char> = Vec::new();
    v.push(c);
    assert(v@ =~= seq![c]);
    v
}

/// `s` without its whitespace.
pub fn squash_chars(s: &Vec<char>) -> (r: Vec<char>)
    ensures
        r@ == squash(s@),
{
    let mut r: Vec<char> = Vec::new();
    let mut i: usize = 0;
    while i < s.len()
        invariant
            i <= s@.len(),
            r@ == squash(s@.take(i as int)),
        decreases s@.len() - i,
    {
        assert(s@.take(i + 1).drop_last() =~= s@.take(i as int));
        if !is_white(s[i]) {
            r.push(s[i]);
        }
        i = i + 1;
    }
    assert(s@.take(s@.len() as int) =~= s@);
    r
}

fn infix_at_exec(hay: &Vec<char>, needle: &Vec<char>, i: usize) -> (r: bool)
    ensures
        r == infix_at(hay@, needle@, i as int),
{
    let hl = hay.len();
    if i > hl || needle.len() > hl - i {
        return false;
    }
    let mut k: usize = 0;
    while k < needle.len()
        invariant
            hl == hay@.len(),
            i + needle@.len() <= hay@.len(),
            k <= needle@.len(),
            forall|j: int| 0 <= j < k ==> hay@[i + j] == needle@[j],
        decreases needle@.len() - k,
    {
        if hay[i + k] != needle[k] {
            assert(hay@.subrange(i as int, i + needle@.len())[k as int] != needle@[k as int]);
            return false;
        }
        k = k + 1;
    }
    assert(hay@.subrange(i as int, i + needle@.len()) =~= needle@);
    true
}

/// Whether `needle` occurs in `hay`.
pub fn contains_infix(hay: &Vec<char>, needle: &Vec<char>) -> (r: bool)
    ensures
        r == has_infix(hay@, needle@),
{
    let n = hay.len();
    let mut i: usize = 0;
    while i < n
        invariant
            n == hay@.len(),
            i <= n,
            forall|j: int| 0 <= j < i ==> !infix_at(hay@, needle@, j),
        decreases n - i,
    {
        if infix_at_exec(hay, needle, i) {
            return true;
        }
        i = i + 1;
    }
    if infix_at_exec(hay, needle, n) {
        return true;
    }
    assert forall|j: int| !infix_at(hay@, needle@, j) by {
        if 0 <= j && j + needle@.len() <= hay@.len() {
            assert(j <= n);
        }
    }
    false
}

/// The first index of `w` in `words`.
pub fn index_of_word(words: &Vec<Vec<char>>, w: &Vec<char>) -> (r: Option<usize>)
    ensures
        match r {
            Some(k) => index_from(views(words@), w@, 0) == Some(k as int),
            None => index_from(views(words@), w@, 0) is None,
        },
{
    let ghost ws = views(words@);
    assert(ws.len() == words@.len());
    let mut j: usize = words.len();
    let mut found: Option<usize> = None;
    while j > 0
        invariant
            j <= words@.len(),
            ws == views(words@),
            ws.len() == words@.len(),
            match found {
                Some(k) => index_from(ws, w@, j as int) == Some(k as int),
                None => index_from(ws, w@, j as int) is None,
            },
        decreases j,
    {
        j = j - 1;
        assert(ws[j as int] == words@[j as int]@);
        if crate::scan::same_chars(&words[j], w) {
            found = Some(j);
        }
    }
    found
}

/// The words `ws[a..b]` joined with single spaces.
fn join_range(ws: &Vec<Vec<char>>, a: usize, b: usize) -> (r: Vec<char>)
    requires
        a <= b <= ws@.len(),
    ensures
        r@ == join_space(views(ws@).subrange(a as int, b as int)),
{
    let ghost dv = views(ws@);
    assert(dv.len() == ws@.len());
    let mut r: Vec<char> = Vec::new();
    let mut k: usize = a;
    while k < b
        invariant
            a <= k <= b <= ws@.len(),
            dv == views(ws@),
            dv.len() == ws@.len(),
            r@ == join_space(dv.subrange(a as int, k as int)),
        decreases b - k,
    {
        let ghost pre = dv.subrange(a as int, k as int);
        let ghost next = dv.subrange(a as int, k + 1);
        assert(next.drop_last() =~= pre);
        assert(next.last() == ws@[k as int]@);
        if k > a {
            r.push(' ');
        }
        let mut w = ws[k].clone();
        r.append(&mut w);
        proof {
            if k == a {
                assert(r@ =~= next[0]);
            } else {
                assert(r@ =~= join_space(pre) + seq![' '] + next.last());
            }
        }
        k = k + 1;
    }
    r
}

/// The window of words around position `pos` (see `window`).
pub fn window_around(ws: &Vec<Vec<char>>, pos: usize) -> (r: Vec<char>)
    requires
        pos <= ws@.len(),
    ensures
        r@ == window(views(ws@), pos as int),
{
    let a = if pos >= CONTEXT_WORDS {
        pos - CONTEXT_WORDS
    } else {
        0
    };
    let b = if ws.len() >= CONTEXT_WORDS + 1 && pos <= ws.len() - (CONTEXT_WORDS + 1) {
        pos + CONTEXT_WORDS + 1
    } else {
        ws.len()
    };
    join_range(ws, a, b)
}

/// The context of `word` marked inside wrapper `root` (see `word_context`).
pub fn context_of(d: &Dom, root: usize, word: &Vec<char>) -> (r: Vec<char>)
    requires
        d.wf(),
        root < d.size(),
    ensures
        r@ == word_context(*d, root as int, word@),
{
    let mut cur = d.parent_node(root);
    loop
        invariant
            d.wf(),
            root < d.size(),
            match cur {
                Some(e) => e < d.size(),
                None => true,
            },
            word_context(*d, root as int, word@) == match cur {
                Some(e) => match context_up(*d, e as int, word@) {
                    Some(c) => c,
                    None => fallback(*d, root as int, word@),
                },
                None => fallback(*d, root as int, word@),
            },
        ensures
            word_context(*d, root as int, word@) == fallback(*d, root as int, word@),
        decreases match cur {
            Some(e) => e + 1,
            None => 0,
        },
    {
        match cur {
            None => {
                break;
            },
            Some(e) => {
                let t = d.text_content(e);
                let sq = squash_chars(&t);
                if contains_infix(&sq, word) {
                    let ws = split_words(&t);
                    match index_of_word(&ws, word) {
                        Some(pos) => {
                            proof {
                                lemma_index_in_range(views(ws@), word@, 0);
                            }
                            return window_around(&ws, pos);
                        },
                        None => {},
                    }
                }
                cur = d.parent_node(e);
            },
        }
    }
    let t = d.text_content(root);
    let ws = split_words(&t);
    let pos = match index_of_word(&ws, word) {
        Some(p) => {
            proof {
                lemma_index_in_range(views(ws@), word@, 0);
            }
            p
        },
        None => 0,
    };
    window_around(&ws, pos)
}

/// The context taken from the wrapper's own text.
pub open spec fn fallback(d: Dom, root: int, word: Seq<char>) -> Seq<char> {
    let ws = ws_words(d.text_of(root));
    let pos = match index_from(ws, word, 0) {
        Some(p) => p,
        None => 0,
    };
    window(ws, pos)
}

proof fn lemma_index_in_range(words: Seq<Seq<char>>, w: Seq<char>, j: int)
    requires
        0 <= j,
        index_from(words, w, j) is Some,
    ensures
        j <= index_from(words, w, j)->0 < words.len(),
    decreases words.len() - j,
{
    if j < words.len() && words[j] != w {
        lemma_index_in_range(words, w, j + 1);
    }
}

} // verus!
