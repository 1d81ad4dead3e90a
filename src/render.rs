//! Preparing an annotation for display: markdown to HTML, then one sentence
//! per line.
use vstd::prelude::*;
use crate::chars::{chars_of, string_of, trim_chars, trimmed};

verus! {

/// The HTML that `markdown::to_html` renders from `s`.
pub uninterp spec fn html_of(s: Seq<char>) -> Seq<char>;

/// Relies on `markdown::to_html`, which renders CommonMark with default
/// options and never fails on plain markdown.
#[verifier::external_body]
fn markdown_html(s: &str) -> (r: String)
    ensures
        r@ == html_of(s@),
{
    markdown::to_html(s)
}

/// A character that ends a sentence.
pub open spec fn is_stop(c: char) -> bool {
    c == '.' || c == '?' || c == '!' || c == ':'
}

/// `s` cut at every sentence-ending character, the characters dropped; `n`
/// such characters give `n + 1` pieces.
pub open spec fn split_stops(s: Seq<char>) -> Seq<Seq<char>>
    decreases s.len(),
{
    if s.len() == 0 {
        seq![Seq::<char>::empty()]
    } else {
        let w = split_stops(s.drop_last());
        if is_stop(s.last()) {
            w.push(Seq::empty())
        } else {
            w.update(w.len() - 1, w.last().push(s.last()))
        }
    }
}

/// Pieces joined with a full stop and a line break between each two.
pub open spec fn join_lines(ws: Seq<Seq<char>>) -> Seq<char>
    decreases ws.len(),
{
    if ws.len() == 0 {
        Seq::empty()
    } else if ws.len() == 1 {
        ws[0]
    } else {
        join_lines(ws.drop_last()) + seq!['.', '\n'] + ws.last()
    }
}

/// The sentences of `s`, trimmed and put one per line.
pub open spec fn sentence_lines(s: Seq<char>) -> Seq<char> {
    join_lines(split_stops(s).map_values(|p: Seq<char>| trimmed(p)))
}

proof fn lemma_split_nonempty(s: Seq<char>)
    ensures
        split_stops(s).len() >= 1,
    decreases s.len(),
{
    if s.len() > 0 {
        lemma_split_nonempty(s.drop_last());
    }
}

/// Puts the sentences of `s` one per line: cut at `.`, `?`, `!` and `:`,
/// trim each piece, and join the pieces with ".\n".
pub fn sentences(s: &Vec<char>) -> (r: Vec<char>)
    ensures
        r@ == sentence_lines(s@),
{
    let mut parts: Vec<Vec<char>> = Vec::new();
    parts.push(Vec::new());
    let mut i: usize = 0;
    proof {
        assert(s@.take(0) =~= Seq::<char>::empty());
    }
    while i < s.len()
        invariant
            i <= s@.len(),
            parts@.len() >= 1,
            parts@.map_values(|v: Vec<char>| v@) =~= split_stops(s@.take(i as int)),
        decreases s@.len() - i,
    {
        let c = s[i];
        let ghost pre = s@.take(i as int);
        assert(s@.take(i + 1).drop_last() =~= pre);
        if c == '.' || c == '?' || c == '!' || c == ':' {
            parts.push(Vec::new());
        } else {
            let mut last = parts.pop().unwrap();
            last.push(c);
            parts.push(last);
        }
        i = i + 1;
    }
    assert(s@.take(s@.len() as int) =~= s@);
    let ghost ps = split_stops(s@);
    let ghost tp = ps.map_values(|p: Seq<char>| trimmed(p));
    let mut r: Vec<char> = Vec::new();
    let mut k: usize = 0;
    while k < parts.len()
        invariant
            k <= parts@.len(),
            parts@.len() == tp.len(),
            tp == split_stops(s@).map_values(|p: Seq<char>| trimmed(p)),
            parts@.map_values(|v: Vec<char>| v@) =~= split_stops(s@),
            r@ == join_lines(tp.take(k as int)),
        decreases parts@.len() - k,
    {
        assert(parts@.map_values(|v: Vec<char>| v@)[k as int] == parts@[k as int]@);
        let mut piece = trim_chars(&parts[k]);
        assert(tp.take(k + 1).drop_last() =~= tp.take(k as int));
        if k > 0 {
            r.push('.');
            r.push('\n');
        }
        r.append(&mut piece);
        proof {
            if k == 0 {
                assert(r@ =~= tp.take(1)[0]);
            } else {
                assert(r@ =~= join_lines(tp.take(k as int)) + seq!['.', '\n'] + tp[k as int]);
            }
        }
        k = k + 1;
    }
    assert(tp.take(tp.len() as int) =~= tp);
    r
}

/// Renders an annotation's markdown to HTML and puts its sentences one per line.
pub fn format_annotation(markdown: &str) -> (r: String)
    ensures
        r@ == sentence_lines(html_of(markdown@)),
{
    let html = markdown_html(markdown);
    let cs = chars_of(html.as_str());
    let lines = sentences(&cs);
    string_of(lines.as_slice())
}

} // verus!
