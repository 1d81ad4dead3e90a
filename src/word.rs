//! Pending word marks: the highlight put around the word under the caret,
//! with its dwell timer, and its revert.
use vstd::prelude::*;
use crate::attrs::AttrName;
use crate::chars::{alphabetic, is_alpha, slice_chars, trim_chars, trimmed};
use crate::dom::{links_kept, Dom, DomError};
use crate::scan::{is_al_mounted, mounted, resolve, same_chars, text_node};
use crate::segment::{lemma_run_around, run_at, run_end, run_start, starts_before, word_spans};
use crate::wrap::{build_wrapper, kept, wrapper_shape};

verus! {

/// How long, in milliseconds, the caret must rest on a mark before it is promoted.
pub const TRIGGER_ANIMATED_TIMER: u64 = 1800;

/// The dwell time after a tick of `delta` milliseconds from `t`.
pub open spec fn tick_time(t: u64, delta: u64) -> u64 {
    if t + delta > u64::MAX {
        u64::MAX
    } else {
        (t + delta) as u64
    }
}

/// The dwell completes at `t`.
pub open spec fn dwell_done(t: u64) -> bool {
    t >= TRIGGER_ANIMATED_TIMER
}

/// A pending highlight around one word of a text node. The word's wrapper
/// stands where the text node stood.
pub struct WordMark {
    /// Where the word starts in the text node it was mounted on.
    pub start: usize,
    /// Where the word ends (exclusive) in the text node it was mounted on.
    pub end: usize,
    /// The word's ordinal among the runs of that text node.
    pub word_pos: usize,
    /// The wrapper element that replaced the text node.
    pub root: usize,
    /// The highlight element holding the word.
    pub mark: usize,
    /// Dwell time so far, in milliseconds.
    pub time: u64,
}

/// Mounting at `pos` over `node` is refused: the node does not resolve to an
/// attached text node that lies outside every mark and has an alphabetic
/// word at `pos` that is not all whitespace.
pub open spec fn mount_refused(d: Dom, node: int, pos: int) -> bool {
    match resolve(d, node) {
        None => true,
        Some(t) => {
            let s = d.text_of(t);
            ||| mounted(d, t)
            ||| !(0 <= pos < s.len())
            ||| !alphabetic(s[pos])
            ||| trimmed(s.subrange(run_start(s, pos), run_end(s, pos))).len() == 0
            ||| d.parent_of(t) is None
        },
    }
}

/// `new` stands where `gone` stood among `p`'s children.
pub open spec fn swapped(before: Seq<usize>, after: Seq<usize>, gone: usize, new: usize) -> bool {
    &&& after.len() == before.len()
    &&& forall|j: int|
        0 <= j < before.len() ==> #[trigger] after[j] == if before[j] == gone {
            new
        } else {
            before[j]
        }
}

/// `d` is `d0` after mark `m` was mounted at `pos` over `node`: the wrapper
/// stands where the resolved text node stood, splits its text around the run
/// under `pos`, and no old node reads differently.
pub open spec fn word_mounted(d0: Dom, d: Dom, node: int, pos: int, m: WordMark) -> bool {
    let t = resolve(d0, node)->0;
    let s = d0.text_of(t);
    let p = d0.parent_of(t)->0;
    &&& d0.wf()
    &&& resolve(d0, node) is Some
    &&& d0.parent_of(t) is Some
    &&& m.inv(d)
    &&& m.start == run_start(s, pos)
    &&& m.end == run_end(s, pos)
    &&& m.word_pos == starts_before(s, m.start as int)
    &&& m.time == 0
    &&& wrapper_shape(
        d,
        m.root as int,
        m.mark as int,
        s.subrange(0, m.start as int),
        s.subrange(m.start as int, m.end as int),
        s.subrange(m.end as int, s.len() as int),
    )
    &&& d.text_of(m.root as int) == s
    &&& d.attr(m.mark as int, AttrName::PendingWord) == Some("0"@)
    &&& d.parent_of(m.root as int) == Some(p)
    &&& swapped(d0.kids(p as int), d.kids(p as int), t as usize, m.root)
    &&& d.parent_of(t) is None
    &&& d0.size() <= m.root
    &&& forall|q: int| 0 <= q < d0.size() ==> #[trigger] d.text_of(q) == d0.text_of(q)
}

/// Mounting a word mark and reverting it puts back a text node with the
/// text of the node it replaced, at the same place among the same parent's children, and
/// every node that was there before reads as it did.
pub proof fn lemma_word_round_trip(d0: Dom, d1: Dom, d2: Dom, node: int, pos: int, m: WordMark)
    requires
        word_mounted(d0, d1, node, pos, m),
        restored(d1, d2, m.root),
    ensures
        ({
            let t = resolve(d0, node)->0;
            let p = d0.parent_of(t)->0;
            let n = d1.size() as usize;
            &&& d2.is_text(n as int)
            &&& d2.text_of(n as int) == d0.text_of(t)
            &&& d2.parent_of(n as int) == Some(p)
            &&& swapped(d0.kids(p as int), d2.kids(p as int), t as usize, n)
            &&& forall|q: int| 0 <= q < d0.size() ==> #[trigger] d2.text_of(q) == d0.text_of(q)
        }),
{
    let t = resolve(d0, node)->0;
    let p = d0.parent_of(t)->0;
    let n = d1.size() as usize;
    let k0 = d0.kids(p as int);
    let k1 = d1.kids(p as int);
    let k2 = d2.kids(p as int);
    assert(d0.size() <= m.root);
    assert forall|j: int| 0 <= j < k0.len() implies #[trigger] k2[j] == if k0[j] == t as usize {
        n
    } else {
        k0[j]
    } by {
        assert(k1[j] == if k0[j] == t as usize { m.root } else { k0[j] });
        if k0[j] != t as usize {
            assert(0 <= p < d0.size());
            assert(k0[j] < d0.size());
        }
    }
    assert forall|q: int| 0 <= q < d0.size() implies #[trigger] d2.text_of(q) == d0.text_of(q) by {
        assert(d1.text_of(q) == d0.text_of(q));
    }
}

impl WordMark {
    /// The mark's wrapper stands in `d` as leading text, highlight, trailing
    /// text, with the highlight holding the word's text node.
    pub open spec fn inv(&self, d: Dom) -> bool {
        &&& d.wf()
        &&& 0 <= self.root < self.mark < d.size()
        &&& !d.is_text(self.root as int)
        &&& !d.is_text(self.mark as int)
        &&& d.kids(self.root as int).len() == 3
        &&& d.kids(self.root as int)[1] == self.mark
        &&& d.is_text(d.kids(self.root as int)[0] as int)
        &&& d.is_text(d.kids(self.root as int)[2] as int)
        &&& d.kids(self.mark as int).len() == 1
        &&& d.is_text(d.kids(self.mark as int)[0] as int)
        &&& self.start < self.end
        &&& d.text_of(d.kids(self.root as int)[0] as int).len() == self.start
        &&& d.text_of(self.mark as int).len() == self.end - self.start
    }

    /// The word under position `pos` of the text node that `node` stands for,
    /// wrapped in a pending highlight in place of that text node. `None`, with
    /// the document untouched, where `mount_refused` holds.
    pub fn mount_on_text(d: &mut Dom, node: usize, pos: usize) -> (r: Option<WordMark>)
        requires
            old(d).wf(),
        ensures
            final(d).wf(),
            r is None <==> mount_refused(*old(d), node as int, pos as int),
            r is None ==> *final(d) == *old(d),
            r matches Some(m) ==> word_mounted(*old(d), *final(d), node as int, pos as int, m),
    {
        let t = match text_node(d, node) {
            Some(t) => t,
            None => return None,
        };
        if is_al_mounted(d, t) {
            return None;
        }
        let s = d.text_content(t);
        let sp = word_spans(&s);
        let k = match run_at(&sp, pos) {
            Some(k) => k,
            None => {
                proof {
                    if 0 <= pos < s@.len() {
                        crate::segment::lemma_spans_cover(s@, sp@, pos as int);
                    }
                }
                return None;
            },
        };
        let (start, end) = sp[k];
        proof {
            lemma_run_around(s@, sp@, k as int, pos as int);
        }
        if !is_alpha(s[pos]) {
            return None;
        }
        let word = slice_chars(&s, start, end);
        let trimmed_word = trim_chars(&word);
        if trimmed_word.len() == 0 {
            return None;
        }
        let p = match d.parent_node(t) {
            Some(p) => p,
            None => return None,
        };
        let before = slice_chars(&s, 0, start);
        let after = slice_chars(&s, end, s.len());
        let ghost d0 = *d;
        let (root, mark) = build_wrapper(d, before, word, after, AttrName::PendingWord);
        let ghost d1 = *d;
        proof {
            assert(kept(d1, d0, t as int));
            assert(kept(d1, d0, p as int));
            assert(s@.subrange(0, start as int) + s@.subrange(start as int, end as int) + s@.subrange(
                end as int,
                s@.len() as int,
            ) =~= s@);
            assert(d1.text_of(t as int) == d0.text_of(t as int)) by {
                crate::dom::lemma_extends_text(d0, d1, t as int);
            }
        }
        let j = d.replace_child(p, root, t);
        proof {
            let d2 = *d;
            crate::dom::lemma_replace_extends(d1, d2, p as int, j as int, root, t);
            assert forall|q: int| 0 <= q < d0.size() implies #[trigger] d2.text_of(q) == d0.text_of(q) by {
                crate::dom::lemma_extends_text(d0, d1, q);
            }
            let kr = d1.kids(root as int);
            assert(d2.kids(root as int) == kr);
            assert(d2.kids(mark as int) == d1.kids(mark as int));
            assert(kept(d2, d1, mark as int));
            assert(kept(d2, d1, kr[0] as int));
            assert(kept(d2, d1, kr[2] as int));
            assert(kept(d2, d1, d1.kids(mark as int)[0] as int));
            assert(d0.kids(p as int)[j as int] == t);
            assert(swapped(d0.kids(p as int), d2.kids(p as int), t as usize, root)) by {
                assert forall|i: int| 0 <= i < d0.kids(p as int).len() implies #[trigger] d2.kids(
                    p as int,
                )[i] == if d0.kids(p as int)[i] == t {
                    root
                } else {
                    d0.kids(p as int)[i]
                } by {
                    if i != j && d0.kids(p as int)[i] == t {
                        assert(d0.kids(p as int)[i] == d0.kids(p as int)[j as int]);
                    }
                }
            }
        }
        Some(WordMark { start, end, word_pos: k, root, mark, time: 0 })
    }

    /// Whether the mark still stands in `d` as `inv` describes; the document
    /// may have been changed by others since the mark was mounted.
    pub fn holds_in(&self, d: &Dom) -> (r: bool)
        requires
            d.wf(),
        ensures
            r == self.inv(*d),
    {
        let n = d.node_count();
        if !(self.root < self.mark && self.mark < n) || self.start >= self.end {
            return false;
        }
        if d.is_text_node(self.root) || d.is_text_node(self.mark) {
            return false;
        }
        let rk = d.child_nodes(self.root);
        let mk = d.child_nodes(self.mark);
        if rk.len() != 3 || mk.len() != 1 || rk[1] != self.mark {
            return false;
        }
        assert(rk@[0] < d.size() && rk@[2] < d.size() && mk@[0] < d.size());
        if !d.is_text_node(rk[0]) || !d.is_text_node(rk[2]) || !d.is_text_node(mk[0]) {
            return false;
        }
        let lead = d.text_content(rk[0]);
        let word = d.text_content(self.mark);
        lead.len() == self.start && word.len() == self.end - self.start
    }

    /// Restores the text: a new text node holding the wrapper's text content
    /// takes the wrapper's place. Fails, changing nothing, where the wrapper is
    /// attached nowhere.
    pub fn unmount(&self, d: &mut Dom) -> (r: Result<(), DomError>)
        requires
            old(d).wf(),
            self.root < old(d).size(),
        ensures
            final(d).wf(),
            r is Err <==> old(d).parent_of(self.root as int) is None,
            r is Err ==> *final(d) == *old(d),
            r is Ok ==> restored(*old(d), *final(d), self.root),
    {
        revert_root(d, self.root)
    }

    /// Advances the dwell timer by `delta` milliseconds; on the first tick the
    /// highlight is flagged as animating. Returns whether the dwell is complete.
    pub fn tick_timer(&mut self, d: &mut Dom, delta: u64) -> (r: bool)
        requires
            old(self).inv(*old(d)),
        ensures
            final(self).time == tick_time(old(self).time, delta),
            r == dwell_done(final(self).time),
            final(self).start == old(self).start && final(self).end == old(self).end,
            final(self).word_pos == old(self).word_pos,
            final(self).root == old(self).root && final(self).mark == old(self).mark,
            final(self).inv(*final(d)),
            old(self).time == 0 ==> final(d).attr(old(self).mark as int, AttrName::PendingWord)
                == Some("1"@),
            old(self).time != 0 ==> *final(d) == *old(d),
            forall|q: int| 0 <= q < old(d).size() ==> #[trigger] final(d).text_of(q) == old(d).text_of(q),
            final(d).size() == old(d).size(),
            links_kept(*old(d), *final(d)),
            forall|q: int| 0 <= q < old(d).size() && q != old(self).mark ==> kept(*final(d), *old(d), q),
    {
        if self.time == 0 {
            let ghost d0 = *d;
            d.set_attr(self.mark, AttrName::PendingWord, Some("1".to_owned()));
            proof {
                crate::dom::lemma_extends_all(d0, *d);
            }
        }
        self.time = self.time.saturating_add(delta);
        self.time >= TRIGGER_ANIMATED_TIMER
    }

    /// Whether the caret at `pos` over `node` still rests on this mark's word:
    /// `node` lies in the wrapper, and the run under `pos` in the text node it
    /// stands for has this mark's span, ordinal and text.
    pub fn is_same(&self, d: &Dom, node: usize, pos: usize) -> (r: bool)
        requires
            self.inv(*d),
        ensures
            r == same_word(*d, *self, node as int, pos as int),
    {
        if !contains(d, self.root, node) {
            return false;
        }
        let t = match text_node(d, node) {
            Some(t) => t,
            None => return false,
        };
        let s = d.text_content(t);
        let sp = word_spans(&s);
        let k = match run_at(&sp, pos) {
            Some(k) => k,
            None => {
                proof {
                    if 0 <= pos < s@.len() {
                        crate::segment::lemma_spans_cover(s@, sp@, pos as int);
                    }
                }
                return false;
            },
        };
        let (start, end) = sp[k];
        proof {
            lemma_run_around(s@, sp@, k as int, pos as int);
        }
        if self.start != start || self.end != end || self.word_pos != k {
            return false;
        }
        let wd = slice_chars(&s, start, end);
        let mt = d.text_content(self.mark);
        same_chars(&mt, &wd)
    }
}

/// `node` is `root` or lies below it.
pub open spec fn within(d: Dom, root: int, node: int) -> bool
    decreases node,
{
    if !d.valid(node) {
        false
    } else if node == root {
        true
    } else {
        match d.parent_of(node) {
            Some(p) => if 0 <= p < node {
                within(d, root, p as int)
            } else {
                false
            },
            None => false,
        }
    }
}

/// Whether `node` is `root` or lies below it.
pub fn contains(d: &Dom, root: usize, node: usize) -> (r: bool)
    requires
        d.wf(),
    ensures
        r == within(*d, root as int, node as int),
{
    if node >= d.node_count() {
        return false;
    }
    let mut e = node;
    loop
        invariant
            d.wf(),
            e < d.size(),
            within(*d, root as int, node as int) == within(*d, root as int, e as int),
        decreases e,
    {
        if e == root {
            return true;
        }
        match d.parent_node(e) {
            Some(p) => {
                e = p;
            },
            None => {
                return false;
            },
        }
    }
}

/// The caret at `pos` over `node` rests on the word of mark `m`.
pub open spec fn same_word(d: Dom, m: WordMark, node: int, pos: int) -> bool {
    &&& within(d, m.root as int, node)
    &&& resolve(d, node) is Some
    &&& {
        let s = d.text_of(resolve(d, node)->0);
        &&& 0 <= pos < s.len()
        &&& m.start == run_start(s, pos)
        &&& m.end == run_end(s, pos)
        &&& m.word_pos == starts_before(s, m.start as int)
        &&& d.text_of(m.mark as int) == s.subrange(m.start as int, m.end as int)
    }
}

/// After a revert of wrapper `root`: a new text node, holding what the
/// wrapper read as, stands where the wrapper stood; the wrapper is detached,
/// and no node that was there before reads differently.
pub open spec fn restored(d0: Dom, d: Dom, root: usize) -> bool {
    let n = d0.size() as usize;
    let p = d0.parent_of(root as int)->0;
    &&& d.size() == d0.size() + 1
    &&& d.is_text(n as int)
    &&& d.text_of(n as int) == d0.text_of(root as int)
    &&& d.parent_of(n as int) == Some(p)
    &&& swapped(d0.kids(p as int), d.kids(p as int), root, n)
    &&& d.parent_of(root as int) is None
    &&& forall|q: int| 0 <= q < d0.size() ==> #[trigger] d.text_of(q) == d0.text_of(q)
    &&& crate::dom::same_but_kids(d.nodes@[p as int], d0.nodes@[p as int])
    &&& forall|q: int| 0 <= q < d0.size() && q != p && q != root ==> kept(d, d0, q)
}

/// Replaces wrapper `root` by a text node holding its text content.
pub fn revert_root(d: &mut Dom, root: usize) -> (r: Result<(), DomError>)
    requires
        old(d).wf(),
        root < old(d).size(),
    ensures
        final(d).wf(),
        r is Err <==> old(d).parent_of(root as int) is None,
        r is Err ==> *final(d) == *old(d),
        r is Ok ==> restored(*old(d), *final(d), root),
{
    let p = match d.parent_node(root) {
        Some(p) => p,
        None => return Err(DomError::Detached),
    };
    let text = d.text_content(root);
    let ghost d0 = *d;
    let n = d.create_text(text);
    let ghost d1 = *d;
    proof {
        crate::dom::lemma_extends_all(d0, d1);
        assert(kept(d1, d0, root as int));
        assert(kept(d1, d0, p as int));
    }
    let j = d.replace_child(p, n, root);
    proof {
        let d2 = *d;
        assert forall|q: int|
            0 <= q < d0.size() && q != p && q != root implies kept(d2, d0, q) by {
            assert(kept(d1, d0, q));
        }
        crate::dom::lemma_replace_extends(d1, d2, p as int, j as int, n, root);
        assert(d2.is_text(n as int));
        assert(d2.nodes@[n as int].text@ == d1.nodes@[n as int].text@);
        assert(d0.kids(p as int)[j as int] == root);
        assert forall|i: int| 0 <= i < d0.kids(p as int).len() implies #[trigger] d2.kids(
            p as int,
        )[i] == if d0.kids(p as int)[i] == root {
            n
        } else {
            d0.kids(p as int)[i]
        } by {
            if i != j && d0.kids(p as int)[i] == root {
                assert(d0.kids(p as int)[i] == d0.kids(p as int)[j as int]);
            }
        }
    }
    Ok(())
}

/// The dwell time after ticks of `ds` milliseconds, in order, from `t`.
pub open spec fn time_after(t: u64, ds: Seq<u64>) -> u64
    decreases ds.len(),
{
    if ds.len() == 0 {
        t
    } else {
        time_after(tick_time(t, ds[0]), ds.drop_first())
    }
}

/// The sum of the deltas.
pub open spec fn total(ds: Seq<u64>) -> int
    decreases ds.len(),
{
    if ds.len() == 0 {
        0
    } else {
        ds[0] + total(ds.drop_first())
    }
}

/// Dwell time is the sum of the deltas while it fits in 64 bits; zero deltas
/// leave it where it was.
pub proof fn lemma_dwell_sum(t: u64, ds: Seq<u64>)
    ensures
        t + total(ds) <= u64::MAX ==> time_after(t, ds) == t + total(ds),
        (forall|i: int| 0 <= i < ds.len() ==> ds[i] == 0) ==> time_after(t, ds) == t,
    decreases ds.len(),
{
    if ds.len() > 0 {
        lemma_dwell_sum(tick_time(t, ds[0]), ds.drop_first());
        lemma_total_nonneg(ds.drop_first());
        if forall|i: int| 0 <= i < ds.len() ==> ds[i] == 0 {
            assert(ds[0] == 0);
            assert forall|i: int| 0 <= i < ds.drop_first().len() implies ds.drop_first()[i] == 0 by {
                assert(ds[i + 1] == 0);
            }
        }
    }
}

proof fn lemma_total_nonneg(ds: Seq<u64>)
    ensures
        total(ds) >= 0,
    decreases ds.len(),
{
    if ds.len() > 0 {
        lemma_total_nonneg(ds.drop_first());
    }
}

/// Ticks of zero never complete a fresh dwell, and ticks whose deltas sum to
/// the threshold complete it by the last of them.
pub proof fn lemma_dwell_completion(ds: Seq<u64>)
    ensures
        (forall|i: int| 0 <= i < ds.len() ==> ds[i] == 0) ==> !dwell_done(time_after(0, ds)),
        total(ds) == TRIGGER_ANIMATED_TIMER ==> dwell_done(time_after(0, ds)),
{
    lemma_dwell_sum(0, ds);
}

} // verus!
