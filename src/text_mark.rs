//! Pending text marks: the highlights put over a selection that may cross
//! several text nodes, one wrapper per selected piece of each text node.
use vstd::prelude::*;
use crate::attrs::AttrName;
use crate::chars::slice_chars;
use crate::ident::{id_text, uuid_parsed, uuid_text};
use crate::word::{dwell_done, tick_time, TRIGGER_ANIMATED_TIMER};
use crate::dom::{links_kept, Dom, DomError};
use crate::word::{contains, revert_root, within};
use crate::wrap::{build_wrapper, kept};

verus! {

/// The text nodes under node `i`, in document order.
pub open spec fn texts_of(d: Dom, i: int) -> Seq<usize>
    decreases d.nodes@.len() - i, d.nodes@[i].children@.len() + 1,
{
    if !d.valid(i) {
        Seq::empty()
    } else if d.is_text(i) {
        seq![i as usize]
    } else {
        kids_texts(d, i, d.kids(i).len() as int)
    }
}

/// The text nodes under the first `k` children of `i`, in document order.
pub open spec fn kids_texts(d: Dom, i: int, k: int) -> Seq<usize>
    decreases d.nodes@.len() - i, k,
{
    if !d.valid(i) || k <= 0 || k > d.kids(i).len() {
        Seq::empty()
    } else {
        let c = d.kids(i)[k - 1] as int;
        kids_texts(d, i, k - 1) + if i < c < d.size() {
            texts_of(d, c)
        } else {
            Seq::empty()
        }
    }
}

/// The text nodes under node `i`, in document order.
pub fn collect_texts(d: &Dom, i: usize) -> (r: Vec<usize>)
    requires
        d.wf(),
        i < d.size(),
    ensures
        r@ == texts_of(*d, i as int),
    decreases d.size() - i,
{
    if d.is_text_node(i) {
        let mut v: Vec<usize> = Vec::new();
        v.push(i);
        assert(v@ =~= seq![i]);
        return v;
    }
    let kids = d.child_nodes(i);
    let n = kids.len();
    let mut acc: Vec<usize> = Vec::new();
    let mut k: usize = 0;
    while k < n
        invariant
            d.wf(),
            i < d.size(),
            !d.is_text(i as int),
            kids@ == d.kids(i as int),
            n == kids@.len(),
            k <= n,
            acc@ == kids_texts(*d, i as int, k as int),
        decreases n - k,
    {
        let c = kids[k];
        assert(i < c < d.size());
        let mut t = collect_texts(d, c);
        acc.append(&mut t);
        k = k + 1;
    }
    acc
}

/// Walking up from `e`, the first node whose subtree holds `a`.
pub open spec fn first_common(d: Dom, a: int, e: int) -> Option<int>
    decreases e,
{
    if !d.valid(e) {
        None
    } else if within(d, e, a) {
        Some(e)
    } else {
        match d.parent_of(e) {
            Some(p) => if 0 <= p < e {
                first_common(d, a, p as int)
            } else {
                None
            },
            None => None,
        }
    }
}

/// The deepest node whose subtree holds both `a` and `b`.
pub fn common_ancestor(d: &Dom, a: usize, b: usize) -> (r: Option<usize>)
    requires
        d.wf(),
    ensures
        match r {
            Some(e) => first_common(*d, a as int, b as int) == Some(e as int) && e < d.size(),
            None => first_common(*d, a as int, b as int) is None,
        },
{
    if b >= d.node_count() {
        return None;
    }
    let mut e = b;
    loop
        invariant
            d.wf(),
            e < d.size(),
            first_common(*d, a as int, b as int) == first_common(*d, a as int, e as int),
        decreases e,
    {
        if contains(d, e, a) {
            return Some(e);
        }
        match d.parent_node(e) {
            Some(p) => {
                e = p;
            },
            None => {
                return None;
            },
        }
    }
}

/// A selection: from `start_offset` in text node `start_node` to
/// `end_offset` in text node `end_node`.
#[derive(PartialEq, Eq, Structural, Clone, Copy, Debug)]
pub struct TextRange {
    pub start_node: usize,
    pub start_offset: usize,
    pub end_node: usize,
    pub end_offset: usize,
}

/// A pending highlight over a selection: one wrapper per selected piece of
/// each text node the selection crosses.
pub struct TextMark {
    /// Offset of the selection in its first text node.
    pub start: usize,
    /// Offset of the selection's end in its last text node.
    pub end: usize,
    /// The element under which the selection lies.
    pub root: usize,
    /// The selection's first text node.
    pub start_el: usize,
    /// The selection's last text node.
    pub end_el: Option<usize>,
    /// The highlight elements, left to right.
    pub marks: Vec<usize>,
    /// The wrapper holding each highlight, in the same order.
    pub wrappers: Vec<usize>,
    /// Dwell time so far, in milliseconds.
    pub time: u64,
}

/// The element under which a selection lies: the deepest common ancestor of
/// its ends, or that node's parent when it is a text node.
pub open spec fn range_root(d: Dom, r: TextRange) -> Option<int> {
    match first_common(d, r.start_node as int, r.end_node as int) {
        Some(e) => if d.is_text(e) {
            match d.parent_of(e) {
                Some(p) => Some(p as int),
                None => None,
            }
        } else {
            Some(e)
        },
        None => None,
    }
}

/// The part of text node number `k` of `list` that the selection covers:
/// from the start offset in the first node, to the end offset in the last.
pub open spec fn piece_bounds(d: Dom, list: Seq<usize>, si: int, ei: int, r: TextRange, k: int) -> (int, int) {
    let len = d.text_of(list[k] as int).len() as int;
    (if k == si {
        r.start_offset as int
    } else {
        0
    }, if k == ei {
        r.end_offset as int
    } else {
        len
    })
}

/// The selected text of nodes `si..k` of `list`, joined.
pub open spec fn selected_upto(d: Dom, list: Seq<usize>, si: int, ei: int, r: TextRange, k: int) -> Seq<char>
    decreases k - si,
{
    if k <= si {
        Seq::empty()
    } else {
        let (a, b) = piece_bounds(d, list, si, ei, r, k - 1);
        selected_upto(d, list, si, ei, r, k - 1) + d.text_of(list[k - 1] as int).subrange(a, b)
    }
}

/// The texts of the given nodes, joined.
pub open spec fn joined_texts(d: Dom, ns: Seq<usize>) -> Seq<char>
    decreases ns.len(),
{
    if ns.len() == 0 {
        Seq::empty()
    } else {
        joined_texts(d, ns.drop_last()) + d.text_of(ns.last() as int)
    }
}

impl TextMark {
    /// The wrappers stand in `d` (see `wrappers_stand`).
    pub open spec fn inv(&self, d: Dom) -> bool {
        wrappers_stand(d, self.root, self.wrappers@, self.marks@)
    }
}

/// The wrappers `w` stand in `d`, each holding highlight `m[i]` as middle
/// child; no wrapper lies directly in another, and none is listed twice.
pub open spec fn wrappers_stand(d: Dom, root: usize, w: Seq<usize>, m: Seq<usize>) -> bool {
    &&& d.wf()
    &&& root < d.size()
    &&& w.len() == m.len()
    &&& forall|i: int|
        0 <= i < w.len() ==> #[trigger] w[i] < m[i] < d.size() && !d.is_text(m[i] as int)
            && d.kids(w[i] as int).len() == 3 && d.kids(w[i] as int)[1] == m[i]
    &&& forall|i: int, j: int| 0 <= i < w.len() && 0 <= j < w.len() && i != j ==> #[trigger] w[i] != #[trigger] w[j]
    &&& forall|i: int, j: int|
        0 <= i < w.len() && 0 <= j < w.len() ==> !d.kids(#[trigger] w[j] as int).contains(#[trigger] w[i])
}

/// Wraps characters `a..b` of text node `t` in a pending text highlight, in
/// place of `t`.
fn wrap_piece(d: &mut Dom, t: usize, a: usize, b: usize) -> (r: (usize, usize))
    requires
        old(d).wf(),
        t < old(d).size(),
        old(d).is_text(t as int),
        old(d).parent_of(t as int) is Some,
        a < b <= old(d).text_of(t as int).len(),
    ensures
        final(d).wf(),
        r.0 == old(d).size(),
        r.0 < r.1 < final(d).size(),
        !final(d).is_text(r.1 as int),
        final(d).kids(r.0 as int).len() == 3,
        final(d).kids(r.0 as int)[1] == r.1,
        forall|j: int|
            0 <= j < 3 ==> r.0 < #[trigger] final(d).kids(r.0 as int)[j] < final(d).size(),
        final(d).text_of(r.1 as int) == old(d).text_of(t as int).subrange(a as int, b as int),
        final(d).attr(r.1 as int, AttrName::PendingText) == Some("0"@),
        final(d).parent_of(r.0 as int) == old(d).parent_of(t as int),
        final(d).parent_of(r.1 as int) == Some(r.0),
        final(d).parent_of(t as int) is None,
        forall|q: int| 0 <= q < old(d).size() && q != t ==> #[trigger] final(d).parent_of(q) == old(d).parent_of(q),
        forall|q: int| 0 <= q < old(d).size() ==> #[trigger] final(d).text_of(q) == old(d).text_of(q),
        forall|q: int|
            0 <= q < old(d).size() && q != old(d).parent_of(t as int)->0 && q != t ==> kept(
                *final(d),
                *old(d),
                q,
            ),
{
    let p = d.parent_node(t).unwrap();
    let s = d.text_content(t);
    let before = slice_chars(&s, 0, a);
    let piece = slice_chars(&s, a, b);
    let after = slice_chars(&s, b, s.len());
    let ghost d0 = *d;
    let (root, mark) = build_wrapper(d, before, piece, after, AttrName::PendingText);
    let ghost d1 = *d;
    proof {
        assert(kept(d1, d0, t as int));
        assert(kept(d1, d0, p as int));
        assert(s@.subrange(0, a as int) + s@.subrange(a as int, b as int) + s@.subrange(
            b as int,
            s@.len() as int,
        ) =~= s@);
        crate::dom::lemma_extends_all(d0, d1);
    }
    let j = d.replace_child(p, root, t);
    proof {
        let d2 = *d;
        crate::dom::lemma_replace_extends(d1, d2, p as int, j as int, root, t);
        assert(kept(d2, d1, mark as int));
        assert(d2.kids(root as int) == d1.kids(root as int));
        assert(d1.parent_of(mark as int) == Some(root)) by {
            assert(d1.kids(root as int)[1] == mark);
        }
        assert forall|q: int|
            0 <= q < d0.size() && q != p && q != t implies kept(d2, d0, q) by {
            assert(kept(d1, d0, q));
        }
        assert forall|q: int| 0 <= q < d0.size() && q != t implies #[trigger] d2.parent_of(q) == d0.parent_of(q) by {
            if q != p {
                assert(kept(d2, d0, q));
            }
        }
        assert forall|jj: int| 0 <= jj < 3 implies root < #[trigger] d2.kids(root as int)[jj] < d2.size() by {
            assert(d1.kids(root as int)[jj] < d1.size());
        }
    }
    (root, mark)
}

proof fn lemma_joined_frame(d0: Dom, d: Dom, ns: Seq<usize>)
    requires
        forall|i: int| 0 <= i < ns.len() ==> #[trigger] d.text_of(ns[i] as int) == d0.text_of(ns[i] as int),
    ensures
        joined_texts(d, ns) == joined_texts(d0, ns),
    decreases ns.len(),
{
    if ns.len() > 0 {
        lemma_joined_frame(d0, d, ns.drop_last());
        assert(d.text_of(ns[ns.len() - 1] as int) == d0.text_of(ns[ns.len() - 1] as int));
    }
}

/// The first position, from `j` on, of `x` in `s`.
pub open spec fn first_pos(s: Seq<usize>, x: usize, j: int) -> Option<int>
    decreases s.len() - j,
{
    if j < 0 || j >= s.len() {
        None
    } else if s[j] == x {
        Some(j)
    } else {
        first_pos(s, x, j + 1)
    }
}

proof fn lemma_first_pos(s: Seq<usize>, x: usize, j: int)
    requires
        0 <= j,
        first_pos(s, x, j) is Some,
    ensures
        j <= first_pos(s, x, j)->0 < s.len(),
        s[first_pos(s, x, j)->0] == x,
    decreases s.len() - j,
{
    if j < s.len() && s[j] != x {
        lemma_first_pos(s, x, j + 1);
    }
}

fn position_of(s: &Vec<usize>, x: usize) -> (r: Option<usize>)
    ensures
        match r {
            Some(k) => first_pos(s@, x, 0) == Some(k as int),
            None => first_pos(s@, x, 0) is None,
        },
{
    let mut j: usize = s.len();
    let mut found: Option<usize> = None;
    while j > 0
        invariant
            j <= s@.len(),
            match found {
                Some(k) => first_pos(s@, x, j as int) == Some(k as int),
                None => first_pos(s@, x, j as int) is None,
            },
        decreases j,
    {
        j = j - 1;
        if s[j] == x {
            found = Some(j);
        }
    }
    found
}

fn distinct(s: &Vec<usize>) -> (r: bool)
    ensures
        r == s@.no_duplicates(),
{
    let n = s.len();
    let mut i: usize = 0;
    while i < n
        invariant
            n == s@.len(),
            i <= n,
            forall|a: int, b: int| 0 <= a < i && 0 <= b < n && a != b ==> s@[a] != s@[b],
        decreases n - i,
    {
        let mut j: usize = 0;
        while j < n
            invariant
                n == s@.len(),
                i < n,
                j <= n,
                forall|a: int, b: int| 0 <= a < i && 0 <= b < n && a != b ==> s@[a] != s@[b],
                forall|b: int| 0 <= b < j && b != i ==> s@[i as int] != s@[b],
            decreases n - j,
        {
            if j != i && s[i] == s[j] {
                return false;
            }
            j = j + 1;
        }
        i = i + 1;
    }
    true
}

/// Mounting a text mark over `r` is refused: its ends are not text nodes,
/// they have no common element, either end is missing from the text nodes
/// under it or they come in the wrong order, an offset lies outside its
/// node, a selected text node is attached nowhere, or no character is
/// selected.
pub open spec fn text_refused(d: Dom, r: TextRange) -> bool {
    let sn = r.start_node as int;
    let en = r.end_node as int;
    if !(d.valid(sn) && d.valid(en) && d.is_text(sn) && d.is_text(en)) {
        true
    } else {
        match range_root(d, r) {
            None => true,
            Some(root) => {
                let list = texts_of(d, root);
                match (first_pos(list, r.start_node, 0), first_pos(list, r.end_node, 0)) {
                    (Some(si), Some(ei)) => {
                        ||| si > ei
                        ||| r.start_offset > d.text_of(sn).len()
                        ||| r.end_offset > d.text_of(en).len()
                        ||| (si == ei && r.start_offset > r.end_offset)
                        ||| !list.no_duplicates()
                        ||| exists|k: int| si <= k <= ei && (#[trigger] d.parent_of(list[k] as int)) is None
                        ||| forall|k: int| si <= k <= ei ==> #[trigger] piece_bounds(d, list, si, ei, r, k).0
                            == piece_bounds(d, list, si, ei, r, k).1
                    },
                    _ => true,
                }
            },
        }
    }
}

/// `d` is `d0` after text mark `m` was mounted over `r`: every selected piece
/// is highlighted, left to right, and no old node reads differently.
pub open spec fn text_mounted(d0: Dom, d: Dom, r: TextRange, m: TextMark) -> bool {
    let root = range_root(d0, r)->0;
    let list = texts_of(d0, root);
    let si = first_pos(list, r.start_node, 0)->0;
    let ei = first_pos(list, r.end_node, 0)->0;
    &&& m.inv(d)
    &&& m.marks@.len() > 0
    &&& all_attached(d, m.wrappers@)
    &&& forall|i: int| 0 <= i < m.marks@.len() ==> within(d, m.root as int, #[trigger] m.marks@[i] as int)
    &&& d0.size() <= d.size()
    &&& m.root < d0.size()
    &&& m.root == root
    &&& m.start == r.start_offset && m.end == r.end_offset
    &&& m.start_el == r.start_node && m.end_el == Some(r.end_node)
    &&& m.time == 0
    &&& joined_texts(d, m.marks@) == selected_upto(d0, list, si, ei, r, ei + 1)
    &&& forall|i: int| 0 <= i < m.marks@.len() ==> #[trigger] d.attr(m.marks@[i] as int, AttrName::PendingText) == Some("0"@)
    &&& forall|q: int| 0 <= q < d0.size() ==> #[trigger] d.text_of(q) == d0.text_of(q)
}

impl TextMark {
    /// Highlights the selection `range`, one wrapper per selected piece of
    /// each text node it crosses, in place of those text nodes. `None`, with
    /// the document untouched, where `text_refused` holds.
    #[verifier::rlimit(40)]
    pub fn mount_on_text(d: &mut Dom, range: TextRange) -> (r: Option<TextMark>)
        requires
            old(d).wf(),
        ensures
            final(d).wf(),
            r is None <==> text_refused(*old(d), range),
            r is None ==> *final(d) == *old(d),
            r matches Some(m) ==> text_mounted(*old(d), *final(d), range, m),
    {
        let sn = range.start_node;
        let en = range.end_node;
        let so = range.start_offset;
        let eo = range.end_offset;
        if sn >= d.node_count() || en >= d.node_count() || !d.is_text_node(sn) || !d.is_text_node(en) {
            return None;
        }
        let lca = match common_ancestor(d, sn, en) {
            Some(e) => e,
            None => return None,
        };
        let root = if d.is_text_node(lca) {
            match d.parent_node(lca) {
                Some(p) => p,
                None => return None,
            }
        } else {
            lca
        };
        assert(root < d.size());
        let list = collect_texts(d, root);
        let si = match position_of(&list, sn) {
            Some(k) => k,
            None => return None,
        };
        let ei = match position_of(&list, en) {
            Some(k) => k,
            None => return None,
        };
        proof {
            lemma_first_pos(list@, sn, 0);
            lemma_first_pos(list@, en, 0);
        }
        if si > ei {
            return None;
        }
        let slen = d.text_content(sn).len();
        let elen = d.text_content(en).len();
        if so > slen || eo > elen || (si == ei && so > eo) {
            return None;
        }
        if !distinct(&list) {
            return None;
        }
        proof {
            texts_are_text(*d, root as int);
        }
        let ln = list.len();
        let mut k: usize = si;
        while k <= ei
            invariant
                d.wf(),
                *d == *old(d),
                sn == range.start_node && en == range.end_node,
                so == range.start_offset && eo == range.end_offset,
                sn < d.size() && en < d.size() && d.is_text(sn as int) && d.is_text(en as int),
                range_root(*d, range) == Some(root as int),
                list@ == texts_of(*d, root as int),
                first_pos(list@, sn, 0) == Some(si as int),
                first_pos(list@, en, 0) == Some(ei as int),
                ln == list@.len(),
                si <= k <= ei + 1,
                ei < list@.len(),
                forall|j: int| 0 <= j < list@.len() ==> d.valid(#[trigger] list@[j] as int) && d.is_text(list@[j] as int),
                forall|j: int| si <= j < k ==> (#[trigger] d.parent_of(list@[j] as int)) is Some,
            decreases ei + 1 - k,
        {
            assert(d.valid(list@[k as int] as int));
            if d.parent_node(list[k]).is_none() {
                assert(si <= k <= ei && d.parent_of(list@[k as int] as int) is None);
                assert(range_root(*d, range) == Some(root as int));
                assert(first_pos(list@, sn, 0) == Some(si as int));
                assert(first_pos(list@, en, 0) == Some(ei as int));
                return None;
            }
            k = k + 1;
        }
        let ghost d0 = *d;
        proof {
            lemma_texts_within(d0, root as int);
            if d0.is_text(lca as int) {
                assert(d0.kids(root as int).contains(lca));
            }
        }
        let mut marks: Vec<usize> = Vec::new();
        let mut wrappers: Vec<usize> = Vec::new();
        let mut k: usize = si;
        while k <= ei
            invariant
                d.wf(),
                d0.wf(),
                d0 == *old(d),
                root < d0.size(),
                sn == range.start_node && en == range.end_node,
                so == range.start_offset && eo == range.end_offset,
                sn < d0.size() && en < d0.size() && d0.is_text(sn as int) && d0.is_text(en as int),
                range_root(d0, range) == Some(root as int),
                first_pos(list@, sn, 0) == Some(si as int),
                first_pos(list@, en, 0) == Some(ei as int),
                ln == list@.len(),
                si <= k <= ei + 1,
                ei < list@.len(),
                list@ == texts_of(d0, root as int),
                list@.no_duplicates(),
                forall|j: int| 0 <= j < list@.len() ==> d0.valid(#[trigger] list@[j] as int) && d0.is_text(list@[j] as int),
                forall|j: int| si <= j <= ei ==> (#[trigger] d0.parent_of(list@[j] as int)) is Some,
                list@[si as int] == sn && list@[ei as int] == en,
                so <= d0.text_of(sn as int).len(),
                eo <= d0.text_of(en as int).len(),
                si == ei ==> so <= eo,
                d0.size() <= d.size(),
                forall|q: int| 0 <= q < d0.size() ==> #[trigger] d.text_of(q) == d0.text_of(q),
                forall|j: int| k <= j <= ei ==> kept(*d, d0, #[trigger] list@[j] as int),
                marks@.len() == wrappers@.len(),
                forall|i: int| 0 <= i < wrappers@.len() ==> d0.size() <= #[trigger] wrappers@[i],
                forall|i: int, j: int| 0 <= i < j < wrappers@.len() ==> #[trigger] wrappers@[i] < #[trigger] wrappers@[j],
                forall|i: int|
                    0 <= i < wrappers@.len() ==> #[trigger] wrappers@[i] < marks@[i] < d.size() && !d.is_text(marks@[i] as int)
                        && d.kids(wrappers@[i] as int).len() == 3 && d.kids(wrappers@[i] as int)[1] == marks@[i]
                        && d.attr(marks@[i] as int, AttrName::PendingText) == Some("0"@),
                forall|i: int, j: int|
                    0 <= i < wrappers@.len() && 0 <= j < 3 ==> wrappers@[i] < #[trigger] d.kids(#[trigger] wrappers@[i] as int)[j]
                        && d.kids(wrappers@[i] as int)[j] < (if i + 1 < wrappers@.len() {
                        wrappers@[i + 1] as int
                    } else {
                        d.size()
                    }),
                joined_texts(*d, marks@) == selected_upto(d0, list@, si as int, ei as int, range, k as int),
                forall|i: int| 0 <= i < wrappers@.len() ==> (#[trigger] d.parent_of(wrappers@[i] as int)) is Some,
                marks@.len() == 0 ==> *d == d0,
                !d0.is_text(root as int),
                forall|j: int| 0 <= j < list@.len() ==> within(d0, root as int, #[trigger] list@[j] as int),
                forall|q: int| 0 <= q < d0.size() && !d0.is_text(q) ==> #[trigger] d.parent_of(q) == d0.parent_of(q),
                forall|i: int| 0 <= i < wrappers@.len() ==> (#[trigger] d.parent_of(marks@[i] as int)) == Some(wrappers@[i]),
                forall|i: int| 0 <= i < wrappers@.len() ==> {
                    let q = (#[trigger] d.parent_of(wrappers@[i] as int))->0 as int;
                    &&& 0 <= q < d0.size()
                    &&& !d0.is_text(q)
                    &&& within(d0, root as int, q)
                },
                marks@.len() == 0 <==> forall|j: int| si <= j < k ==> #[trigger] piece_bounds(d0, list@, si as int, ei as int, range, j).0
                    == piece_bounds(d0, list@, si as int, ei as int, range, j).1,
            decreases ei + 1 - k,
        {
            let t = list[k];
            let ghost dk = *d;
            assert(forall|i: int| 0 <= i < wrappers@.len() ==> #[trigger] wrappers@[i] < marks@[i] < dk.size());
            proof {
                assert(kept(dk, d0, t as int));
                assert(d0.valid(t as int) && d0.is_text(t as int));
                assert(dk.parent_of(t as int) == d0.parent_of(t as int));
                assert(d0.parent_of(t as int) is Some);
                assert(dk.is_text(t as int));
                assert(dk.text_of(t as int) == d0.text_of(t as int));
            }
            let len = d.text_content(t).len();
            let a: usize = if k == si { so } else { 0 };
            let b: usize = if k == ei { eo } else { len };
            assert(len == d0.text_of(list@[k as int] as int).len());
            assert(piece_bounds(d0, list@, si as int, ei as int, range, k as int).0 == a as int);
            assert(piece_bounds(d0, list@, si as int, ei as int, range, k as int).1 == b as int);
            assert(a <= b);
            if a < b {
                let (w, m) = wrap_piece(d, t, a, b);
                proof {
                    let dn = *d;
                    let p = dk.parent_of(t as int)->0 as int;
                    assert(p < d0.size());
                    assert forall|j: int| k + 1 <= j <= ei implies kept(dn, d0, #[trigger] list@[j] as int) by {
                        let x = list@[j] as int;
                        assert(list@[j] != list@[k as int]);
                        assert(kept(dk, d0, x));
                        assert(x != p) by {
                            assert(d0.is_text(x));
                            assert(!dk.is_text(p)) by {
                                assert(dk.kids(p).len() > 0) by {
                                    assert(dk.kids(p).contains(t));
                                }
                            }
                        }
                        assert(kept(dn, dk, x));
                    }
                    assert forall|i: int| 0 <= i < wrappers@.len() implies kept(dn, dk, #[trigger] wrappers@[i] as int)
                        && kept(dn, dk, marks@[i] as int) by {
                        assert(wrappers@[i] < dk.size());
                        assert(marks@[i] < dk.size());
                        assert(wrappers@[i] as int != p);
                        assert(marks@[i] as int != p) by {
                            assert(marks@[i] > wrappers@[i]);
                        }
                        assert(wrappers@[i] as int != t as int);
                        assert(marks@[i] as int != t as int);
                    }
                    assert forall|i: int| 0 <= i < marks@.len() implies #[trigger] dn.text_of(marks@[i] as int) == dk.text_of(marks@[i] as int) by {
                        assert(wrappers@[i] < marks@[i] < dk.size());
                    }
                    lemma_joined_frame(dk, dn, marks@);
                    assert(marks@.push(m).drop_last() =~= marks@);
                }
                let ghost pm = marks@;
                let ghost pw = wrappers@;
                wrappers.push(w);
                marks.push(m);
                proof {
                    let dn = *d;
                    assert(marks@.drop_last() =~= pm);
                    assert(joined_texts(dn, marks@) == joined_texts(dn, pm) + dn.text_of(m as int));
                    assert(selected_upto(d0, list@, si as int, ei as int, range, k + 1) == selected_upto(
                        d0,
                        list@,
                        si as int,
                        ei as int,
                        range,
                        k as int,
                    ) + d0.text_of(t as int).subrange(a as int, b as int));
                    assert forall|i: int|
                        0 <= i < wrappers@.len() implies #[trigger] wrappers@[i] < marks@[i] < dn.size() && !dn.is_text(marks@[i] as int)
                            && dn.kids(wrappers@[i] as int).len() == 3 && dn.kids(wrappers@[i] as int)[1] == marks@[i]
                            && dn.attr(marks@[i] as int, AttrName::PendingText) == Some("0"@) by {
                        if i < pw.len() {
                            assert(wrappers@[i] == pw[i] && marks@[i] == pm[i]);
                            assert(kept(dn, dk, pw[i] as int));
                            assert(kept(dn, dk, pm[i] as int));
                        }
                    }
                    let q0 = d0.parent_of(t as int)->0 as int;
                    assert(within(d0, root as int, t as int));
                    assert(t as int != root as int);
                    assert(within(d0, root as int, q0));
                    assert(d0.kids(q0).contains(t));
                    assert(!d0.is_text(q0));
                    assert forall|q: int| 0 <= q < d0.size() && !d0.is_text(q) implies #[trigger] dn.parent_of(q) == d0.parent_of(q) by {
                        assert(q != t as int);
                        assert(dk.parent_of(q) == d0.parent_of(q));
                    }
                    assert forall|i: int| 0 <= i < wrappers@.len() implies (#[trigger] dn.parent_of(marks@[i] as int)) == Some(wrappers@[i]) by {
                        if i < pw.len() {
                            assert(wrappers@[i] == pw[i] && marks@[i] == pm[i]);
                            assert(kept(dn, dk, pm[i] as int));
                        }
                    }
                    assert forall|i: int| 0 <= i < wrappers@.len() implies {
                        let q = (#[trigger] dn.parent_of(wrappers@[i] as int))->0 as int;
                        &&& 0 <= q < d0.size()
                        &&& !d0.is_text(q)
                        &&& within(d0, root as int, q)
                    } by {
                        if i < pw.len() {
                            assert(wrappers@[i] == pw[i]);
                            assert(kept(dn, dk, pw[i] as int));
                        }
                    }
                    assert forall|i: int| 0 <= i < wrappers@.len() implies (#[trigger] dn.parent_of(wrappers@[i] as int)) is Some by {
                        if i < pw.len() {
                            assert(wrappers@[i] == pw[i]);
                            assert(kept(dn, dk, pw[i] as int));
                            assert(dk.parent_of(pw[i] as int) is Some);
                        }
                    }
                    assert(!(forall|j: int| si <= j < k + 1 ==> #[trigger] piece_bounds(d0, list@, si as int, ei as int, range, j).0
                        == piece_bounds(d0, list@, si as int, ei as int, range, j).1)) by {
                        assert(piece_bounds(d0, list@, si as int, ei as int, range, k as int).0 != piece_bounds(d0, list@, si as int, ei as int, range, k as int).1);
                    }
                    assert forall|i: int, j: int|
                        0 <= i < wrappers@.len() && 0 <= j < 3 implies wrappers@[i] < #[trigger] dn.kids(#[trigger] wrappers@[i] as int)[j]
                            && dn.kids(wrappers@[i] as int)[j] < (if i + 1 < wrappers@.len() {
                            wrappers@[i + 1] as int
                        } else {
                            dn.size()
                        }) by {
                        if i + 1 < wrappers@.len() {
                            assert(dn.kids(wrappers@[i] as int) == dk.kids(wrappers@[i] as int));
                        }
                    }
                }
            } else {
                proof {
                    assert(a == b);
                    assert(piece_bounds(d0, list@, si as int, ei as int, range, k as int).0 == piece_bounds(d0, list@, si as int, ei as int, range, k as int).1);
                    assert(d0.text_of(t as int).subrange(a as int, b as int) =~= Seq::<char>::empty());
                    assert(selected_upto(d0, list@, si as int, ei as int, range, k + 1) =~= selected_upto(
                        d0,
                        list@,
                        si as int,
                        ei as int,
                        range,
                        k as int,
                    ));
                }
            }
            k = k + 1;
        }
        assert(k == ei + 1);
        assert(joined_texts(*d, marks@) == selected_upto(d0, list@, si as int, ei as int, range, ei + 1));
        if marks.len() == 0 {
            assert(forall|j: int| si <= j <= ei ==> #[trigger] piece_bounds(d0, list@, si as int, ei as int, range, j).0
                == piece_bounds(d0, list@, si as int, ei as int, range, j).1);
            return None;
        }
        proof {
            let df = *d;
            let w = wrappers@;
            assert forall|i: int, j: int| 0 <= i < w.len() && 0 <= j < w.len() && i != j implies #[trigger] w[i] != #[trigger] w[j] by {
                if i < j {
                    assert(w[i] < w[j]);
                } else {
                    assert(w[j] < w[i]);
                }
            }
            assert forall|i: int, j: int|
                0 <= i < w.len() && 0 <= j < w.len() implies !df.kids(#[trigger] w[j] as int).contains(#[trigger] w[i]) by {
                if df.kids(w[j] as int).contains(w[i]) {
                    let x = choose|x: int| 0 <= x < df.kids(w[j] as int).len() && df.kids(w[j] as int)[x] == w[i];
                    assert(w[j] < df.kids(w[j] as int)[x]);
                    if j + 1 < w.len() {
                        assert(df.kids(w[j] as int)[x] < w[j + 1]);
                        if i > j + 1 {
                            assert(w[j + 1] < w[i]);
                        }
                    }
                }
            }
        }
        proof {
            let df = *d;
            assert forall|i: int| 0 <= i < marks@.len() implies within(df, root as int, #[trigger] marks@[i] as int) by {
                let w = wrappers@[i] as int;
                let q = df.parent_of(w)->0 as int;
                lemma_within_frame(d0, df, root as int, q);
                assert(df.parent_of(marks@[i] as int) == Some(wrappers@[i]));
                assert(wrappers@[i] < marks@[i]);
                assert(d0.size() <= wrappers@[i]);
                assert(q < w) by {
                    assert(df.parent_of(w) is Some);
                }
                assert(within(df, root as int, w));
            }
        }
        let ghost wrappers_v = wrappers@;
        let ghost marks_v = marks@;
        let m = TextMark {
            start: so,
            end: eo,
            root,
            start_el: sn,
            end_el: Some(en),
            marks,
            wrappers,
            time: 0,
        };
        assert(m.wrappers@ == wrappers_v && m.marks@ == marks_v);
        assert(m.inv(*d));
        assert(m.root == range_root(d0, range)->0);
        assert(list@ == texts_of(d0, m.root as int));
        assert(joined_texts(*d, m.marks@) == selected_upto(d0, list@, si as int, ei as int, range, ei + 1));
        assert forall|i: int| 0 <= i < m.marks@.len() implies #[trigger] d.attr(m.marks@[i] as int, AttrName::PendingText) == Some("0"@) by {
            assert(m.wrappers@[i] < m.marks@[i]);
        }
        Some(m)
    }
}

/// Every node listed by `texts_of` is a text node of the document.
proof fn texts_are_text(d: Dom, i: int)
    requires
        d.wf(),
        i <= usize::MAX,
    ensures
        forall|j: int| 0 <= j < texts_of(d, i).len() ==> d.valid(#[trigger] texts_of(d, i)[j] as int)
            && d.is_text(texts_of(d, i)[j] as int),
    decreases d.size() - i, d.nodes@[i].children@.len() + 1,
{
    if d.valid(i) {
        if d.is_text(i) {
            assert(texts_of(d, i) == seq![i as usize]);
            assert(texts_of(d, i).len() == 1 && texts_of(d, i)[0] == i as usize);
        } else {
            let n = d.kids(i).len() as int;
            kids_texts_are_text(d, i, n);
            assert(texts_of(d, i) == kids_texts(d, i, n));
            assert forall|j: int| 0 <= j < texts_of(d, i).len() implies d.valid(#[trigger] texts_of(d, i)[j] as int)
                && d.is_text(texts_of(d, i)[j] as int) by {
                assert(texts_of(d, i)[j] == kids_texts(d, i, n)[j]);
            }
        }
    }
}

proof fn kids_texts_are_text(d: Dom, i: int, k: int)
    requires
        d.wf(),
        d.valid(i),
        0 <= k <= d.kids(i).len(),
    ensures
        forall|j: int| 0 <= j < kids_texts(d, i, k).len() ==> d.valid(#[trigger] kids_texts(d, i, k)[j] as int)
            && d.is_text(kids_texts(d, i, k)[j] as int),
    decreases d.size() - i, k,
{
    if k > 0 {
        kids_texts_are_text(d, i, k - 1);
        let c = d.kids(i)[k - 1] as int;
        assert(i < c < d.size());
        texts_are_text(d, c);
        let a = kids_texts(d, i, k - 1);
        let b = texts_of(d, c);
        assert(kids_texts(d, i, k) == a + b);
        assert forall|j: int| 0 <= j < (a + b).len() implies d.valid(#[trigger] (a + b)[j] as int)
            && d.is_text((a + b)[j] as int) by {
            if j < a.len() {
                assert((a + b)[j] == a[j]);
            } else {
                assert((a + b)[j] == b[j - a.len()]);
            }
        }
    }
}

/// After a revert of all wrappers `w`: each is detached, and no node that
/// was there before reads differently.
pub open spec fn all_restored(d0: Dom, d: Dom, w: Seq<usize>) -> bool {
    &&& d0.size() <= d.size()
    &&& forall|i: int| 0 <= i < w.len() ==> (#[trigger] d.parent_of(w[i] as int)) is None
    &&& forall|q: int| 0 <= q < d0.size() ==> #[trigger] d.text_of(q) == d0.text_of(q)
}

/// Every wrapper in `w` is attached.
pub open spec fn all_attached(d: Dom, w: Seq<usize>) -> bool {
    forall|i: int| 0 <= i < w.len() ==> (#[trigger] d.parent_of(w[i] as int)) is Some
}

/// Reverts every wrapper in `w`, or, where one is attached nowhere, none.
fn revert_all(d: &mut Dom, w: &Vec<usize>) -> (r: Result<(), DomError>)
    requires
        old(d).wf(),
        forall|i: int| 0 <= i < w@.len() ==> #[trigger] w@[i] < old(d).size(),
        forall|i: int, j: int| 0 <= i < w@.len() && 0 <= j < w@.len() && i != j ==> #[trigger] w@[i] != #[trigger] w@[j],
        forall|i: int, j: int|
            0 <= i < w@.len() && 0 <= j < w@.len() ==> !old(d).kids(#[trigger] w@[j] as int).contains(#[trigger] w@[i]),
    ensures
        final(d).wf(),
        r is Err <==> !all_attached(*old(d), w@),
        r is Err ==> *final(d) == *old(d),
        r is Ok ==> all_restored(*old(d), *final(d), w@),
{
    let n = w.len();
    let mut i: usize = 0;
    while i < n
        invariant
            d.wf(),
            *d == *old(d),
            n == w@.len(),
            i <= n,
            forall|k: int| 0 <= k < w@.len() ==> #[trigger] w@[k] < d.size(),
            forall|k: int| 0 <= k < i ==> (#[trigger] d.parent_of(w@[k] as int)) is Some,
        decreases n - i,
    {
        if d.parent_node(w[i]).is_none() {
            assert(d.parent_of(w@[i as int] as int) is None);
            return Err(DomError::Detached);
        }
        i = i + 1;
    }
    let ghost d0 = *d;
    let mut i: usize = 0;
    while i < n
        invariant
            d.wf(),
            d0 == *old(d),
            d0.wf(),
            n == w@.len(),
            i <= n,
            d0.size() <= d.size(),
            forall|k: int| 0 <= k < w@.len() ==> #[trigger] w@[k] < d0.size(),
            forall|k: int, j: int| 0 <= k < w@.len() && 0 <= j < w@.len() && k != j ==> #[trigger] w@[k] != #[trigger] w@[j],
            forall|k: int, j: int|
                0 <= k < w@.len() && 0 <= j < w@.len() ==> !d0.kids(#[trigger] w@[j] as int).contains(#[trigger] w@[k]),
            forall|k: int| 0 <= k < w@.len() ==> (#[trigger] d0.parent_of(w@[k] as int)) is Some,
            forall|k: int| i <= k < w@.len() ==> kept(*d, d0, #[trigger] w@[k] as int),
            forall|k: int| 0 <= k < i ==> (#[trigger] d.parent_of(w@[k] as int)) is None,
            forall|q: int| 0 <= q < d0.size() ==> #[trigger] d.text_of(q) == d0.text_of(q),
        decreases n - i,
    {
        let ghost di = *d;
        let x = w[i];
        proof {
            assert(kept(di, d0, x as int));
            assert(d0.parent_of(w@[i as int] as int) is Some);
        }
        let res = revert_root(d, x);
        proof {
            let dn = *d;
            assert(res is Ok);
            let p = di.parent_of(x as int)->0 as int;
            assert forall|k: int| i + 1 <= k < w@.len() implies kept(dn, d0, #[trigger] w@[k] as int) by {
                let y = w@[k] as int;
                assert(kept(di, d0, y));
                assert(y < di.size());
                assert(y != x as int);
                assert(y != p) by {
                    if y == p {
                        assert(d0.parent_of(x as int) == Some(w@[k]));
                        assert(d0.kids(y).contains(x));
                        assert(!d0.kids(w@[k] as int).contains(w@[i as int]));
                    }
                }
                assert(kept(dn, di, y));
            }
            assert forall|k: int| 0 <= k < i + 1 implies (#[trigger] dn.parent_of(w@[k] as int)) is None by {
                if k < i {
                    let y = w@[k] as int;
                    assert(di.parent_of(y) is None);
                    if y != p && y != x as int {
                        assert(kept(dn, di, y));
                    } else if y == p {
                        assert(di.parent_of(x as int) == Some(p as usize));
                        assert(di.kids(p).contains(x));
                    }
                }
            }
            assert forall|q: int| 0 <= q < d0.size() implies #[trigger] dn.text_of(q) == d0.text_of(q) by {
                assert(di.text_of(q) == d0.text_of(q));
            }
        }
        i = i + 1;
    }
    Ok(())
}

impl TextMark {
    /// Whether the mark still stands in `d` as `inv` describes.
    pub fn holds_in(&self, d: &Dom) -> (r: bool)
        requires
            d.wf(),
        ensures
            r == self.inv(*d),
    {
        let n = self.wrappers.len();
        if self.marks.len() != n || self.root >= d.node_count() {
            return false;
        }
        let mut i: usize = 0;
        while i < n
            invariant
                d.wf(),
                n == self.wrappers@.len() && n == self.marks@.len(),
                i <= n,
                forall|k: int|
                    0 <= k < i ==> #[trigger] self.wrappers@[k] < self.marks@[k] < d.size() && !d.is_text(self.marks@[k] as int)
                        && d.kids(self.wrappers@[k] as int).len() == 3 && d.kids(self.wrappers@[k] as int)[1] == self.marks@[k],
            decreases n - i,
        {
            let w = self.wrappers[i];
            let m = self.marks[i];
            if !(w < m && m < d.node_count()) || d.is_text_node(m) {
                return false;
            }
            let k = d.child_nodes(w);
            if k.len() != 3 || k[1] != m {
                return false;
            }
            i = i + 1;
        }
        if !distinct(&self.wrappers) {
            return false;
        }
        let mut j: usize = 0;
        while j < n
            invariant
                d.wf(),
                n == self.wrappers@.len(),
                j <= n,
                forall|k: int| 0 <= k < n ==> #[trigger] self.wrappers@[k] < d.size(),
                forall|a: int, b: int|
                    0 <= a < n && 0 <= b < j ==> !d.kids(#[trigger] self.wrappers@[b] as int).contains(#[trigger] self.wrappers@[a]),
            decreases n - j,
        {
            let kids = d.child_nodes(self.wrappers[j]);
            let mut a: usize = 0;
            while a < n
                invariant
                    d.wf(),
                    n == self.wrappers@.len(),
                    j < n,
                    a <= n,
                    kids@ == d.kids(self.wrappers@[j as int] as int),
                    forall|x: int| 0 <= x < a ==> !kids@.contains(#[trigger] self.wrappers@[x]),
                decreases n - a,
            {
                let x = self.wrappers[a];
                let mut c: usize = 0;
                while c < kids.len()
                    invariant
                        d.wf(),
                        n == self.wrappers@.len(),
                        j < n,
                        a < n,
                        x == self.wrappers@[a as int],
                        kids@ == d.kids(self.wrappers@[j as int] as int),
                        c <= kids@.len(),
                        forall|y: int| 0 <= y < c ==> kids@[y] != x,
                    decreases kids@.len() - c,
                {
                    if kids[c] == x {
                        assert(kids@[c as int] == self.wrappers@[a as int]);
                        assert(kids@.contains(self.wrappers@[a as int]));
                        assert(!self.inv(*d)) by {
                            if self.inv(*d) {
                                assert(!d.kids(self.wrappers@[j as int] as int).contains(self.wrappers@[a as int]));
                            }
                        }
                        return false;
                    }
                    c = c + 1;
                }
                a = a + 1;
            }
            j = j + 1;
        }
        true
    }

    /// Reverts every wrapper, restoring each selected text node; where one is
    /// attached nowhere, nothing is changed.
    pub fn unmount(&self, d: &mut Dom) -> (r: Result<(), DomError>)
        requires
            self.inv(*old(d)),
        ensures
            final(d).wf(),
            r is Err <==> !all_attached(*old(d), self.wrappers@),
            r is Err ==> *final(d) == *old(d),
            r is Ok ==> all_restored(*old(d), *final(d), self.wrappers@),
    {
        proof {
            assert forall|i: int| 0 <= i < self.wrappers@.len() implies #[trigger] self.wrappers@[i] < old(d).size() by {
                assert(self.wrappers@[i] < self.marks@[i]);
            }
        }
        revert_all(d, &self.wrappers)
    }

    /// Advances the dwell timer; on the first tick every highlight is flagged
    /// as animating. Returns whether the dwell is complete.
    pub fn tick_timer(&mut self, d: &mut Dom, delta: u64) -> (r: bool)
        requires
            old(self).inv(*old(d)),
        ensures
            final(self).time == tick_time(old(self).time, delta),
            r == dwell_done(final(self).time),
            final(self).inv(*final(d)),
            final(self).wrappers@ == old(self).wrappers@ && final(self).marks@ == old(self).marks@,
            final(self).root == old(self).root,
            final(self).start == old(self).start && final(self).end == old(self).end,
            final(self).start_el == old(self).start_el && final(self).end_el == old(self).end_el,
            links_kept(*old(d), *final(d)),
            old(self).time == 0 ==> forall|i: int| 0 <= i < old(self).marks@.len()
                ==> #[trigger] final(d).attr(old(self).marks@[i] as int, AttrName::PendingText) == Some("1"@),
            final(d).size() == old(d).size(),
            forall|q: int| 0 <= q < old(d).size() ==> #[trigger] final(d).text_of(q) == old(d).text_of(q),
    {
        if self.time == 0 {
            let n = self.marks.len();
            let mut i: usize = 0;
            while i < n
                invariant
                    self.inv(*d),
                    n == self.marks@.len(),
                    i <= n,
                    d.size() == old(d).size(),
                    self.time == old(self).time,
                    self.wrappers@ == old(self).wrappers@ && self.marks@ == old(self).marks@,
                    self.root == old(self).root,
                    self.start == old(self).start && self.end == old(self).end,
                    self.start_el == old(self).start_el && self.end_el == old(self).end_el,
                    links_kept(*old(d), *d),
                    forall|k: int| 0 <= k < i ==> #[trigger] d.attr(self.marks@[k] as int, AttrName::PendingText) == Some("1"@),
                    forall|q: int| 0 <= q < old(d).size() ==> #[trigger] d.text_of(q) == old(d).text_of(q),
                decreases n - i,
            {
                let m = self.marks[i];
                let ghost di = *d;
                proof {
                    assert(self.wrappers@[i as int] < self.marks@[i as int]);
                }
                let one = "1".to_owned();
                assert(one@ == "1"@);
                d.set_attr(m, AttrName::PendingText, Some(one));
                proof {
                    crate::dom::lemma_extends_all(di, *d);
                    let dn = *d;
                    assert forall|k: int| 0 <= k < self.wrappers@.len() implies #[trigger] self.wrappers@[k] < self.marks@[k] < dn.size()
                        && !dn.is_text(self.marks@[k] as int) && dn.kids(self.wrappers@[k] as int).len() == 3
                        && dn.kids(self.wrappers@[k] as int)[1] == self.marks@[k] by {
                        assert(self.wrappers@[k] < self.marks@[k]);
                        if self.wrappers@[k] != m {
                            assert(kept(dn, di, self.wrappers@[k] as int));
                        }
                        if self.marks@[k] != m {
                            assert(kept(dn, di, self.marks@[k] as int));
                        }
                    }
                    assert forall|a: int, b: int|
                        0 <= a < self.wrappers@.len() && 0 <= b < self.wrappers@.len() implies !dn.kids(#[trigger] self.wrappers@[b] as int).contains(#[trigger] self.wrappers@[a]) by {
                        assert(dn.kids(self.wrappers@[b] as int) == di.kids(self.wrappers@[b] as int)) by {
                            if self.wrappers@[b] != m {
                                assert(self.wrappers@[b] < self.marks@[b]);
                                assert(kept(dn, di, self.wrappers@[b] as int));
                            }
                        }
                    }
                    assert(dn.attr(m as int, AttrName::PendingText) == Some("1"@));
                    assert forall|k: int| 0 <= k < i + 1 implies #[trigger] dn.attr(self.marks@[k] as int, AttrName::PendingText) == Some("1"@) by {
                        if self.marks@[k] != m {
                            assert(k < i);
                            assert(self.wrappers@[k] < self.marks@[k]);
                            assert(di.attr(self.marks@[k] as int, AttrName::PendingText) == Some("1"@));
                            assert(kept(dn, di, self.marks@[k] as int));
                        }
                    }
                    assert forall|q: int| 0 <= q < old(d).size() implies #[trigger] dn.text_of(q) == old(d).text_of(q) by {
                        assert(di.text_of(q) == old(d).text_of(q));
                    }
                    assert forall|q: int| 0 <= q < old(d).size() implies #[trigger] dn.kids(q) == old(d).kids(q)
                        && dn.parent_of(q) == old(d).parent_of(q) && dn.is_text(q) == old(d).is_text(q)
                        && dn.nodes@[q].text@ == old(d).nodes@[q].text@ by {
                        assert(di.kids(q) == old(d).kids(q));
                        assert(dn.kids(q) == di.kids(q));
                    }
                }
                i = i + 1;
            }
        }
        self.time = self.time.saturating_add(delta);
        self.time >= TRIGGER_ANIMATED_TIMER
    }
}

/// Mounting a text mark and reverting it leaves every node that was there
/// before, the selection's common element included, reading as it did.
pub proof fn lemma_text_round_trip(d0: Dom, d1: Dom, d2: Dom, r: TextRange, m: TextMark)
    requires
        text_mounted(d0, d1, r, m),
        all_restored(d1, d2, m.wrappers@),
    ensures
        d2.text_of(m.root as int) == d0.text_of(m.root as int),
        forall|q: int| 0 <= q < d0.size() ==> #[trigger] d2.text_of(q) == d0.text_of(q),
{
    assert forall|q: int| 0 <= q < d0.size() implies #[trigger] d2.text_of(q) == d0.text_of(q) by {
        assert(d1.text_of(q) == d0.text_of(q));
    }
}

/// A promoted text mark.
pub struct TextPermanentTrigger {
    pub id: u128,
    pub start: usize,
    pub end: usize,
    pub root: usize,
    pub start_el: usize,
    pub end_el: Option<usize>,
    pub marks: Vec<usize>,
    pub wrappers: Vec<usize>,
    pub annotation: Option<Result<crate::annotation::Annotation, crate::annotation::YaYaError>>,
    pub feedback: bool,
}

/// Every highlight carries the text trigger attribute, whose text reads back
/// as `id`, and no pending attribute.
pub open spec fn marks_promoted(d: Dom, m: Seq<usize>, id: u128) -> bool {
    forall|i: int|
        0 <= i < m.len() ==> #[trigger] d.attr(m[i] as int, AttrName::TriggerText) == Some(uuid_text(id))
            && d.attr(m[i] as int, AttrName::PendingText) is None
}

impl TextPermanentTrigger {
    pub open spec fn inv(&self, d: Dom) -> bool {
        &&& wrappers_stand(d, self.root, self.wrappers@, self.marks@)
        &&& marks_promoted(d, self.marks@, self.id)
        &&& uuid_parsed(uuid_text(self.id)) == Some(self.id)
    }

    /// Reverts every wrapper, as a pending text mark's revert does.
    pub fn unmount(&self, d: &mut Dom) -> (r: Result<(), DomError>)
        requires
            old(d).wf(),
        ensures
            final(d).wf(),
            !wrappers_stand(*old(d), self.root, self.wrappers@, self.marks@) ==> r is Err && *final(d) == *old(d),
            wrappers_stand(*old(d), self.root, self.wrappers@, self.marks@) ==> (r is Err <==> !all_attached(*old(d), self.wrappers@)),
            r is Err ==> *final(d) == *old(d),
            r is Ok ==> all_restored(*old(d), *final(d), self.wrappers@),
    {
        let shape = TextMark {
            start: self.start,
            end: self.end,
            root: self.root,
            start_el: self.start_el,
            end_el: self.end_el,
            marks: self.marks.clone(),
            wrappers: self.wrappers.clone(),
            time: 0,
        };
        if !shape.holds_in(d) {
            return Err(DomError::Missing);
        }
        shape.unmount(d)
    }

    /// The identifier of the text trigger that owns `node`, read from the
    /// document alone (see `text_owner`).
    pub fn id(d: &Dom, node: usize) -> (r: Option<u128>)
        requires
            d.wf(),
        ensures
            r == crate::scan::text_owner(*d, node as int),
    {
        crate::scan::text_trigger_id(d, node)
    }

    /// The selected text: the highlights' texts, joined.
    pub fn text(&self, d: &Dom) -> (r: String)
        requires
            d.wf(),
        ensures
            (forall|i: int| 0 <= i < self.marks@.len() ==> #[trigger] self.marks@[i] < d.size()) ==> r@
                == joined_texts(*d, self.marks@),
    {
        let mut acc: Vec<char> = Vec::new();
        let mut i: usize = 0;
        while i < self.marks.len()
            invariant
                d.wf(),
                i <= self.marks@.len(),
                (forall|k: int| 0 <= k < self.marks@.len() ==> #[trigger] self.marks@[k] < d.size()) ==> acc@
                    == joined_texts(*d, self.marks@.take(i as int)),
            decreases self.marks@.len() - i,
        {
            let mk = self.marks[i];
            if mk < d.node_count() {
                let mut tx = d.text_content(mk);
                acc.append(&mut tx);
            }
            proof {
                assert(self.marks@.take(i + 1).drop_last() =~= self.marks@.take(i as int));
            }
            i = i + 1;
        }
        proof {
            assert(self.marks@.take(self.marks@.len() as int) =~= self.marks@);
        }
        crate::chars::string_of(acc.as_slice())
    }

    /// The text of the element under which the selection lies.
    pub fn context(&self, d: &Dom) -> (r: String)
        requires
            d.wf(),
        ensures
            self.root < d.size() ==> r@ == d.text_of(self.root as int),
            !(self.root < d.size()) ==> r@ == Seq::<char>::empty(),
    {
        if self.root >= d.node_count() {
            return String::new();
        }
        let t = d.text_content(self.root);
        crate::chars::string_of(t.as_slice())
    }
}

impl TextMark {
    /// Promotes a pending text mark: every highlight drops the pending
    /// attribute and carries the trigger attribute with the identifier's text.
    /// No node's text changes.
    pub fn make_permanent(&self, d: &mut Dom, id: u128) -> (r: TextPermanentTrigger)
        requires
            self.inv(*old(d)),
        ensures
            r.inv(*final(d)),
            r.id == id,
            r.root == self.root,
            r.marks@ == self.marks@ && r.wrappers@ == self.wrappers@,
            r.start == self.start && r.end == self.end,
            r.start_el == self.start_el && r.end_el == self.end_el,
            r.annotation is None,
            !r.feedback,
            final(d).size() == old(d).size(),
            links_kept(*old(d), *final(d)),
            forall|q: int| 0 <= q < old(d).size() ==> #[trigger] final(d).text_of(q) == old(d).text_of(q),
    {
        let idt = id_text(id);
        let n = self.marks.len();
        let ghost w = self.wrappers@;
        let ghost m = self.marks@;
        let mut i: usize = 0;
        while i < n
            invariant
                wrappers_stand(*d, self.root, w, m),
                n == m.len(),
                w == self.wrappers@ && m == self.marks@,
                i <= n,
                uuid_parsed(idt@) == Some(id),
                idt@ == uuid_text(id),
                d.size() == old(d).size(),
                links_kept(*old(d), *d),
                marks_promoted(*d, m.take(i as int), id),
                forall|q: int| 0 <= q < old(d).size() ==> #[trigger] d.text_of(q) == old(d).text_of(q),
            decreases n - i,
        {
            let mk = self.marks[i];
            let ghost di = *d;
            proof {
                assert(w[i as int] < m[i as int]);
            }
            d.set_attr(mk, AttrName::PendingText, None);
            let ghost da = *d;
            d.set_attr(mk, AttrName::TriggerText, Some(idt.clone()));
            let ghost db = *d;
            d.set_attr(
                mk,
                AttrName::Style,
                Some("background-color: rgba(239, 207, 227, 1);".to_owned()),
            );
            proof {
                let dn = *d;
                crate::dom::lemma_extends_all(di, da);
                crate::dom::lemma_extends_all(da, db);
                crate::dom::lemma_extends_all(db, dn);
                assert forall|q: int| 0 <= q < di.size() && q != mk implies kept(dn, di, q) by {
                    assert(kept(da, di, q));
                    assert(kept(db, da, q));
                }
                assert forall|k: int| 0 <= k < w.len() implies #[trigger] w[k] < m[k] < dn.size()
                    && !dn.is_text(m[k] as int) && dn.kids(w[k] as int).len() == 3
                    && dn.kids(w[k] as int)[1] == m[k] by {
                    assert(w[k] < m[k]);
                    assert(dn.kids(w[k] as int) == di.kids(w[k] as int));
                    assert(dn.is_text(m[k] as int) == di.is_text(m[k] as int));
                }
                assert forall|a: int, b: int|
                    0 <= a < w.len() && 0 <= b < w.len() implies !dn.kids(#[trigger] w[b] as int).contains(#[trigger] w[a]) by {
                    assert(w[b] < m[b]);
                    assert(dn.kids(w[b] as int) == di.kids(w[b] as int));
                }
                let mt = m.take(i + 1);
                assert forall|k: int| 0 <= k < mt.len() implies #[trigger] dn.attr(mt[k] as int, AttrName::TriggerText) == Some(uuid_text(id))
                    && dn.attr(mt[k] as int, AttrName::PendingText) is None by {
                    if mt[k] != mk {
                        assert(m.take(i as int)[k] == mt[k]);
                        assert(di.attr(m.take(i as int)[k] as int, AttrName::TriggerText) == Some(uuid_text(id)));
                        assert(w[k] < m[k]);
                        assert(kept(dn, di, mt[k] as int));
                    }
                }
                assert forall|q: int| 0 <= q < old(d).size() implies #[trigger] dn.kids(q) == old(d).kids(q)
                    && dn.parent_of(q) == old(d).parent_of(q) && dn.is_text(q) == old(d).is_text(q)
                    && dn.nodes@[q].text@ == old(d).nodes@[q].text@ by {
                    assert(di.kids(q) == old(d).kids(q));
                    assert(da.kids(q) == di.kids(q));
                    assert(db.kids(q) == da.kids(q));
                    assert(dn.kids(q) == db.kids(q));
                }
                assert forall|q: int| 0 <= q < old(d).size() implies #[trigger] dn.text_of(q) == old(d).text_of(q) by {
                    assert(di.text_of(q) == old(d).text_of(q));
                }
            }
            i = i + 1;
        }
        proof {
            assert(m.take(n as int) =~= m);
        }
        TextPermanentTrigger {
            id,
            start: self.start,
            end: self.end,
            root: self.root,
            start_el: self.start_el,
            end_el: self.end_el,
            marks: self.marks.clone(),
            wrappers: self.wrappers.clone(),
            annotation: None,
            feedback: false,
        }
    }

}

/// After promotion, a text trigger's identifier is recovered from any of its
/// highlight elements.
pub proof fn lemma_text_lookup_finds_trigger(d: Dom, t: TextPermanentTrigger, i: int)
    requires
        t.inv(d),
        0 <= i < t.marks@.len(),
    ensures
        crate::scan::text_owner(d, t.marks@[i] as int) == Some(t.id),
{
    assert(t.wrappers@[i] < t.marks@[i]);
    assert(d.attr(t.marks@[i] as int, AttrName::TriggerText) == Some(uuid_text(t.id)));
}

/// A text trigger's identifier is recovered from a text node inside any of
/// its highlight elements.
pub proof fn lemma_text_lookup_below_mark(d: Dom, t: TextPermanentTrigger, i: int, x: int)
    requires
        t.inv(d),
        0 <= i < t.marks@.len(),
        0 <= x < d.size(),
        d.is_text(x),
        d.parent_of(x) == Some(t.marks@[i]),
    ensures
        crate::scan::text_owner(d, x) == Some(t.id),
{
    assert(t.wrappers@[i] < t.marks@[i]);
    assert(d.attr(t.marks@[i] as int, AttrName::TriggerText) == Some(uuid_text(t.id)));
}

proof fn lemma_within_child(d: Dom, i: int, c: int, x: int)
    requires
        d.wf(),
        0 <= i < c < d.size(),
        i <= usize::MAX,
        d.parent_of(c) == Some(i as usize),
        within(d, c, x),
    ensures
        within(d, i, x),
    decreases x,
{
    assert(within(d, i, i));
    if x == c {
        assert(within(d, i, c));
    } else if x != i {
        let p = d.parent_of(x)->0 as int;
        lemma_within_child(d, i, c, p);
        assert(within(d, i, x));
    }
}

/// Every node listed by `texts_of(d, i)` lies under `i`.
proof fn lemma_texts_within(d: Dom, i: int)
    requires
        d.wf(),
        0 <= i < d.size(),
        i <= usize::MAX,
    ensures
        forall|j: int| 0 <= j < texts_of(d, i).len() ==> within(d, i, #[trigger] texts_of(d, i)[j] as int),
    decreases d.size() - i, d.nodes@[i].children@.len() + 1,
{
    if d.is_text(i) {
        assert(texts_of(d, i) == seq![i as usize]);
        assert(within(d, i, i));
    } else {
        let n = d.kids(i).len() as int;
        lemma_kids_texts_within(d, i, n);
        assert(texts_of(d, i) == kids_texts(d, i, n));
        assert forall|j: int| 0 <= j < texts_of(d, i).len() implies within(d, i, #[trigger] texts_of(d, i)[j] as int) by {
            assert(texts_of(d, i)[j] == kids_texts(d, i, n)[j]);
        }
    }
}

proof fn lemma_kids_texts_within(d: Dom, i: int, k: int)
    requires
        d.wf(),
        0 <= i < d.size(),
        i <= usize::MAX,
        0 <= k <= d.kids(i).len(),
    ensures
        forall|j: int| 0 <= j < kids_texts(d, i, k).len() ==> within(d, i, #[trigger] kids_texts(d, i, k)[j] as int),
    decreases d.size() - i, k,
{
    if k > 0 {
        lemma_kids_texts_within(d, i, k - 1);
        let c = d.kids(i)[k - 1] as int;
        assert(i < c < d.size());
        lemma_texts_within(d, c);
        let a = kids_texts(d, i, k - 1);
        let b = texts_of(d, c);
        assert(kids_texts(d, i, k) == a + b);
        assert forall|j: int| 0 <= j < (a + b).len() implies within(d, i, #[trigger] (a + b)[j] as int) by {
            if j < a.len() {
                assert((a + b)[j] == a[j]);
            } else {
                assert((a + b)[j] == b[j - a.len()]);
                lemma_within_child(d, i, c, b[j - a.len()] as int);
            }
        }
    }
}

/// `within` survives changes that keep the parents of the element chain.
proof fn lemma_within_frame(d0: Dom, d: Dom, root: int, x: int)
    requires
        d0.wf(),
        d.wf(),
        d0.size() <= d.size(),
        0 <= x < d0.size(),
        !d0.is_text(x),
        within(d0, root, x),
        forall|q: int| 0 <= q < d0.size() && !d0.is_text(q) ==> #[trigger] d.parent_of(q) == d0.parent_of(q),
    ensures
        within(d, root, x),
    decreases x,
{
    if x != root {
        let p = d0.parent_of(x)->0 as int;
        assert(d0.kids(p).contains(x as usize));
        lemma_within_frame(d0, d, root, p);
    }
}

} // verus!
