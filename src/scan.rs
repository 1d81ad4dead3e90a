//! Reading the document: resolving a node to the text node it stands for,
//! telling whether a node already lies inside a mark, and recovering a
//! trigger's identifier from the attributes above a node.
use vstd::prelude::*;
use crate::attrs::AttrName;
use crate::dom::Dom;
use crate::ident::{parse_id, uuid_parsed};

verus! {

/// Whether `a` and `b` hold the same characters.
pub fn same_chars(a: &Vec<char>, b: &Vec<char>) -> (r: bool)
    ensures
        r == (a@ == b@),
{
    if a.len() != b.len() {
        return false;
    }
    let mut i: usize = 0;
    while i < a.len()
        invariant
            a@.len() == b@.len(),
            i <= a@.len(),
            forall|j: int| 0 <= j < i ==> a@[j] == b@[j],
        decreases a@.len() - i,
    {
        if a[i] != b[i] {
            return false;
        }
        i = i + 1;
    }
    assert(a@ =~= b@);
    true
}

/// The first child of `i`, from position `j` on, whose text equals `t`.
pub open spec fn kid_with_text(d: Dom, i: int, t: Seq<char>, j: int) -> Option<int>
    decreases d.kids(i).len() - j,
{
    if !d.valid(i) || j < 0 || j >= d.kids(i).len() {
        None
    } else if d.text_of(d.kids(i)[j] as int) == t {
        Some(d.kids(i)[j] as int)
    } else {
        kid_with_text(d, i, t, j + 1)
    }
}

/// The text node that `i` stands for: `i` itself if it is text, else what
/// its first child with the same text content stands for.
pub open spec fn resolve(d: Dom, i: int) -> Option<int>
    decreases d.size() - i,
{
    if !d.valid(i) {
        None
    } else if d.is_text(i) {
        Some(i)
    } else {
        match kid_with_text(d, i, d.text_of(i), 0) {
            Some(c) => if i < c < d.size() {
                resolve(d, c)
            } else {
                None
            },
            None => None,
        }
    }
}

/// The element at which an upward walk from `i` begins: `i` if it is an
/// element, else its parent.
pub open spec fn walk_start(d: Dom, i: int) -> Option<int> {
    if !d.valid(i) {
        None
    } else if !d.is_text(i) {
        Some(i)
    } else {
        match d.parent_of(i) {
            Some(p) => Some(p as int),
            None => None,
        }
    }
}

/// Node `e` carries the attribute of a pending or promoted mark.
pub open spec fn has_marker(d: Dom, e: int) -> bool {
    d.attr(e, AttrName::PendingWord) is Some || d.attr(e, AttrName::TriggerWord) is Some || d.attr(
        e,
        AttrName::PendingText,
    ) is Some || d.attr(e, AttrName::TriggerText) is Some
}

/// `e` or one of its ancestors carries a mark attribute.
pub open spec fn marked_up(d: Dom, e: int) -> bool
    decreases e,
{
    if !d.valid(e) {
        false
    } else if has_marker(d, e) {
        true
    } else {
        match d.parent_of(e) {
            Some(p) => if 0 <= p < e {
                marked_up(d, p as int)
            } else {
                false
            },
            None => false,
        }
    }
}

/// `i` already lies inside a pending mark or a trigger.
pub open spec fn mounted(d: Dom, i: int) -> bool {
    match walk_start(d, i) {
        Some(e) => marked_up(d, e),
        None => false,
    }
}

/// Walking up from `e` while the text content stays `t`, the value of the
/// first `which` attribute met.
pub open spec fn tagged_up(d: Dom, e: int, t: Seq<char>, which: AttrName) -> Option<Seq<char>>
    decreases e,
{
    if !d.valid(e) {
        None
    } else if d.attr(e, which) is Some {
        d.attr(e, which)
    } else if d.text_of(e) != t {
        None
    } else {
        match d.parent_of(e) {
            Some(p) => if 0 <= p < e {
                tagged_up(d, p as int, t, which)
            } else {
                None
            },
            None => None,
        }
    }
}

/// Walking up from `e` through all ancestors, the value of the first `which`
/// attribute met.
pub open spec fn tagged_any_up(d: Dom, e: int, which: AttrName) -> Option<Seq<char>>
    decreases e,
{
    if !d.valid(e) {
        None
    } else if d.attr(e, which) is Some {
        d.attr(e, which)
    } else {
        match d.parent_of(e) {
            Some(p) => if 0 <= p < e {
                tagged_any_up(d, p as int, which)
            } else {
                None
            },
            None => None,
        }
    }
}

/// The identifier of the word trigger that owns node `i`: walk up from `i`
/// (from its parent, if `i` is text) while the text content stays that of
/// `i`, and read the first word trigger attribute met.
pub open spec fn word_owner(d: Dom, i: int) -> Option<u128> {
    match walk_start(d, i) {
        Some(e) => match tagged_up(d, e, d.text_of(i), AttrName::TriggerWord) {
            Some(v) => uuid_parsed(v),
            None => None,
        },
        None => None,
    }
}

/// The identifier of the text trigger that owns node `i`: the first text
/// trigger attribute on `i` or above it.
pub open spec fn text_owner(d: Dom, i: int) -> Option<u128> {
    match walk_start(d, i) {
        Some(e) => match tagged_any_up(d, e, AttrName::TriggerText) {
            Some(v) => uuid_parsed(v),
            None => None,
        },
        None => None,
    }
}

fn first_kid_with_text(d: &Dom, i: usize, t: &Vec<char>) -> (r: Option<usize>)
    requires
        d.wf(),
        i < d.size(),
    ensures
        match r {
            Some(c) => kid_with_text(*d, i as int, t@, 0) == Some(c as int),
            None => kid_with_text(*d, i as int, t@, 0) is None,
        },
{
    let kids = d.child_nodes(i);
    let n = kids.len();
    let mut j: usize = n;
    let mut found: Option<usize> = None;
    // scan from the back so that the answer is the first match
    while j > 0
        invariant
            d.wf(),
            i < d.size(),
            kids@ == d.kids(i as int),
            n == kids@.len(),
            j <= n,
            match found {
                Some(c) => kid_with_text(*d, i as int, t@, j as int) == Some(c as int),
                None => kid_with_text(*d, i as int, t@, j as int) is None,
            },
        decreases j,
    {
        j = j - 1;
        let c = kids[j];
        assert(i < c < d.size());
        let ct = d.text_content(c);
        if same_chars(&ct, t) {
            found = Some(c);
        }
    }
    found
}

/// The text node that node `node` stands for (see `resolve`).
pub fn text_node(d: &Dom, node: usize) -> (r: Option<usize>)
    requires
        d.wf(),
    ensures
        match r {
            Some(t) => resolve(*d, node as int) == Some(t as int) && t < d.size() && d.is_text(
                t as int,
            ),
            None => resolve(*d, node as int) is None,
        },
    decreases d.size() - node,
{
    if node >= d.node_count() {
        return None;
    }
    if d.is_text_node(node) {
        return Some(node);
    }
    let t = d.text_content(node);
    match first_kid_with_text(d, node, &t) {
        Some(c) => {
            assert(node < c < d.size()) by {
                lemma_kid_with_text_is_kid(*d, node as int, t@, 0);
            }
            text_node(d, c)
        },
        None => None,
    }
}

proof fn lemma_kid_with_text_is_kid(d: Dom, i: int, t: Seq<char>, j: int)
    requires
        d.wf(),
        d.valid(i),
        0 <= j,
        kid_with_text(d, i, t, j) is Some,
    ensures
        i < kid_with_text(d, i, t, j)->0 < d.size(),
    decreases d.kids(i).len() - j,
{
    if j < d.kids(i).len() && d.text_of(d.kids(i)[j] as int) != t {
        lemma_kid_with_text_is_kid(d, i, t, j + 1);
    }
}

fn walk_start_of(d: &Dom, i: usize) -> (r: Option<usize>)
    requires
        d.wf(),
        i < d.size(),
    ensures
        match r {
            Some(e) => walk_start(*d, i as int) == Some(e as int) && e < d.size(),
            None => walk_start(*d, i as int) is None,
        },
{
    if d.is_text_node(i) {
        d.parent_node(i)
    } else {
        Some(i)
    }
}

/// Whether node `node` already lies inside a pending mark or a trigger.
pub fn is_al_mounted(d: &Dom, node: usize) -> (r: bool)
    requires
        d.wf(),
    ensures
        r == mounted(*d, node as int),
{
    if node >= d.node_count() {
        return false;
    }
    let start = walk_start_of(d, node);
    let mut e = match start {
        Some(e) => e,
        None => return false,
    };
    loop
        invariant
            d.wf(),
            e < d.size(),
            mounted(*d, node as int) == marked_up(*d, e as int),
        decreases e,
    {
        if d.has_attr(e, AttrName::PendingWord) || d.has_attr(e, AttrName::TriggerWord)
            || d.has_attr(e, AttrName::PendingText) || d.has_attr(e, AttrName::TriggerText) {
            return true;
        }
        match d.parent_node(e) {
            Some(p) => {
                e = p;
            },
            None => {
                return false;
            },
        }
    }
}

/// The identifier of the word trigger that owns node `node` (see `word_owner`).
pub fn word_trigger_id(d: &Dom, node: usize) -> (r: Option<u128>)
    requires
        d.wf(),
    ensures
        r == word_owner(*d, node as int),
{
    if node >= d.node_count() {
        return None;
    }
    let text = d.text_content(node);
    let mut e = match walk_start_of(d, node) {
        Some(e) => e,
        None => return None,
    };
    loop
        invariant
            d.wf(),
            e < d.size(),
            text@ == d.text_of(node as int),
            word_owner(*d, node as int) == match tagged_up(*d, e as int, text@, AttrName::TriggerWord) {
                Some(v) => uuid_parsed(v),
                None => None,
            },
        decreases e,
    {
        match d.get_attr(e, AttrName::TriggerWord) {
            Some(v) => {
                return parse_id(v.as_str());
            },
            None => {},
        }
        let et = d.text_content(e);
        if !same_chars(&et, &text) {
            return None;
        }
        match d.parent_node(e) {
            Some(p) => {
                e = p;
            },
            None => {
                return None;
            },
        }
    }
}

/// The identifier of the text trigger that owns node `node` (see `text_owner`).
pub fn text_trigger_id(d: &Dom, node: usize) -> (r: Option<u128>)
    requires
        d.wf(),
    ensures
        r == text_owner(*d, node as int),
{
    if node >= d.node_count() {
        return None;
    }
    let mut e = match walk_start_of(d, node) {
        Some(e) => e,
        None => return None,
    };
    loop
        invariant
            d.wf(),
            e < d.size(),
            text_owner(*d, node as int) == match tagged_any_up(*d, e as int, AttrName::TriggerText) {
                Some(v) => uuid_parsed(v),
                None => None,
            },
        decreases e,
    {
        match d.get_attr(e, AttrName::TriggerText) {
            Some(v) => {
                return parse_id(v.as_str());
            },
            None => {},
        }
        match d.parent_node(e) {
            Some(p) => {
                e = p;
            },
            None => {
                return None;
            },
        }
    }
}

} // verus!
