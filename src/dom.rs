//! An owned document tree: nodes live in an arena and refer to each other by
//! index. A child always has a larger index than its parent, which gives the
//! tree's recursive functions their measure.
use vstd::prelude::*;
use crate::attrs::{AttrName, Attrs};

verus! {

/// Whether a node holds text or other nodes.
#[derive(PartialEq, Eq, Structural, Clone, Copy, Debug)]
pub enum NodeKind {
    Text,
    Element,
}

/// Why a change to the document could not be made.
#[derive(PartialEq, Eq, Structural, Clone, Copy, Debug)]
pub enum DomError {
    /// The node to be replaced is attached nowhere.
    Detached,
    /// The node is not in the document.
    Missing,
}

/// One node of the arena.
pub struct DomNode {
    pub kind: NodeKind,
    /// The element's tag name; empty for text nodes.
    pub tag: String,
    /// The text node's characters; empty for elements.
    pub text: Vec<char>,
    pub attrs: Attrs,
    pub children: Vec<usize>,
    pub parent: Option<usize>,
}

/// A document: an arena of nodes whose node 0 is the document element.
pub struct Dom {
    pub nodes: Vec<DomNode>,
}

impl Dom {
    pub open spec fn size(&self) -> int {
        self.nodes@.len() as int
    }

    pub open spec fn valid(&self, i: int) -> bool {
        0 <= i < self.nodes@.len()
    }

    pub open spec fn kids(&self, i: int) -> Seq<usize> {
        self.nodes@[i].children@
    }

    pub open spec fn is_text(&self, i: int) -> bool {
        self.nodes@[i].kind == NodeKind::Text
    }

    pub open spec fn parent_of(&self, i: int) -> Option<usize> {
        self.nodes@[i].parent
    }

    pub open spec fn attr(&self, i: int, n: AttrName) -> Option<Seq<char>> {
        self.nodes@[i].attrs.spec_get(n)
    }

    /// Parent and child links agree, children come after their parent, no
    /// node is listed twice under one parent, and text nodes have no children.
    pub open spec fn wf(&self) -> bool {
        &&& forall|i: int, j: int|
            0 <= i < self.size() && 0 <= j < self.kids(i).len() ==> i < #[trigger] self.kids(i)[j]
                < self.size() && self.parent_of(self.kids(i)[j] as int) == Some(i as usize)
        &&& forall|i: int|
            self.valid(i) && (#[trigger] self.parent_of(i)) is Some ==> self.parent_of(i)->0 < i
                && self.kids(self.parent_of(i)->0 as int).contains(i as usize)
        &&& forall|i: int, j1: int, j2: int|
            0 <= i < self.size() && 0 <= j1 < self.kids(i).len() && 0 <= j2 < self.kids(i).len()
                && #[trigger] self.kids(i)[j1] == #[trigger] self.kids(i)[j2] ==> j1 == j2
        &&& forall|i: int| self.valid(i) && #[trigger] self.is_text(i) ==> self.kids(i).len() == 0
    }

    /// The text content of node `i`: its own text, or its children's joined.
    pub open spec fn text_of(&self, i: int) -> Seq<char>
        decreases self.nodes@.len() - i, self.nodes@[i].children@.len() + 1,
    {
        if !self.valid(i) {
            Seq::empty()
        } else if self.is_text(i) {
            self.nodes@[i].text@
        } else {
            self.kids_text(i, self.kids(i).len() as int)
        }
    }

    /// The text of the first `k` children of `i`, joined.
    pub open spec fn kids_text(&self, i: int, k: int) -> Seq<char>
        decreases self.nodes@.len() - i, k,
    {
        if !self.valid(i) || k <= 0 || k > self.kids(i).len() {
            Seq::empty()
        } else {
            let c = self.kids(i)[k - 1] as int;
            self.kids_text(i, k - 1) + if i < c < self.size() {
                self.text_of(c)
            } else {
                Seq::empty()
            }
        }
    }

    /// Like `kids_text` over the children that `i` has here, but a child that
    /// `old` already had is read in `old`.
    pub open spec fn kids_text_mixed(&self, old: Dom, i: int, k: int) -> Seq<char>
        decreases k,
    {
        if !self.valid(i) || k <= 0 || k > self.kids(i).len() {
            Seq::empty()
        } else {
            let c = self.kids(i)[k - 1] as int;
            self.kids_text_mixed(old, i, k - 1) + if i < c < self.size() {
                if c < old.size() {
                    old.text_of(c)
                } else {
                    self.text_of(c)
                }
            } else {
                Seq::empty()
            }
        }
    }

    /// `self` grew from `old` without changing what any old node reads as:
    /// old nodes keep their kind and text, and an old node whose children
    /// changed joins to the same text when its old children are read in `old`.
    pub open spec fn extends(&self, old: Dom) -> bool {
        &&& old.wf()
        &&& self.wf()
        &&& old.size() <= self.size()
        &&& forall|q: int|
            0 <= q < old.size() ==> (#[trigger] self.nodes@[q]).kind == old.nodes@[q].kind
                && self.nodes@[q].text@ == old.nodes@[q].text@
        &&& forall|q: int|
            0 <= q < old.size() ==> #[trigger] self.kids(q) == old.kids(q) || self.kids_text_mixed(
                old,
                q,
                self.kids(q).len() as int,
            ) == old.kids_text(q, old.kids(q).len() as int)
    }
}

proof fn lemma_mixed_is_kids(d1: Dom, d2: Dom, q: int, k: int)
    requires
        d2.wf(),
        0 <= q < d1.size() <= d2.size(),
        0 <= k <= d2.kids(q).len(),
        forall|j: int|
            0 <= j < d2.kids(q).len() && #[trigger] d2.kids(q)[j] < d1.size() ==> d2.text_of(
                d2.kids(q)[j] as int,
            ) == d1.text_of(d2.kids(q)[j] as int),
    ensures
        d2.kids_text(q, k) == d2.kids_text_mixed(d1, q, k),
    decreases k,
{
    if k > 0 {
        lemma_mixed_is_kids(d1, d2, q, k - 1);
    }
}

proof fn lemma_mixed_same_kids(d1: Dom, d2: Dom, q: int, k: int)
    requires
        d1.wf(),
        0 <= q < d1.size() <= d2.size(),
        d2.kids(q) == d1.kids(q),
        0 <= k <= d1.kids(q).len(),
    ensures
        d2.kids_text_mixed(d1, q, k) == d1.kids_text(q, k),
    decreases k,
{
    if k > 0 {
        lemma_mixed_same_kids(d1, d2, q, k - 1);
        let c = d1.kids(q)[k - 1];
        assert(q < c < d1.size());
    }
}

/// Under `extends`, each old node reads as the same text.
pub proof fn lemma_extends_text(d1: Dom, d2: Dom, q: int)
    requires
        d2.extends(d1),
        0 <= q < d1.size(),
    ensures
        d2.text_of(q) == d1.text_of(q),
    decreases d1.size() - q,
{
    assert(d2.nodes@[q].kind == d1.nodes@[q].kind);
    if !d1.is_text(q) {
        assert forall|j: int|
            0 <= j < d2.kids(q).len() && #[trigger] d2.kids(q)[j] < d1.size() implies d2.text_of(
            d2.kids(q)[j] as int,
        ) == d1.text_of(d2.kids(q)[j] as int) by {
            let c = d2.kids(q)[j] as int;
            assert(q < c);
            lemma_extends_text(d1, d2, c);
        }
        lemma_mixed_is_kids(d1, d2, q, d2.kids(q).len() as int);
        if d2.kids(q) == d1.kids(q) {
            lemma_mixed_same_kids(d1, d2, q, d1.kids(q).len() as int);
        }
    }
}

/// Under `extends`, every old node reads as the same text.
pub proof fn lemma_extends_all(d1: Dom, d2: Dom)
    requires
        d2.extends(d1),
    ensures
        forall|q: int| 0 <= q < d1.size() ==> #[trigger] d2.text_of(q) == d1.text_of(q),
{
    assert forall|q: int| 0 <= q < d1.size() implies #[trigger] d2.text_of(q) == d1.text_of(q) by {
        lemma_extends_text(d1, d2, q);
    }
}

/// A child of an old node replaced by a new node that reads as the same text
/// leaves the old node's joined text as it was.
pub proof fn lemma_mixed_subst(d1: Dom, d2: Dom, q: int, j: int, w: usize, k: int)
    requires
        d1.wf(),
        d2.wf(),
        0 <= q < d1.size() <= d2.size(),
        0 <= j < d1.kids(q).len(),
        d2.kids(q) == d1.kids(q).update(j, w),
        q < w < d2.size(),
        (if w < d1.size() {
            d1.text_of(w as int)
        } else {
            d2.text_of(w as int)
        }) == d1.text_of(d1.kids(q)[j] as int),
        0 <= k <= d1.kids(q).len(),
    ensures
        d2.kids_text_mixed(d1, q, k) == d1.kids_text(q, k),
    decreases k,
{
    if k > 0 {
        lemma_mixed_subst(d1, d2, q, j, w, k - 1);
        let c = d1.kids(q)[k - 1];
        assert(q < c < d1.size());
        if k - 1 == j {
            assert(d2.kids(q)[k - 1] == w);
        }
    }
}

/// Two arenas with the same links and texts: the second is well formed and
/// extends the first.
pub proof fn lemma_wf_same_links(d0: Dom, d: Dom)
    requires
        d0.wf(),
        d.size() == d0.size(),
        forall|q: int| 0 <= q < d.size() ==> #[trigger] d.kids(q) == d0.kids(q)
            && d.parent_of(q) == d0.parent_of(q) && d.is_text(q) == d0.is_text(q)
            && d.nodes@[q].text@ == d0.nodes@[q].text@,
    ensures
        d.wf(),
        d.extends(d0),
{
    assert forall|i: int, j: int|
        0 <= i < d.size() && 0 <= j < d.kids(i).len() implies i < #[trigger] d.kids(i)[j]
        < d.size() && d.parent_of(d.kids(i)[j] as int) == Some(i as usize) by {
        assert(d.kids(i) == d0.kids(i));
        let c = d.kids(i)[j] as int;
        assert(d0.kids(i)[j] == c);
        assert(d.kids(c) == d0.kids(c));
    }
    assert forall|i: int|
        d.valid(i) && (#[trigger] d.parent_of(i)) is Some implies d.parent_of(i)->0 < i
        && d.kids(d.parent_of(i)->0 as int).contains(i as usize) by {
        assert(d.kids(i) == d0.kids(i));
        assert(d0.parent_of(i) is Some);
        let p = d.parent_of(i)->0 as int;
        assert(d.kids(p) == d0.kids(p));
    }
    assert forall|i: int, j1: int, j2: int|
        0 <= i < d.size() && 0 <= j1 < d.kids(i).len() && 0 <= j2 < d.kids(i).len()
            && #[trigger] d.kids(i)[j1] == #[trigger] d.kids(i)[j2] implies j1 == j2 by {
        assert(d.kids(i) == d0.kids(i));
        assert(d0.kids(i)[j1] == d0.kids(i)[j2]);
    }
    assert forall|i: int| d.valid(i) && #[trigger] d.is_text(i) implies d.kids(i).len() == 0 by {
        assert(d.kids(i) == d0.kids(i));
        assert(d0.is_text(i));
    }
    assert forall|q: int| 0 <= q < d0.size() implies (#[trigger] d.nodes@[q]).kind == d0.nodes@[q].kind
        && d.nodes@[q].text@ == d0.nodes@[q].text@ by {
        assert(d.kids(q) == d0.kids(q));
    }
    assert forall|q: int| 0 <= q < d0.size() implies #[trigger] d.kids(q) == d0.kids(q)
        || d.kids_text_mixed(d0, q, d.kids(q).len() as int) == d0.kids_text(q, d0.kids(q).len() as int) by {
        assert(d.kids(q) == d0.kids(q));
    }
}

/// Swapping a child for a node that already read as the same text changes
/// the text of no node.
pub proof fn lemma_replace_extends(d0: Dom, d: Dom, p: int, j: int, new: usize, gone: usize)
    requires
        d0.wf(),
        d.wf(),
        d.size() == d0.size(),
        0 <= p < new < d0.size(),
        0 <= j < d0.kids(p).len(),
        d0.kids(p)[j] == gone,
        d.kids(p) == d0.kids(p).update(j, new),
        d0.text_of(new as int) == d0.text_of(gone as int),
        same_but_kids(d.nodes@[p], d0.nodes@[p]),
        same_but_parent(d.nodes@[new as int], d0.nodes@[new as int]),
        same_but_parent(d.nodes@[gone as int], d0.nodes@[gone as int]),
        forall|q: int|
            0 <= q < d0.size() && q != p && q != new && q != gone ==> d.nodes@[q] == d0.nodes@[q],
    ensures
        d.extends(d0),
        forall|q: int| 0 <= q < d0.size() ==> #[trigger] d.text_of(q) == d0.text_of(q),
{
    assert forall|q: int| 0 <= q < d0.size() implies (#[trigger] d.nodes@[q]).kind
        == d0.nodes@[q].kind && d.nodes@[q].text@ == d0.nodes@[q].text@ by {}
    assert forall|q: int| 0 <= q < d0.size() implies #[trigger] d.kids(q) == d0.kids(q)
        || d.kids_text_mixed(d0, q, d.kids(q).len() as int) == d0.kids_text(
        q,
        d0.kids(q).len() as int,
    ) by {
        if q == p {
            lemma_mixed_subst(d0, d, p, j, new, d0.kids(p).len() as int);
        } else if q != new && q != gone {
            assert(d.nodes@[q] == d0.nodes@[q]);
        }
    }
    lemma_extends_all(d0, d);
}

/// `d` has the nodes of `d0`, with the same kinds, texts and links; only
/// attributes may differ.
pub open spec fn links_kept(d0: Dom, d: Dom) -> bool {
    &&& d.size() == d0.size()
    &&& forall|q: int|
        0 <= q < d0.size() ==> #[trigger] d.kids(q) == d0.kids(q) && d.parent_of(q) == d0.parent_of(q)
            && d.is_text(q) == d0.is_text(q) && d.nodes@[q].text@ == d0.nodes@[q].text@
}

/// The parts of a node other than its children are unchanged.
pub open spec fn same_but_kids(a: DomNode, b: DomNode) -> bool {
    a.kind == b.kind && a.text@ == b.text@ && a.attrs == b.attrs && a.parent == b.parent
}

/// The parts of a node other than its parent are unchanged.
pub open spec fn same_but_parent(a: DomNode, b: DomNode) -> bool {
    a.kind == b.kind && a.text@ == b.text@ && a.attrs == b.attrs && a.children@ == b.children@
}

impl Dom {
    /// A document with an empty document element.
    pub fn new() -> (r: Dom)
        ensures
            r.wf(),
            r.size() == 1,
            !r.is_text(0),
            r.kids(0).len() == 0,
            r.parent_of(0) is None,
    {
        let root = DomNode {
            kind: NodeKind::Element,
            tag: "html".to_owned(),
            text: Vec::new(),
            attrs: Attrs::new(),
            children: Vec::new(),
            parent: None,
        };
        let mut nodes: Vec<DomNode> = Vec::new();
        nodes.push(root);
        Dom { nodes }
    }

    /// The number of nodes in the arena, attached or not.
    pub fn node_count(&self) -> (r: usize)
        ensures
            r == self.size(),
    {
        self.nodes.len()
    }

    fn push_node(&mut self, n: DomNode) -> (r: usize)
        requires
            old(self).wf(),
            n.children@.len() == 0,
            n.parent is None,
        ensures
            r == old(self).size(),
            final(self).nodes@ == old(self).nodes@.push(n),
            final(self).wf(),
            final(self).extends(*old(self)),
    {
        let r = self.nodes.len();
        let ghost d0 = *self;
        self.nodes.push(n);
        proof {
            let d = *self;
            assert(d.nodes@ == d0.nodes@.push(n));
            assert forall|q: int| 0 <= q < d0.size() implies #[trigger] d.nodes@[q] == d0.nodes@[q] by {}
            assert forall|i: int, j: int|
                0 <= i < d.size() && 0 <= j < d.kids(i).len() implies i < #[trigger] d.kids(i)[j]
                < d.size() && d.parent_of(d.kids(i)[j] as int) == Some(i as usize) by {
                assert(i < r);
                assert(d.nodes@[i] == d0.nodes@[i]);
                let c = d0.kids(i)[j] as int;
                assert(d.nodes@[c] == d0.nodes@[c]);
            }
            assert forall|i: int|
                d.valid(i) && (#[trigger] d.parent_of(i)) is Some implies d.parent_of(i)->0 < i
                && d.kids(d.parent_of(i)->0 as int).contains(i as usize) by {
                assert(i < r);
                assert(d.nodes@[i] == d0.nodes@[i]);
                assert(d0.parent_of(i) is Some);
                let p = d.parent_of(i)->0 as int;
                assert(d.nodes@[p] == d0.nodes@[p]);
            }
            assert forall|i: int, j1: int, j2: int|
                0 <= i < d.size() && 0 <= j1 < d.kids(i).len() && 0 <= j2 < d.kids(i).len()
                    && #[trigger] d.kids(i)[j1] == #[trigger] d.kids(i)[j2] implies j1 == j2 by {
                assert(d.nodes@[i] == d0.nodes@[i]);
                assert(d0.kids(i)[j1] == d0.kids(i)[j2]);
            }
            assert forall|i: int| d.valid(i) && #[trigger] d.is_text(i) implies d.kids(i).len() == 0 by {
                if i < r {
                    assert(d.nodes@[i] == d0.nodes@[i]);
                    assert(d0.is_text(i));
                }
            }
        }
        r
    }

    /// A new element with tag `tag`, attached nowhere.
    pub fn create_element(&mut self, tag: &str) -> (r: usize)
        requires
            old(self).wf(),
        ensures
            r == old(self).size(),
            final(self).size() == old(self).size() + 1,
            forall|q: int| 0 <= q < old(self).size() ==> final(self).nodes@[q] == old(self).nodes@[q],
            !final(self).is_text(r as int),
            final(self).kids(r as int).len() == 0,
            final(self).parent_of(r as int) is None,
            forall|n: AttrName| final(self).attr(r as int, n) is None,
            final(self).wf(),
            final(self).extends(*old(self)),
            final(self).text_of(r as int) == Seq::<char>::empty(),
    {
        let n = DomNode {
            kind: NodeKind::Element,
            tag: tag.to_owned(),
            text: Vec::new(),
            attrs: Attrs::new(),
            children: Vec::new(),
            parent: None,
        };
        let r = self.push_node(n);
        assert(self.kids_text(r as int, 0) == Seq::<char>::empty());
        r
    }

    /// A new text node holding `text`, attached nowhere.
    pub fn create_text(&mut self, text: Vec<char>) -> (r: usize)
        requires
            old(self).wf(),
        ensures
            r == old(self).size(),
            final(self).size() == old(self).size() + 1,
            forall|q: int| 0 <= q < old(self).size() ==> final(self).nodes@[q] == old(self).nodes@[q],
            final(self).is_text(r as int),
            final(self).kids(r as int).len() == 0,
            final(self).parent_of(r as int) is None,
            forall|n: AttrName| final(self).attr(r as int, n) is None,
            final(self).wf(),
            final(self).extends(*old(self)),
            final(self).text_of(r as int) == text@,
    {
        let ghost t = text@;
        let n = DomNode {
            kind: NodeKind::Text,
            tag: String::new(),
            text,
            attrs: Attrs::new(),
            children: Vec::new(),
            parent: None,
        };
        self.push_node(n)
    }

    /// Attaches the detached node `child` as the last child of `parent`.
    pub fn append_child(&mut self, parent: usize, child: usize)
        requires
            old(self).wf(),
            parent < child < old(self).size(),
            !old(self).is_text(parent as int),
            old(self).parent_of(child as int) is None,
        ensures
            final(self).size() == old(self).size(),
            final(self).kids(parent as int) == old(self).kids(parent as int).push(child),
            same_but_kids(final(self).nodes@[parent as int], old(self).nodes@[parent as int]),
            final(self).parent_of(child as int) == Some(parent),
            same_but_parent(final(self).nodes@[child as int], old(self).nodes@[child as int]),
            forall|q: int|
                0 <= q < old(self).size() && q != parent && q != child ==> final(self).nodes@[q]
                    == old(self).nodes@[q],
            final(self).wf(),
    {
        let ghost d0 = *self;
        assert(!d0.kids(parent as int).contains(child)) by {
            if d0.kids(parent as int).contains(child) {
                let j = choose|j: int| 0 <= j < d0.kids(parent as int).len() && d0.kids(parent as int)[j] == child;
                assert(d0.parent_of(d0.kids(parent as int)[j] as int) == Some(parent));
            }
        }
        self.nodes[parent].children.push(child);
        self.nodes[child].parent = Some(parent);
        proof {
            let d = *self;
            assert forall|i: int, j: int|
                0 <= i < d.size() && 0 <= j < d.kids(i).len() implies i < #[trigger] d.kids(i)[j]
                < d.size() && d.parent_of(d.kids(i)[j] as int) == Some(i as usize) by {
                if i == parent {
                    if j < d0.kids(i).len() {
                        assert(d.kids(i)[j] == d0.kids(i)[j]);
                        let c = d0.kids(i)[j] as int;
                        assert(d0.parent_of(c) == Some(i as usize));
                        assert(c != child);
                        assert(d.nodes@[c] == d0.nodes@[c]);
                    }
                } else {
                    assert(d.nodes@[i] == d0.nodes@[i] || i == child);
                    assert(d.kids(i) == d0.kids(i));
                    let c = d0.kids(i)[j] as int;
                    assert(d0.parent_of(c) == Some(i as usize));
                    assert(c != child);
                    if c != parent {
                        assert(d.nodes@[c] == d0.nodes@[c]);
                    }
                    assert(d.parent_of(c) == d0.parent_of(c));
                }
            }
            assert forall|i: int|
                d.valid(i) && (#[trigger] d.parent_of(i)) is Some implies d.parent_of(i)->0 < i
                && d.kids(d.parent_of(i)->0 as int).contains(i as usize) by {
                if i != child {
                    if i != parent {
                        assert(d.nodes@[i] == d0.nodes@[i]);
                    }
                    assert(d.parent_of(i) == d0.parent_of(i));
                    assert(d0.parent_of(i) is Some);
                    let p = d.parent_of(i)->0 as int;
                    assert(d0.kids(p).contains(i as usize));
                    if p != parent && p != child {
                        assert(d.nodes@[p] == d0.nodes@[p]);
                    }
                    if p == parent {
                        let j = choose|j: int| 0 <= j < d0.kids(p).len() && d0.kids(p)[j] == i as usize;
                        assert(d.kids(p)[j] == i as usize);
                    }
                } else {
                    assert(d.kids(parent as int)[d0.kids(parent as int).len() as int] == child);
                }
            }
            assert forall|i: int, j1: int, j2: int|
                0 <= i < d.size() && 0 <= j1 < d.kids(i).len() && 0 <= j2 < d.kids(i).len()
                    && #[trigger] d.kids(i)[j1] == #[trigger] d.kids(i)[j2] implies j1 == j2 by {
                if i == parent {
                    let n0 = d0.kids(i).len() as int;
                    if j1 < n0 && j2 < n0 {
                        assert(d0.kids(i)[j1] == d0.kids(i)[j2]);
                    } else if j1 < n0 {
                        assert(d0.kids(i)[j1] == child);
                    } else if j2 < n0 {
                        assert(d0.kids(i)[j2] == child);
                    }
                } else {
                    assert(d.kids(i) == d0.kids(i));
                }
            }
            assert forall|i: int| d.valid(i) && #[trigger] d.is_text(i) implies d.kids(i).len() == 0 by {
                assert(d0.is_text(i));
            }
        }
    }

    /// Attaches the detached node `child` as child number `at` of `parent`.
    pub fn insert_child(&mut self, parent: usize, at: usize, child: usize)
        requires
            old(self).wf(),
            parent < child < old(self).size(),
            at <= old(self).kids(parent as int).len(),
            !old(self).is_text(parent as int),
            old(self).parent_of(child as int) is None,
        ensures
            final(self).size() == old(self).size(),
            final(self).kids(parent as int) == old(self).kids(parent as int).insert(at as int, child),
            same_but_kids(final(self).nodes@[parent as int], old(self).nodes@[parent as int]),
            final(self).parent_of(child as int) == Some(parent),
            same_but_parent(final(self).nodes@[child as int], old(self).nodes@[child as int]),
            forall|q: int|
                0 <= q < old(self).size() && q != parent && q != child ==> final(self).nodes@[q]
                    == old(self).nodes@[q],
            final(self).wf(),
    {
        let ghost d0 = *self;
        let ghost k0 = d0.kids(parent as int);
        assert(!k0.contains(child)) by {
            if k0.contains(child) {
                let j = choose|j: int| 0 <= j < k0.len() && k0[j] == child;
                assert(d0.parent_of(k0[j] as int) == Some(parent));
            }
        }
        self.nodes[parent].children.insert(at, child);
        self.nodes[child].parent = Some(parent);
        proof {
            let d = *self;
            let k1 = d.kids(parent as int);
            assert(k1 == k0.insert(at as int, child));
            assert forall|j: int| 0 <= j < k1.len() implies #[trigger] k1[j] == if j < at {
                k0[j]
            } else if j == at {
                child
            } else {
                k0[j - 1]
            } by {}
            assert forall|i: int, j: int|
                0 <= i < d.size() && 0 <= j < d.kids(i).len() implies i < #[trigger] d.kids(i)[j]
                < d.size() && d.parent_of(d.kids(i)[j] as int) == Some(i as usize) by {
                if i == parent {
                    if j != at {
                        let c = if j < at { k0[j] } else { k0[j - 1] } as int;
                        assert(d0.parent_of(c) == Some(i as usize));
                        assert(c != child);
                        if c != parent {
                            assert(d.nodes@[c] == d0.nodes@[c]);
                        }
                    }
                } else {
                    assert(d.kids(i) == d0.kids(i)) by {
                        if i != child {
                            assert(d.nodes@[i] == d0.nodes@[i]);
                        }
                    }
                    let c = d0.kids(i)[j] as int;
                    assert(d0.parent_of(c) == Some(i as usize));
                    assert(c != child);
                    if c != parent {
                        assert(d.nodes@[c] == d0.nodes@[c]);
                    }
                    assert(d.parent_of(c) == d0.parent_of(c));
                }
            }
            assert forall|i: int|
                d.valid(i) && (#[trigger] d.parent_of(i)) is Some implies d.parent_of(i)->0 < i
                && d.kids(d.parent_of(i)->0 as int).contains(i as usize) by {
                if i != child {
                    if i != parent {
                        assert(d.nodes@[i] == d0.nodes@[i]);
                    }
                    assert(d.parent_of(i) == d0.parent_of(i));
                    assert(d0.parent_of(i) is Some);
                    let p = d.parent_of(i)->0 as int;
                    assert(d0.kids(p).contains(i as usize));
                    if p == parent {
                        let j = choose|j: int| 0 <= j < k0.len() && k0[j] == i as usize;
                        if j < at {
                            assert(k1[j] == i as usize);
                        } else {
                            assert(k1[j + 1] == i as usize);
                        }
                    } else if p != child {
                        assert(d.nodes@[p] == d0.nodes@[p]);
                    }
                } else {
                    assert(k1[at as int] == child);
                }
            }
            assert forall|i: int, j1: int, j2: int|
                0 <= i < d.size() && 0 <= j1 < d.kids(i).len() && 0 <= j2 < d.kids(i).len()
                    && #[trigger] d.kids(i)[j1] == #[trigger] d.kids(i)[j2] implies j1 == j2 by {
                if i == parent {
                    let o1 = if j1 < at { j1 } else { j1 - 1 };
                    let o2 = if j2 < at { j2 } else { j2 - 1 };
                    if j1 != at && j2 != at {
                        assert(k0[o1] == k0[o2]);
                    } else if j1 == at && j2 != at {
                        assert(k0[o2] == child);
                    } else if j2 == at && j1 != at {
                        assert(k0[o1] == child);
                    }
                } else {
                    assert(d.kids(i) == d0.kids(i)) by {
                        if i != child {
                            assert(d.nodes@[i] == d0.nodes@[i]);
                        }
                    }
                }
            }
            assert forall|i: int| d.valid(i) && #[trigger] d.is_text(i) implies d.kids(i).len() == 0 by {
                assert(d0.is_text(i));
                assert(i != parent);
                if i != child {
                    assert(d.nodes@[i] == d0.nodes@[i]);
                }
            }
        }
    }

    /// Puts the detached node `new` in the place of `gone` among `p`'s children;
    /// `gone` is left detached. Returns the position of the swap.
    pub fn replace_child(&mut self, p: usize, new: usize, gone: usize) -> (j: usize)
        requires
            old(self).wf(),
            p < new < old(self).size(),
            gone < old(self).size(),
            old(self).parent_of(gone as int) == Some(p),
            old(self).parent_of(new as int) is None,
        ensures
            final(self).size() == old(self).size(),
            j < old(self).kids(p as int).len(),
            old(self).kids(p as int)[j as int] == gone,
            final(self).kids(p as int) == old(self).kids(p as int).update(j as int, new),
            same_but_kids(final(self).nodes@[p as int], old(self).nodes@[p as int]),
            final(self).parent_of(new as int) == Some(p),
            same_but_parent(final(self).nodes@[new as int], old(self).nodes@[new as int]),
            final(self).parent_of(gone as int) is None,
            same_but_parent(final(self).nodes@[gone as int], old(self).nodes@[gone as int]),
            forall|q: int|
                0 <= q < old(self).size() && q != p && q != new && q != gone ==> final(self).nodes@[q]
                    == old(self).nodes@[q],
            final(self).wf(),
    {
        let ghost d0 = *self;
        let total = self.nodes.len();
        assert(d0.kids(p as int).contains(gone));
        let n = self.nodes[p].children.len();
        let mut j: usize = 0;
        while j < n && self.nodes[p].children[j] != gone
            invariant
                *self == d0,
                d0.wf(),
                p < d0.size(),
                n == d0.kids(p as int).len(),
                d0.kids(p as int).contains(gone),
                0 <= j <= n,
                forall|i: int| 0 <= i < j ==> d0.kids(p as int)[i] != gone,
            decreases n - j,
        {
            j = j + 1;
        }
        assert(j < n && d0.kids(p as int)[j as int] == gone) by {
            let w = choose|w: int| 0 <= w < d0.kids(p as int).len() && d0.kids(p as int)[w] == gone;
            assert(w >= j);
        }
        assert(!d0.kids(p as int).contains(new)) by {
            if d0.kids(p as int).contains(new) {
                let w = choose|w: int| 0 <= w < d0.kids(p as int).len() && d0.kids(p as int)[w] == new;
                assert(d0.parent_of(d0.kids(p as int)[w] as int) == Some(p));
            }
        }
        self.nodes[p].children.set(j, new);
        self.nodes[new].parent = Some(p);
        self.nodes[gone].parent = None;
        proof {
            let d = *self;
            assert forall|i: int, k: int|
                0 <= i < d.size() && 0 <= k < d.kids(i).len() implies i < #[trigger] d.kids(i)[k]
                < d.size() && d.parent_of(d.kids(i)[k] as int) == Some(i as usize) by {
                if i == p {
                    if k != j {
                        assert(d.kids(i)[k] == d0.kids(i)[k]);
                        assert(d0.kids(i)[k] != gone);
                    }
                } else {
                    assert(d.kids(i) == d0.kids(i));
                    assert(d0.kids(i)[k] != new);
                    assert(d0.kids(i)[k] != gone);
                }
            }
            assert forall|i: int|
                d.valid(i) && (#[trigger] d.parent_of(i)) is Some implies d.parent_of(i)->0 < i
                && d.kids(d.parent_of(i)->0 as int).contains(i as usize) by {
                if i == new {
                    assert(d.kids(p as int)[j as int] == new);
                } else {
                    assert(i != gone);
                    if i != p {
                        assert(d.nodes@[i] == d0.nodes@[i]);
                    }
                    assert(d.parent_of(i) == d0.parent_of(i));
                    assert(d0.parent_of(i) is Some);
                    let q = d.parent_of(i)->0 as int;
                    assert(d0.kids(q).contains(i as usize));
                    if q == p {
                        let w = choose|w: int| 0 <= w < d0.kids(q).len() && d0.kids(q)[w] == i as usize;
                        assert(d0.kids(p as int)[j as int] == gone);
                        assert(i as usize != gone);
                        assert(d0.kids(q)[w] != gone);
                        assert(w != j);
                        assert(d.kids(q)[w] == i as usize);
                    } else {
                        assert(d.kids(q) == d0.kids(q)) by {
                            if q != new && q != gone {
                                assert(d.nodes@[q] == d0.nodes@[q]);
                            }
                        }
                    }
                }
            }
            assert forall|i: int, j1: int, j2: int|
                0 <= i < d.size() && 0 <= j1 < d.kids(i).len() && 0 <= j2 < d.kids(i).len()
                    && #[trigger] d.kids(i)[j1] == #[trigger] d.kids(i)[j2] implies j1 == j2 by {
                if i == p {
                    if j1 != j && j2 != j {
                        assert(d0.kids(i)[j1] == d0.kids(i)[j2]);
                    } else if j1 == j && j2 != j {
                        assert(d0.kids(i)[j2] == d.kids(i)[j2]);
                    } else if j2 == j && j1 != j {
                        assert(d0.kids(i)[j1] == d.kids(i)[j1]);
                    }
                } else {
                    assert(d.kids(i) == d0.kids(i));
                }
            }
            assert forall|i: int| d.valid(i) && #[trigger] d.is_text(i) implies d.kids(i).len() == 0 by {
                assert(d0.is_text(i));
            }
        }
        j
    }

    /// Sets attribute `n` of node `el` to `v`, or removes it when `v` is `None`.
    pub fn set_attr(&mut self, el: usize, n: AttrName, v: Option<String>)
        requires
            old(self).wf(),
            el < old(self).size(),
        ensures
            final(self).size() == old(self).size(),
            final(self).attr(el as int, n) == crate::attrs::opt_view(v),
            forall|m: AttrName| m != n ==> final(self).attr(el as int, m) == old(self).attr(el as int, m),
            final(self).nodes@[el as int].kind == old(self).nodes@[el as int].kind,
            final(self).nodes@[el as int].text@ == old(self).nodes@[el as int].text@,
            final(self).kids(el as int) == old(self).kids(el as int),
            final(self).parent_of(el as int) == old(self).parent_of(el as int),
            forall|q: int| 0 <= q < old(self).size() && q != el ==> final(self).nodes@[q] == old(self).nodes@[q],
            final(self).wf(),
            final(self).extends(*old(self)),
            links_kept(*old(self), *final(self)),
    {
        let ghost d0 = *self;
        self.nodes[el].attrs.put(n, v);
        proof {
            let d = *self;
            assert forall|q: int| 0 <= q < d.size() implies #[trigger] d.kids(q) == d0.kids(q)
                && d.parent_of(q) == d0.parent_of(q) && d.is_text(q) == d0.is_text(q)
                && d.nodes@[q].text@ == d0.nodes@[q].text@ by {
                if q != el {
                    assert(d.nodes@[q] == d0.nodes@[q]);
                }
            }
            lemma_wf_same_links(d0, d);
        }
    }

    /// The value of attribute `n` of node `el`.
    pub fn get_attr(&self, el: usize, n: AttrName) -> (r: Option<String>)
        requires
            el < self.size(),
        ensures
            crate::attrs::opt_view(r) == self.attr(el as int, n),
    {
        self.nodes[el].attrs.get(n)
    }

    /// Whether node `el` carries attribute `n`.
    pub fn has_attr(&self, el: usize, n: AttrName) -> (r: bool)
        requires
            el < self.size(),
        ensures
            r == self.attr(el as int, n) is Some,
    {
        self.nodes[el].attrs.has(n)
    }

    /// The parent of node `i`, if it is attached.
    pub fn parent_node(&self, i: usize) -> (r: Option<usize>)
        requires
            i < self.size(),
        ensures
            r == self.parent_of(i as int),
    {
        self.nodes[i].parent
    }

    /// Whether node `i` is a text node.
    pub fn is_text_node(&self, i: usize) -> (r: bool)
        requires
            i < self.size(),
        ensures
            r == self.is_text(i as int),
    {
        self.nodes[i].kind == NodeKind::Text
    }

    /// The children of node `i`, in order.
    pub fn child_nodes(&self, i: usize) -> (r: Vec<usize>)
        requires
            i < self.size(),
        ensures
            r@ == self.kids(i as int),
    {
        self.nodes[i].children.clone()
    }

    /// The text content of node `i`.
    pub fn text_content(&self, i: usize) -> (r: Vec<char>)
        requires
            self.wf(),
            i < self.size(),
        ensures
            r@ == self.text_of(i as int),
        decreases self.size() - i,
    {
        if self.nodes[i].kind == NodeKind::Text {
            return self.nodes[i].text.clone();
        }
        let n = self.nodes[i].children.len();
        let mut acc: Vec<char> = Vec::new();
        let mut k: usize = 0;
        while k < n
            invariant
                self.wf(),
                i < self.size(),
                !self.is_text(i as int),
                n == self.kids(i as int).len(),
                k <= n,
                acc@ == self.kids_text(i as int, k as int),
            decreases n - k,
        {
            let c = self.nodes[i].children[k];
            assert(i < c < self.size());
            let t = self.text_content(c);
            let mut t2 = t;
            acc.append(&mut t2);
            k = k + 1;
        }
        acc
    }
}

} // verus!
