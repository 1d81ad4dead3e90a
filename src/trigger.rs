//! Promoted word marks: triggers that carry a stable identifier in the
//! document, an annotation slot and a feedback flag.
use vstd::prelude::*;
use crate::annotation::{Annotation, YaYaError};
use crate::attrs::AttrName;
use crate::chars::{trim_chars, trimmed};
use crate::context::{context_of, word_context};
use crate::dom::{Dom, DomError};
use crate::ident::{id_text, uuid_parsed, uuid_text};
use crate::scan::{tagged_any_up, tagged_up, walk_start, word_owner};
use crate::word::{WordMark, revert_root, restored};
use crate::wrap::kept;

verus! {

/// A promoted word mark.
pub struct WordPermanentTrigger {
    pub id: u128,
    pub start: usize,
    pub end: usize,
    pub word_pos: usize,
    pub root: usize,
    pub mark: usize,
    /// Empty elements just inside the highlight, before and after the word.
    pub anchors: (usize, usize),
    pub annotation: Option<Result<Annotation, YaYaError>>,
    pub feedback: bool,
}

impl WordPermanentTrigger {
    /// The trigger stands in `d`: its highlight holds an empty anchor, the
    /// word's text node and another empty anchor, and carries the trigger
    /// attribute whose text reads back as the identifier.
    pub open spec fn inv(&self, d: Dom) -> bool {
        let m = self.mark as int;
        let k = d.kids(m);
        &&& d.wf()
        &&& 0 <= self.root < self.mark < d.size()
        &&& !d.is_text(m)
        &&& k.len() == 3
        &&& k[0] == self.anchors.0 && k[2] == self.anchors.1
        &&& d.is_text(k[1] as int)
        &&& !d.is_text(k[0] as int) && !d.is_text(k[2] as int)
        &&& d.attr(k[0] as int, AttrName::TriggerWord) is None
        &&& d.attr(k[2] as int, AttrName::TriggerWord) is None
        &&& d.text_of(k[0] as int) == Seq::<char>::empty()
        &&& d.text_of(k[2] as int) == Seq::<char>::empty()
        &&& d.text_of(m).len() > 0
        &&& d.attr(m, AttrName::TriggerWord) is Some
        &&& uuid_parsed(d.attr(m, AttrName::TriggerWord)->0) == Some(self.id)
        &&& d.attr(m, AttrName::PendingWord) is None
    }

    /// Promotes a pending word mark: the highlight drops the pending
    /// attribute, carries the trigger attribute with the identifier's text and
    /// an `id`, and gets an empty anchor element on each side of the word. No
    /// node's text changes.
    pub fn make_permanent(pending: &WordMark, d: &mut Dom, id: u128) -> (r: WordPermanentTrigger)
        requires
            pending.inv(*old(d)),
        ensures
            r.inv(*final(d)),
            r.id == id,
            r.start == pending.start && r.end == pending.end && r.word_pos == pending.word_pos,
            r.root == pending.root && r.mark == pending.mark,
            r.annotation is None,
            !r.feedback,
            final(d).attr(r.mark as int, AttrName::TriggerWord) == Some(uuid_text(id)),
            final(d).kids(r.mark as int)[1] == old(d).kids(r.mark as int)[0],
            final(d).text_of(r.mark as int) == old(d).text_of(pending.mark as int),
            final(d).parent_of(r.root as int) == old(d).parent_of(pending.root as int),
            forall|q: int| 0 <= q < old(d).size() ==> #[trigger] final(d).text_of(q) == old(d).text_of(q),
    {
        let mark = pending.mark;
        let ghost d0 = *d;
        let idt = id_text(id);
        let label = "mark-".to_owned().concat(idt.as_str());
        d.set_attr(mark, AttrName::PendingWord, None);
        let ghost da = *d;
        d.set_attr(mark, AttrName::TriggerWord, Some(idt));
        let ghost db = *d;
        d.set_attr(mark, AttrName::Id, Some(label));
        let ghost d1 = *d;
        proof {
            crate::dom::lemma_extends_all(d0, da);
            crate::dom::lemma_extends_all(da, db);
            crate::dom::lemma_extends_all(db, d1);
        }
        let a1 = d.create_element("span");
        assert(d.attr(a1 as int, AttrName::TriggerWord) is None);
        d.set_attr(a1, AttrName::Class, Some("ya-ya-anchor".to_owned()));
        let a2 = d.create_element("span");
        assert(d.attr(a2 as int, AttrName::TriggerWord) is None);
        assert(d.attr(a1 as int, AttrName::TriggerWord) is None);
        d.set_attr(a2, AttrName::Class, Some("ya-ya-anchor".to_owned()));
        let ghost d2 = *d;
        assert(d2.attr(a1 as int, AttrName::TriggerWord) is None && !d2.is_text(a1 as int));
        assert(d2.attr(a2 as int, AttrName::TriggerWord) is None && !d2.is_text(a2 as int));
        d.insert_child(mark, 0, a1);
        d.insert_child(mark, 2, a2);
        proof {
            let df = *d;
            let wt = d1.kids(mark as int)[0];
            assert(d2.kids(mark as int) == d1.kids(mark as int)) by {
                assert(crate::wrap::kept(d2, d1, mark as int));
            }
            assert(df.kids(mark as int) =~= seq![a1, wt, a2]);
            assert(mark < wt);
            assert forall|q: int| 0 <= q < d1.size() && q != mark implies #[trigger] df.nodes@[q] == d1.nodes@[q] by {
                assert(d2.nodes@[q] == d1.nodes@[q]);
            }
            assert(df.kids(a1 as int).len() == 0);
            assert(df.kids(a2 as int).len() == 0);
            assert(df.text_of(a1 as int) == Seq::<char>::empty()) by {
                assert(df.kids_text(a1 as int, 0) == Seq::<char>::empty());
            }
            assert(df.text_of(a2 as int) == Seq::<char>::empty()) by {
                assert(df.kids_text(a2 as int, 0) == Seq::<char>::empty());
            }
            assert(df.kids_text_mixed(d1, mark as int, 3) == d1.kids_text(mark as int, 1)) by {
                assert(d1.kids_text(mark as int, 0) == Seq::<char>::empty());
                assert(df.kids_text_mixed(d1, mark as int, 0) == Seq::<char>::empty());
                assert(df.kids_text_mixed(d1, mark as int, 1) == Seq::<char>::empty());
                assert(df.kids_text_mixed(d1, mark as int, 2) == d1.text_of(wt as int));
                assert(d1.text_of(wt as int) + Seq::<char>::empty() =~= d1.text_of(wt as int));
            }
            assert forall|q: int| 0 <= q < d1.size() implies (#[trigger] df.nodes@[q]).kind
                == d1.nodes@[q].kind && df.nodes@[q].text@ == d1.nodes@[q].text@ by {}
            assert forall|q: int| 0 <= q < d1.size() implies #[trigger] df.kids(q) == d1.kids(q)
                || df.kids_text_mixed(d1, q, df.kids(q).len() as int) == d1.kids_text(
                q,
                d1.kids(q).len() as int,
            ) by {}
            assert(df.extends(d1));
            crate::dom::lemma_extends_all(d1, df);
            assert(df.attr(mark as int, AttrName::TriggerWord) == db.attr(mark as int, AttrName::TriggerWord));
        }
        WordPermanentTrigger {
            id,
            start: pending.start,
            end: pending.end,
            word_pos: pending.word_pos,
            root: pending.root,
            mark,
            anchors: (a1, a2),
            annotation: None,
            feedback: false,
        }
    }

    /// Restores the text as a pending mark's revert does.
    pub fn unmount(&self, d: &mut Dom) -> (r: Result<(), DomError>)
        requires
            old(d).wf(),
        ensures
            final(d).wf(),
            r is Err <==> !(self.root < old(d).size()) || old(d).parent_of(self.root as int) is None,
            r is Err ==> *final(d) == *old(d),
            r is Ok ==> restored(*old(d), *final(d), self.root),
    {
        if self.root >= d.node_count() {
            return Err(DomError::Missing);
        }
        revert_root(d, self.root)
    }

    /// The identifier of the word trigger that owns `node`, read from the
    /// document alone (see `word_owner`).
    pub fn id(d: &Dom, node: usize) -> (r: Option<u128>)
        requires
            d.wf(),
        ensures
            r == word_owner(*d, node as int),
    {
        crate::scan::word_trigger_id(d, node)
    }

    /// The marked word: the highlight's text content without surrounding whitespace.
    pub fn word(&self, d: &Dom) -> (r: String)
        requires
            d.wf(),
        ensures
            self.mark < d.size() ==> r@ == trimmed(d.text_of(self.mark as int)),
            !(self.mark < d.size()) ==> r@ == Seq::<char>::empty(),
    {
        if self.mark >= d.node_count() {
            return String::new();
        }
        let t = d.text_content(self.mark);
        let w = trim_chars(&t);
        crate::chars::string_of(w.as_slice())
    }

    /// The context sent with the word: a window of words around it, from the
    /// nearest enclosing element whose text holds it (see `word_context`).
    pub fn context(&self, d: &Dom) -> (r: String)
        requires
            d.wf(),
        ensures
            self.root < d.size() && self.mark < d.size() ==> r@ == word_context(
                *d,
                self.root as int,
                trimmed(d.text_of(self.mark as int)),
            ),
            !(self.root < d.size() && self.mark < d.size()) ==> r@ == Seq::<char>::empty(),
    {
        if self.root >= d.node_count() || self.mark >= d.node_count() {
            return String::new();
        }
        let t = d.text_content(self.mark);
        let w = trim_chars(&t);
        let c = context_of(d, self.root, &w);
        crate::chars::string_of(c.as_slice())
    }
}

/// After promotion, the trigger's identifier is recovered from the document
/// alone, starting at the highlight element or at any node inside it: the
/// two anchors and the word's text node.
pub proof fn lemma_lookup_finds_trigger(d: Dom, t: WordPermanentTrigger)
    requires
        t.inv(d),
    ensures
        word_owner(d, t.mark as int) == Some(t.id),
        word_owner(d, d.kids(t.mark as int)[0] as int) == Some(t.id),
        word_owner(d, d.kids(t.mark as int)[1] as int) == Some(t.id),
        word_owner(d, d.kids(t.mark as int)[2] as int) == Some(t.id),
{
    let m = t.mark as int;
    let k = d.kids(m);
    assert(m < k[0] < d.size());
    assert(m < k[1] < d.size());
    assert(m < k[2] < d.size());
    assert(d.parent_of(k[0] as int) == Some(t.mark));
    assert(d.parent_of(k[1] as int) == Some(t.mark));
    assert(d.parent_of(k[2] as int) == Some(t.mark));
    assert(walk_start(d, k[1] as int) == Some(m));
    assert(walk_start(d, k[0] as int) == Some(k[0] as int));
    assert(walk_start(d, k[2] as int) == Some(k[2] as int));
    assert(tagged_up(d, k[0] as int, d.text_of(k[0] as int), AttrName::TriggerWord) == tagged_up(
        d,
        m,
        d.text_of(k[0] as int),
        AttrName::TriggerWord,
    ));
    assert(tagged_up(d, k[2] as int, d.text_of(k[2] as int), AttrName::TriggerWord) == tagged_up(
        d,
        m,
        d.text_of(k[2] as int),
        AttrName::TriggerWord,
    ));
}

/// A node elsewhere in the document, one with no word trigger attribute on
/// itself or any ancestor, is owned by no trigger.
pub proof fn lemma_lookup_none_outside(d: Dom, node: int)
    requires
        d.wf(),
        match walk_start(d, node) {
            Some(e) => tagged_any_up(d, e, AttrName::TriggerWord) is None,
            None => true,
        },
    ensures
        word_owner(d, node) is None,
{
    match walk_start(d, node) {
        Some(e) => {
            lemma_tagged_up_none(d, e, d.text_of(node));
        },
        None => {},
    }
}

proof fn lemma_tagged_up_none(d: Dom, e: int, s: Seq<char>)
    requires
        tagged_any_up(d, e, AttrName::TriggerWord) is None,
    ensures
        tagged_up(d, e, s, AttrName::TriggerWord) is None,
    decreases e,
{
    if d.valid(e) && d.attr(e, AttrName::TriggerWord) is None {
        match d.parent_of(e) {
            Some(p) => if 0 <= p < e {
                lemma_tagged_up_none(d, p as int, s);
            },
            None => {},
        }
    }
}

proof fn lemma_any_up_frame(d0: Dom, d: Dom, e: int, root: int)
    requires
        d0.wf(),
        0 <= e < d0.size() < d.size(),
        e < root,
        forall|q: int| 0 <= q < e ==> #[trigger] d.nodes@[q] == d0.nodes@[q],
        d.attr(e, AttrName::TriggerWord) == d0.attr(e, AttrName::TriggerWord),
        d.parent_of(e) == d0.parent_of(e),
    ensures
        tagged_any_up(d, e, AttrName::TriggerWord) == tagged_any_up(d0, e, AttrName::TriggerWord),
    decreases e,
{
    if d0.attr(e, AttrName::TriggerWord) is None {
        match d0.parent_of(e) {
            Some(p) => {
                assert(p < e);
                lemma_any_up_frame(d0, d, p as int, root);
            },
            None => {},
        }
    }
}

/// Reverting a word trigger that lies under no other word trigger leaves a
/// text node whose lookup finds no trigger.
pub proof fn lemma_revert_forgets_trigger(d0: Dom, d: Dom, t: WordPermanentTrigger)
    requires
        d0.wf(),
        d.wf(),
        t.root < d0.size() < usize::MAX,
        d0.parent_of(t.root as int) is Some,
        tagged_any_up(d0, d0.parent_of(t.root as int)->0 as int, AttrName::TriggerWord) is None,
        restored(d0, d, t.root),
    ensures
        word_owner(d, d0.size()) is None,
{
    let p = d0.parent_of(t.root as int)->0 as int;
    let n = d0.size();
    assert(p < t.root);
    assert forall|q: int| 0 <= q < p implies #[trigger] d.nodes@[q] == d0.nodes@[q] by {
        assert(kept(d, d0, q));
    }
    lemma_any_up_frame(d0, d, p, t.root as int);
    assert(walk_start(d, n) == Some(p));
    lemma_lookup_none_outside(d, n);
}

} // verus!
