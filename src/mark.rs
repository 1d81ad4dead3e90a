//! The pending mark and the trigger, over their variants.
use vstd::prelude::*;
use crate::annotation::{copy_slot, slot_view, Annotation, YaYaError};
use crate::chars::trimmed;
use crate::context::word_context;
use crate::dom::{links_kept, Dom, DomError};
use crate::text_mark::{joined_texts, TextMark, TextPermanentTrigger};
use crate::trigger::WordPermanentTrigger;
use crate::word::{dwell_done, restored, same_word, tick_time, WordMark};

verus! {

/// A mark still subject to revert.
pub enum PendingMark {
    Word(WordMark),
    Text(TextMark),
}

/// A promoted mark.
pub enum PermanentTrigger {
    Word(WordPermanentTrigger),
    Text(TextPermanentTrigger),
}

/// Every old node of `d0` reads in `d` as it did.
pub open spec fn text_kept(d0: Dom, d: Dom) -> bool {
    forall|q: int| 0 <= q < d0.size() ==> #[trigger] d.text_of(q) == d0.text_of(q)
}

impl PendingMark {
    pub open spec fn inv(&self, d: Dom) -> bool {
        match self {
            PendingMark::Word(w) => w.inv(d),
            PendingMark::Text(t) => t.inv(d),
        }
    }

    pub open spec fn time(&self) -> u64 {
        match self {
            PendingMark::Word(w) => w.time,
            PendingMark::Text(t) => t.time,
        }
    }

    /// The caret at `pos` over `node` still rests on this mark; a text mark
    /// never counts as under the caret.
    pub open spec fn spec_same(&self, d: Dom, node: int, pos: int) -> bool {
        match self {
            PendingMark::Word(w) => same_word(d, *w, node, pos),
            PendingMark::Text(_) => false,
        }
    }

    /// The same mark: the same wrapper, highlights and span; the dwell time
    /// may differ.
    pub open spec fn same_mark(&self, o: PendingMark) -> bool {
        match (self, o) {
            (PendingMark::Word(a), PendingMark::Word(b)) => a.root == b.root && a.mark == b.mark
                && a.start == b.start && a.end == b.end && a.word_pos == b.word_pos,
            (PendingMark::Text(a), PendingMark::Text(b)) => a.root == b.root && a.marks@ == b.marks@
                && a.wrappers@ == b.wrappers@ && a.start == b.start && a.end == b.end && a.start_el
                == b.start_el && a.end_el == b.end_el,
            _ => false,
        }
    }

    /// After an unmount of this mark from `d0` that could succeed, `d` is
    /// `d0` with the mark reverted.
    pub open spec fn reverted(&self, d0: Dom, d: Dom) -> bool {
        match self {
            PendingMark::Word(w) => w.root < d0.size() && d0.parent_of(w.root as int) is Some ==> restored(
                d0,
                d,
                w.root,
            ),
            PendingMark::Text(t) => t.inv(d0) && crate::text_mark::all_attached(d0, t.wrappers@)
                ==> crate::text_mark::all_restored(d0, d, t.wrappers@),
        }
    }

    /// Whether the mark still stands in `d`.
    pub fn holds_in(&self, d: &Dom) -> (r: bool)
        requires
            d.wf(),
        ensures
            r == self.inv(*d),
    {
        match self {
            PendingMark::Word(w) => w.holds_in(d),
            PendingMark::Text(t) => t.holds_in(d),
        }
    }

    /// Reverts the mark's change to the document. Fails, changing nothing,
    /// where the mark no longer stands as mounted or is attached nowhere.
    pub fn unmount(&self, d: &mut Dom) -> (r: Result<(), DomError>)
        requires
            old(d).wf(),
        ensures
            final(d).wf(),
            r is Err ==> *final(d) == *old(d),
            r is Ok ==> text_kept(*old(d), *final(d)),
            old(d).size() <= final(d).size(),
            self matches PendingMark::Word(w) ==> (r is Ok <==> w.root < old(d).size() && old(d).parent_of(
                w.root as int,
            ) is Some) && (r is Ok ==> restored(*old(d), *final(d), w.root)),
            self matches PendingMark::Text(t) ==> (r is Ok <==> t.inv(*old(d)) && crate::text_mark::all_attached(
                *old(d),
                t.wrappers@,
            )) && (r is Ok ==> crate::text_mark::all_restored(*old(d), *final(d), t.wrappers@)),
    {
        match self {
            PendingMark::Word(w) => {
                if w.root >= d.node_count() {
                    return Err(DomError::Missing);
                }
                w.unmount(d)
            },
            PendingMark::Text(t) => {
                if !t.holds_in(d) {
                    return Err(DomError::Missing);
                }
                t.unmount(d)
            },
        }
    }

    /// Advances the dwell timer; returns whether the dwell is complete.
    pub fn tick_timer(&mut self, d: &mut Dom, delta: u64) -> (r: bool)
        requires
            old(self).inv(*old(d)),
        ensures
            final(self).time() == tick_time(old(self).time(), delta),
            r == dwell_done(final(self).time()),
            final(self).inv(*final(d)),
            final(self).same_mark(*old(self)),
            links_kept(*old(d), *final(d)),
            final(d).size() == old(d).size(),
            forall|q: int| 0 <= q < old(d).size() ==> #[trigger] final(d).text_of(q) == old(d).text_of(q),
    {
        match self {
            PendingMark::Word(w) => w.tick_timer(d, delta),
            PendingMark::Text(t) => t.tick_timer(d, delta),
        }
    }

    /// Promotes the mark under identifier `id`.
    pub fn make_permanent(&self, d: &mut Dom, id: u128) -> (r: PermanentTrigger)
        requires
            self.inv(*old(d)),
        ensures
            final(d).wf(),
            r.id() == id,
            slot_view(r.slot()) is None,
            !r.skip(),
            r.inv(*final(d)),
            r.promotes(*self),
            forall|q: int| 0 <= q < old(d).size() ==> #[trigger] final(d).text_of(q) == old(d).text_of(q),
            self matches PendingMark::Text(_) ==> links_kept(*old(d), *final(d)),
    {
        match self {
            PendingMark::Word(w) => PermanentTrigger::Word(WordPermanentTrigger::make_permanent(w, d, id)),
            PendingMark::Text(t) => PermanentTrigger::Text(t.make_permanent(d, id)),
        }
    }

    /// Whether the caret at `pos` over `node` still rests on this mark.
    pub fn is_same(&self, d: &Dom, node: usize, pos: usize) -> (r: bool)
        requires
            self.inv(*d),
        ensures
            r == self.spec_same(*d, node as int, pos as int),
    {
        match self {
            PendingMark::Word(w) => w.is_same(d, node, pos),
            PendingMark::Text(_) => false,
        }
    }
}

impl PermanentTrigger {
    pub open spec fn id(&self) -> u128 {
        match self {
            PermanentTrigger::Word(w) => w.id,
            PermanentTrigger::Text(t) => t.id,
        }
    }

    pub open spec fn slot(&self) -> Option<Result<Annotation, YaYaError>> {
        match self {
            PermanentTrigger::Word(w) => w.annotation,
            PermanentTrigger::Text(t) => t.annotation,
        }
    }

    pub open spec fn skip(&self) -> bool {
        match self {
            PermanentTrigger::Word(w) => w.feedback,
            PermanentTrigger::Text(t) => t.feedback,
        }
    }

    pub open spec fn root(&self) -> usize {
        match self {
            PermanentTrigger::Word(w) => w.root,
            PermanentTrigger::Text(t) => t.root,
        }
    }

    pub open spec fn inv(&self, d: Dom) -> bool {
        match self {
            PermanentTrigger::Word(w) => w.inv(d),
            PermanentTrigger::Text(t) => t.inv(d),
        }
    }

    /// The trigger is the promoted form of `p`: the same wrapper, highlight
    /// and span.
    pub open spec fn promotes(&self, p: PendingMark) -> bool {
        match (self, p) {
            (PermanentTrigger::Word(t), PendingMark::Word(w)) => t.root == w.root && t.mark == w.mark
                && t.start == w.start && t.end == w.end && t.word_pos == w.word_pos,
            (PermanentTrigger::Text(t), PendingMark::Text(m)) => t.root == m.root && t.marks@ == m.marks@
                && t.wrappers@ == m.wrappers@ && t.start == m.start && t.end == m.end && t.start_el
                == m.start_el && t.end_el == m.end_el,
            _ => false,
        }
    }

    /// After an unmount of this trigger from `d0` that could succeed, `d`
    /// is `d0` with the trigger's wrappers reverted.
    pub open spec fn reverted(&self, d0: Dom, d: Dom) -> bool {
        match self {
            PermanentTrigger::Word(w) => w.root < d0.size() && d0.parent_of(w.root as int) is Some
                ==> restored(d0, d, w.root),
            PermanentTrigger::Text(t) => crate::text_mark::wrappers_stand(d0, t.root, t.wrappers@, t.marks@)
                && crate::text_mark::all_attached(d0, t.wrappers@) ==> crate::text_mark::all_restored(
                d0,
                d,
                t.wrappers@,
            ),
        }
    }

    /// The same trigger in the same place of the document; only the
    /// annotation slot and the feedback flag may differ.
    pub open spec fn same_place(&self, o: PermanentTrigger) -> bool {
        match (self, o) {
            (PermanentTrigger::Word(a), PermanentTrigger::Word(b)) => a.id == b.id && a.start == b.start
                && a.end == b.end && a.word_pos == b.word_pos && a.root == b.root && a.mark == b.mark
                && a.anchors == b.anchors,
            (PermanentTrigger::Text(a), PermanentTrigger::Text(b)) => a.id == b.id && a.start == b.start
                && a.end == b.end && a.root == b.root && a.start_el == b.start_el && a.end_el == b.end_el
                && a.marks@ == b.marks@ && a.wrappers@ == b.wrappers@,
            _ => false,
        }
    }

    /// The marked text, without surrounding whitespace.
    pub open spec fn spec_content(&self, d: Dom) -> Seq<char> {
        match self {
            PermanentTrigger::Word(w) => if w.mark < d.size() {
                trimmed(d.text_of(w.mark as int))
            } else {
                Seq::empty()
            },
            PermanentTrigger::Text(t) => if forall|i: int| 0 <= i < t.marks@.len() ==> #[trigger] t.marks@[i] < d.size() {
                joined_texts(d, t.marks@)
            } else {
                Seq::empty()
            },
        }
    }

    /// The context sent with the marked text.
    pub open spec fn spec_context(&self, d: Dom) -> Seq<char> {
        match self {
            PermanentTrigger::Word(w) => if w.root < d.size() && w.mark < d.size() {
                word_context(d, w.root as int, trimmed(d.text_of(w.mark as int)))
            } else {
                Seq::empty()
            },
            PermanentTrigger::Text(t) => if t.root < d.size() {
                d.text_of(t.root as int)
            } else {
                Seq::empty()
            },
        }
    }

    /// Reverts the trigger's change to the document. Fails, changing
    /// nothing, where it no longer stands as promoted or is attached nowhere.
    pub fn unmount(&self, d: &mut Dom) -> (r: Result<(), DomError>)
        requires
            old(d).wf(),
        ensures
            final(d).wf(),
            r is Err ==> *final(d) == *old(d),
            r is Ok ==> text_kept(*old(d), *final(d)),
            self matches PermanentTrigger::Word(w) ==> (r is Ok <==> w.root < old(d).size() && old(d).parent_of(
                w.root as int,
            ) is Some) && (r is Ok ==> restored(*old(d), *final(d), w.root)),
            self matches PermanentTrigger::Text(t) ==> (r is Ok <==> crate::text_mark::wrappers_stand(
                *old(d),
                t.root,
                t.wrappers@,
                t.marks@,
            ) && crate::text_mark::all_attached(*old(d), t.wrappers@)) && (r is Ok
                ==> crate::text_mark::all_restored(*old(d), *final(d), t.wrappers@)),
    {
        match self {
            PermanentTrigger::Word(w) => w.unmount(d),
            PermanentTrigger::Text(t) => t.unmount(d),
        }
    }

    /// The marked text.
    pub fn content(&self, d: &Dom) -> (r: String)
        requires
            d.wf(),
        ensures
            r@ == self.spec_content(*d),
    {
        match self {
            PermanentTrigger::Word(w) => w.word(d),
            PermanentTrigger::Text(t) => {
                if !all_below(&t.marks, d.node_count()) {
                    return String::new();
                }
                t.text(d)
            },
        }
    }

    /// The context sent with the marked text.
    pub fn context(&self, d: &Dom) -> (r: String)
        requires
            d.wf(),
        ensures
            r@ == self.spec_context(*d),
    {
        match self {
            PermanentTrigger::Word(w) => w.context(d),
            PermanentTrigger::Text(t) => t.context(d),
        }
    }

    /// Stores an annotation result, or clears the slot.
    pub fn annotate(&mut self, value: Option<Result<Annotation, YaYaError>>)
        ensures
            slot_view(final(self).slot()) == slot_view(value),
            final(self).skip() == old(self).skip(),
            final(self).same_place(*old(self)),
    {
        match self {
            PermanentTrigger::Word(w) => {
                w.annotation = value;
            },
            PermanentTrigger::Text(t) => {
                t.annotation = value;
            },
        }
    }

    /// The annotation slot.
    pub fn annotation(&self) -> (r: Option<Result<Annotation, YaYaError>>)
        ensures
            slot_view(r) == slot_view(self.slot()),
    {
        match self {
            PermanentTrigger::Word(w) => copy_slot(&w.annotation),
            PermanentTrigger::Text(t) => copy_slot(&t.annotation),
        }
    }

    /// Sets whether feedback for the current annotation was recorded.
    pub fn feedback(&mut self, val: bool)
        ensures
            final(self).skip() == val,
            slot_view(final(self).slot()) == slot_view(old(self).slot()),
            final(self).same_place(*old(self)),
    {
        match self {
            PermanentTrigger::Word(w) => {
                w.feedback = val;
            },
            PermanentTrigger::Text(t) => {
                t.feedback = val;
            },
        }
    }

    /// The quality with which closing the popover reports: not understood
    /// when an annotation (or an error) is shown, else dismissed.
    pub fn close_quality(&self) -> (r: Option<bool>)
        ensures
            r == if self.slot() is Some {
                Some(false)
            } else {
                None
            },
    {
        match self {
            PermanentTrigger::Word(w) => if w.annotation.is_some() {
                Some(false)
            } else {
                None
            },
            PermanentTrigger::Text(t) => if t.annotation.is_some() {
                Some(false)
            } else {
                None
            },
        }
    }

    /// Whether feedback for the current annotation was already recorded.
    pub fn skip_feedback(&self) -> (r: bool)
        ensures
            r == self.skip(),
    {
        match self {
            PermanentTrigger::Word(w) => w.feedback,
            PermanentTrigger::Text(t) => t.feedback,
        }
    }
}

/// Whether every entry of `v` is below `n`.
fn all_below(v: &Vec<usize>, n: usize) -> (r: bool)
    ensures
        r == forall|i: int| 0 <= i < v@.len() ==> #[trigger] v@[i] < n,
{
    let mut i: usize = 0;
    while i < v.len()
        invariant
            i <= v@.len(),
            forall|k: int| 0 <= k < i ==> #[trigger] v@[k] < n,
        decreases v@.len() - i,
    {
        if v[i] >= n {
            return false;
        }
        i = i + 1;
    }
    true
}

} // verus!
