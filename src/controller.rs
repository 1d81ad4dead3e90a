//! The per-page controller: one pending mark, the promoted triggers by
//! identifier, and the identifiers whose popover is open. Each input event is
//! a method; what must be sent to the backend comes back as actions.
use std::collections::HashMap;
use vstd::prelude::*;
use crate::annotation::{slot_view, Annotation, YaYaError};
use crate::dom::{links_kept, Dom};
use crate::ident::fresh_id;
use crate::mark::{PendingMark, PermanentTrigger};
use crate::scan::word_owner;
use crate::text_mark::{text_refused, TextMark, TextRange};
use crate::trigger::WordPermanentTrigger;
use crate::word::{dwell_done, mount_refused, tick_time, WordMark};

verus! {

broadcast use vstd::std_specs::hash::group_hash_axioms;

/// How long, in milliseconds, the caret must settle before `caret_moved` is
/// called with it.
pub const BEFORE_TRIGGER_TIMER: u64 = 60;

/// Work for the outside world.
pub enum Action {
    /// Ask the backend for an annotation of `word` in `context`, for trigger
    /// `id`; `previous` is the annotation being replaced, if any. `selection`
    /// tells a selected passage from a single word.
    Annotate { id: u128, word: String, context: String, previous: Option<String>, selection: bool },
    /// Report whether annotation `annotation_id` was understood.
    Report { annotation_id: usize, result: bool },
}

/// The state of one page.
pub struct Controller {
    pub dom: Dom,
    pub pending: Option<PendingMark>,
    pub triggers: HashMap<u128, PermanentTrigger>,
    pub visible: Vec<u128>,
    pub pointer: bool,
}

/// `d` is `d0` after the pending mark `p`, if any, was reverted.
pub open spec fn cleared(p: Option<PendingMark>, d0: Dom, d: Dom) -> bool {
    match p {
        None => d == d0,
        Some(m) => m.reverted(d0, d),
    }
}

/// `c` is `c0` after one animation frame of `delta` milliseconds that would
/// promote the pending mark under `fresh`, returning actions `r`.
pub open spec fn ticked(c0: Controller, c: Controller, delta: u64, fresh: u128, r: Seq<Action>) -> bool {
    match c0.pending {
        None => r.len() == 0 && c.dom == c0.dom && c.pending is None && c.triggers@ == c0.triggers@
            && c.visible@ == c0.visible@,
        Some(p) => if !p.inv(c0.dom) {
            c.pending is None && r.len() == 0 && c.dom == c0.dom && c.triggers@ == c0.triggers@
                && c.visible@ == c0.visible@
        } else {
            let t = tick_time(p.time(), delta);
            if dwell_done(t) {
                &&& c.pending is None
                &&& c.triggers@.contains_key(fresh)
                &&& c.triggers@ == c0.triggers@.insert(fresh, c.triggers@[fresh])
                &&& c.triggers@[fresh].id() == fresh
                &&& c.triggers@[fresh].promotes(p)
                &&& slot_view(c.triggers@[fresh].slot()) is None
                &&& !c.triggers@[fresh].skip()
                &&& c.triggers@[fresh].inv(c.dom)
                &&& c.visible@ == shown(c0.visible@, fresh)
                &&& r.len() == 1
                &&& is_request(
                    r[0],
                    fresh,
                    c.triggers@[fresh].spec_content(c.dom),
                    c.triggers@[fresh].spec_context(c.dom),
                    None,
                )
            } else {
                &&& c.pending matches Some(q) && q.time() == t && q.inv(c.dom) && q.same_mark(p)
                &&& links_kept(c0.dom, c.dom)
                &&& c.triggers@ == c0.triggers@
                &&& c.visible@ == c0.visible@
                &&& r.len() == 0
            }
        },
    }
}

/// `v` is `s` with `id` appended unless it was there.
pub open spec fn shown(s: Seq<u128>, id: u128) -> Seq<u128> {
    if s.contains(id) {
        s
    } else {
        s.push(id)
    }
}

/// `s` without the occurrences of `id`.
pub open spec fn without(s: Seq<u128>, id: u128) -> Seq<u128>
    decreases s.len(),
{
    if s.len() == 0 {
        s
    } else if s.last() == id {
        without(s.drop_last(), id)
    } else {
        without(s.drop_last(), id).push(s.last())
    }
}

/// The report that closing with `quality` sends for trigger `t`, if any.
pub open spec fn close_report(t: PermanentTrigger, quality: Option<bool>) -> Option<(usize, bool)> {
    match quality {
        Some(good) => if !t.skip() {
            match t.slot() {
                Some(Ok(a)) => Some((a.id, good)),
                _ => None,
            }
        } else {
            None
        },
        None => None,
    }
}

/// Action `a` is the report `(id, result)`.
pub open spec fn is_report(a: Action, id: usize, result: bool) -> bool {
    a == Action::Report { annotation_id: id, result }
}

/// Action `a` asks to annotate `word` in `context` for trigger `id`, replacing `previous`.
pub open spec fn is_request(
    a: Action,
    id: u128,
    word: Seq<char>,
    context: Seq<char>,
    previous: Option<Seq<char>>,
) -> bool {
    match a {
        Action::Annotate { id: i, word: w, context: c, previous: p, selection: _ } => i == id && w@ == word && c@
            == context && match p {
            Some(s) => previous == Some(s@),
            None => previous is None,
        },
        _ => false,
    }
}

impl Controller {
    pub open spec fn wf(&self) -> bool {
        self.dom.wf()
    }

    /// A controller over document `dom`, with nothing marked.
    pub fn new(dom: Dom) -> (r: Controller)
        requires
            dom.wf(),
        ensures
            r.wf(),
            r.dom == dom,
            r.pending is None,
            r.triggers@ == Map::<u128, PermanentTrigger>::empty(),
            r.visible@ == Seq::<u128>::empty(),
            !r.pointer,
    {
        Controller {
            dom,
            pending: None,
            triggers: HashMap::new(),
            visible: Vec::new(),
            pointer: false,
        }
    }

    /// Reverts the pending mark, if any, and puts `mark` in its place.
    pub fn replace_pending(&mut self, mark: Option<PendingMark>)
        requires
            old(self).wf(),
        ensures
            final(self).wf(),
            final(self).pending == mark,
            final(self).triggers@ == old(self).triggers@,
            final(self).visible@ == old(self).visible@,
            final(self).pointer == old(self).pointer,
            cleared(old(self).pending, old(self).dom, final(self).dom),
            old(self).dom.size() <= final(self).dom.size(),
            forall|q: int|
                0 <= q < old(self).dom.size() ==> #[trigger] final(self).dom.text_of(q)
                    == old(self).dom.text_of(q),
    {
        let old_mark = self.pending.take();
        match old_mark {
            Some(m) => {
                let _ = m.unmount(&mut self.dom);
            },
            None => {},
        }
        self.pending = mark;
    }

    /// A pointer went down; a touch does not count as a drag.
    pub fn pointer_down(&mut self, is_touch: bool)
        ensures
            final(self).pointer == !is_touch,
            final(self).dom == old(self).dom,
            final(self).pending == old(self).pending,
            final(self).triggers@ == old(self).triggers@,
            final(self).visible@ == old(self).visible@,
    {
        self.pointer = !is_touch;
    }

    /// The pointer went up, leaving the selection `selection` if it is not
    /// collapsed. A selection takes the place of the pending mark with a text
    /// mark over it, where one can be mounted.
    pub fn pointer_up(&mut self, selection: Option<TextRange>)
        requires
            old(self).wf(),
        ensures
            final(self).wf(),
            !final(self).pointer,
            final(self).triggers@ == old(self).triggers@,
            final(self).visible@ == old(self).visible@,
            selection is None ==> final(self).dom == old(self).dom && final(self).pending == old(self).pending,
            selection is Some ==> exists|mid: Dom|
                cleared(old(self).pending, old(self).dom, mid) && (final(self).pending is Some
                    <==> !text_refused(mid, selection->0)) && (final(self).pending is None ==> final(
                self).dom == mid) && (final(self).pending matches Some(PendingMark::Text(m))
                    ==> crate::text_mark::text_mounted(mid, final(self).dom, selection->0, m)),
            selection is Some ==> (final(self).pending is Some ==> final(self).pending->0 is Text),
            forall|q: int|
                0 <= q < old(self).dom.size() ==> #[trigger] final(self).dom.text_of(q)
                    == old(self).dom.text_of(q),
    {
        self.pointer = false;
        match selection {
            Some(r) => {
                self.replace_pending(None);
                let ghost d1 = self.dom;
                match TextMark::mount_on_text(&mut self.dom, r) {
                    Some(m) => {
                        self.pending = Some(PendingMark::Text(m));
                    },
                    None => {},
                }
                proof {
                    assert forall|q: int| 0 <= q < old(self).dom.size() implies #[trigger] self.dom.text_of(q)
                        == old(self).dom.text_of(q) by {
                        assert(d1.text_of(q) == old(self).dom.text_of(q));
                    }
                    assert(cleared(old(self).pending, old(self).dom, d1));
                }
            },
            None => {},
        }
    }

    /// The pointer moved. During a drag the pending mark is dropped: the
    /// browser's own selection takes priority. Returns whether the caret
    /// should be tracked.
    pub fn pointer_move(&mut self) -> (r: bool)
        requires
            old(self).wf(),
        ensures
            final(self).wf(),
            r == !old(self).pointer,
            r ==> final(self).dom == old(self).dom && final(self).pending == old(self).pending,
            !r ==> final(self).pending is None && cleared(old(self).pending, old(self).dom, final(self).dom),
            final(self).triggers@ == old(self).triggers@,
            final(self).visible@ == old(self).visible@,
    {
        if self.pointer {
            self.replace_pending(None);
            false
        } else {
            true
        }
    }

    /// The pointer left the window, or the window lost focus: the pending
    /// mark is dropped.
    pub fn leave(&mut self)
        requires
            old(self).wf(),
        ensures
            final(self).wf(),
            final(self).pending is None,
            cleared(old(self).pending, old(self).dom, final(self).dom),
            final(self).triggers@ == old(self).triggers@,
            final(self).visible@ == old(self).visible@,
    {
        self.replace_pending(None);
    }

    fn show(&mut self, id: u128)
        ensures
            final(self).visible@ == shown(old(self).visible@, id),
            final(self).dom == old(self).dom,
            final(self).pending == old(self).pending,
            final(self).triggers@ == old(self).triggers@,
            final(self).pointer == old(self).pointer,
    {
        let mut i: usize = 0;
        while i < self.visible.len()
            invariant
                i <= self.visible@.len(),
                self.visible@ == old(self).visible@,
                self.dom == old(self).dom,
                self.pending == old(self).pending,
                self.triggers@ == old(self).triggers@,
                self.pointer == old(self).pointer,
                forall|j: int| 0 <= j < i ==> self.visible@[j] != id,
            decreases self.visible@.len() - i,
        {
            if self.visible[i] == id {
                assert(self.visible@[i as int] == id);
                return;
            }
            i = i + 1;
        }
        self.visible.push(id);
    }

    /// The debounced caret settled at `caret` (a node and an offset), or
    /// nowhere. Over a trigger, its popover opens. Elsewhere, with no
    /// selection, a word mark is mounted under the caret, replacing the pending
    /// one; failing that, a pending mark the caret has left is dropped.
    pub fn caret_moved(&mut self, caret: Option<(usize, usize)>, no_selection: bool)
        requires
            old(self).wf(),
        ensures
            final(self).wf(),
            final(self).triggers@ == old(self).triggers@,
            final(self).pointer == old(self).pointer,
            match caret {
                Some((node, pos)) => match word_owner(old(self).dom, node as int) {
                    Some(id) => final(self).visible@ == shown(old(self).visible@, id) && final(self).dom
                        == old(self).dom && final(self).pending == old(self).pending,
                    None => final(self).visible@ == old(self).visible@ && (no_selection
                        && !mount_refused(old(self).dom, node as int, pos as int) ==> (final(self).pending matches Some(PendingMark::Word(m)) && m.time == 0)) && (no_selection
                        && mount_refused(old(self).dom, node as int, pos as int) ==> match old(self).pending {
                        Some(p) => if p.inv(old(self).dom) && p.spec_same(old(self).dom, node as int, pos as int) {
                            final(self).pending == old(self).pending && final(self).dom == old(self).dom
                        } else {
                            final(self).pending is None && cleared(old(self).pending, old(self).dom, final(self).dom)
                        },
                        None => final(self).pending is None && final(self).dom == old(self).dom,
                    }) && (!no_selection
                        ==> final(self).pending == old(self).pending && final(self).dom == old(self).dom),
                },
                None => final(self).visible@ == old(self).visible@ && (no_selection ==> final(self).pending is None
                    && cleared(old(self).pending, old(self).dom, final(self).dom)) && (!no_selection ==> final(self).pending == old(self).pending
                    && final(self).dom == old(self).dom),
            },
    {
        match caret {
            Some((node, pos)) => {
                match WordPermanentTrigger::id(&self.dom, node) {
                    Some(id) => {
                        self.show(id);
                        return;
                    },
                    None => {},
                }
                if no_selection {
                    match WordMark::mount_on_text(&mut self.dom, node, pos) {
                        Some(m) => {
                            self.replace_pending(Some(PendingMark::Word(m)));
                            return;
                        },
                        None => {},
                    }
                    let leave = match &self.pending {
                        Some(p) => {
                            if p.holds_in(&self.dom) {
                                !p.is_same(&self.dom, node, pos)
                            } else {
                                true
                            }
                        },
                        None => true,
                    };
                    if leave {
                        self.replace_pending(None);
                    }
                }
            },
            None => {
                if no_selection {
                    self.replace_pending(None);
                }
            },
        }
    }

    /// One animation frame, `delta` milliseconds after the last. The pending
    /// mark's dwell advances; once complete, it is promoted under `fresh`,
    /// stored, shown, and an annotation is requested for it. A pending mark
    /// that no longer stands in the document is dropped.
    pub fn tick(&mut self, delta: u64, fresh: u128) -> (r: Vec<Action>)
        requires
            old(self).wf(),
        ensures
            final(self).wf(),
            ticked(*old(self), *final(self), delta, fresh, r@),
            forall|q: int|
                0 <= q < old(self).dom.size() ==> #[trigger] final(self).dom.text_of(q)
                    == old(self).dom.text_of(q),
    {
        let mut acts: Vec<Action> = Vec::new();
        let taken = self.pending.take();
        let mut p = match taken {
            Some(p) => p,
            None => return acts,
        };
        if !p.holds_in(&self.dom) {
            return acts;
        }
        let done = p.tick_timer(&mut self.dom, delta);
        if !done {
            self.pending = Some(p);
            return acts;
        }
        let ghost d1 = self.dom;
        let trig = p.make_permanent(&mut self.dom, fresh);
        proof {
            assert forall|q: int| 0 <= q < old(self).dom.size() implies #[trigger] self.dom.text_of(q)
                == old(self).dom.text_of(q) by {
                assert(d1.text_of(q) == old(self).dom.text_of(q));
            }
        }
        let word = trig.content(&self.dom);
        let context = trig.context(&self.dom);
        let selection = match &trig {
            PermanentTrigger::Text(_) => true,
            _ => false,
        };
        acts.push(Action::Annotate { id: fresh, word, context, previous: None, selection });
        self.triggers.insert(fresh, trig);
        self.show(fresh);
        acts
    }

    /// `tick` with a freshly drawn identifier for a promotion.
    pub fn on_frame(&mut self, delta: u64) -> (r: Vec<Action>)
        requires
            old(self).wf(),
        ensures
            final(self).wf(),
            exists|id: u128| ticked(*old(self), *final(self), delta, id, r@),
            forall|q: int|
                0 <= q < old(self).dom.size() ==> #[trigger] final(self).dom.text_of(q)
                    == old(self).dom.text_of(q),
    {
        let id = fresh_id();
        let r = self.tick(delta, id);
        assert(ticked(*old(self), *self, delta, id, r@));
        r
    }

    /// An annotation result arrived for trigger `id`. It is stored if the
    /// trigger still exists, and dropped otherwise.
    pub fn annotation_arrived(&mut self, id: u128, res: Result<Annotation, YaYaError>)
        requires
            old(self).wf(),
        ensures
            final(self).wf(),
            final(self).dom == old(self).dom,
            final(self).pending == old(self).pending,
            final(self).visible@ == old(self).visible@,
            !old(self).triggers@.contains_key(id) ==> final(self).triggers@ == old(self).triggers@,
            old(self).triggers@.contains_key(id) ==> {
                let t = final(self).triggers@[id];
                &&& final(self).triggers@ == old(self).triggers@.insert(id, t)
                &&& t.same_place(old(self).triggers@[id])
                &&& t.skip() == old(self).triggers@[id].skip()
                &&& slot_view(t.slot()) == slot_view(Some(res))
            },
    {
        match self.triggers.remove(&id) {
            Some(t) => {
                let mut t = t;
                t.annotate(Some(res));
                self.triggers.insert(id, t);
            },
            None => {},
        }
    }

    /// The popover of trigger `id` was closed with `quality`: `Some(true)`
    /// understood, `Some(false)` not understood, `None` dismissed. It is hidden;
    /// a judgement not yet reported is reported once; unless understood, the
    /// trigger is reverted and forgotten.
    pub fn close(&mut self, id: u128, quality: Option<bool>) -> (r: Vec<Action>)
        requires
            old(self).wf(),
        ensures
            final(self).wf(),
            final(self).pending == old(self).pending,
            final(self).visible@ == without(old(self).visible@, id),
            !old(self).triggers@.contains_key(id) ==> r@.len() == 0 && final(self).triggers@ == old(self).triggers@ && final(self).dom == old(self).dom,
            old(self).triggers@.contains_key(id) ==> {
                let t = old(self).triggers@[id];
                &&& match close_report(t, quality) {
                    Some((a, g)) => r@.len() == 1 && is_report(r@[0], a, g),
                    None => r@.len() == 0,
                }
                &&& quality == Some(true) ==> final(self).dom == old(self).dom
                    && final(self).triggers@.contains_key(id)
                    && final(self).triggers@ == old(self).triggers@.insert(id, final(self).triggers@[id])
                    && final(self).triggers@[id].same_place(t)
                    && slot_view(final(self).triggers@[id].slot()) == slot_view(t.slot())
                    && final(self).triggers@[id].skip() == (t.skip() || close_report(t, quality) is Some)
                &&& quality != Some(true) ==> final(self).triggers@ == old(self).triggers@.remove(id)
                    && t.reverted(old(self).dom, final(self).dom)
            },
            forall|q: int|
                0 <= q < old(self).dom.size() ==> #[trigger] final(self).dom.text_of(q)
                    == old(self).dom.text_of(q),
    {
        let ghost v0 = self.visible@;
        let mut kept: Vec<u128> = Vec::new();
        let mut i: usize = 0;
        while i < self.visible.len()
            invariant
                i <= self.visible@.len(),
                self.visible@ == v0,
                kept@ == without(v0.take(i as int), id),
            decreases self.visible@.len() - i,
        {
            let v = self.visible[i];
            proof {
                assert(v0.take(i + 1).drop_last() =~= v0.take(i as int));
            }
            if v != id {
                kept.push(v);
            }
            i = i + 1;
        }
        assert(v0.take(v0.len() as int) =~= v0);
        self.visible = kept;
        let mut acts: Vec<Action> = Vec::new();
        let mut t = match self.triggers.remove(&id) {
            Some(t) => t,
            None => return acts,
        };
        match quality {
            Some(good) => {
                if !t.skip_feedback() {
                    match t.annotation() {
                        Some(Ok(a)) => {
                            acts.push(Action::Report { annotation_id: a.id, result: good });
                            t.feedback(true);
                        },
                        _ => {},
                    }
                }
            },
            None => {},
        }
        if quality == Some(true) {
            self.triggers.insert(id, t);
        } else {
            let ghost d0 = self.dom;
            let res = t.unmount(&mut self.dom);
            proof {
                let t0 = old(self).triggers@[id];
                assert(t.same_place(t0));
                if res is Err {
                    assert(self.dom == d0);
                }
            }
        }
        acts
    }

    /// The reader asked for another annotation of trigger `id`. A previous
    /// annotation is reported as not understood, the slot is cleared and the
    /// feedback flag reset, and a new annotation is requested with the
    /// previous text passed along.
    pub fn regenerate(&mut self, id: u128) -> (r: Vec<Action>)
        requires
            old(self).wf(),
        ensures
            final(self).wf(),
            final(self).dom == old(self).dom,
            final(self).pending == old(self).pending,
            final(self).visible@ == old(self).visible@,
            !old(self).triggers@.contains_key(id) ==> r@.len() == 0 && final(self).triggers@ == old(self).triggers@,
            old(self).triggers@.contains_key(id) ==> {
                let t = old(self).triggers@[id];
                let n = final(self).triggers@[id];
                &&& final(self).triggers@ == old(self).triggers@.insert(id, n)
                &&& n.same_place(t)
                &&& slot_view(n.slot()) is None
                &&& !n.skip()
                &&& match t.slot() {
                    Some(Ok(a)) => r@.len() == 2 && is_report(r@[0], a.id, false) && is_request(
                        r@[1],
                        id,
                        t.spec_content(old(self).dom),
                        t.spec_context(old(self).dom),
                        Some(a.annotation@),
                    ),
                    _ => r@.len() == 1 && is_request(
                        r@[0],
                        id,
                        t.spec_content(old(self).dom),
                        t.spec_context(old(self).dom),
                        None,
                    ),
                }
            },
    {
        let mut acts: Vec<Action> = Vec::new();
        let mut t = match self.triggers.remove(&id) {
            Some(t) => t,
            None => return acts,
        };
        t.feedback(false);
        let word = t.content(&self.dom);
        let context = t.context(&self.dom);
        let selection = match &t {
            PermanentTrigger::Text(_) => true,
            _ => false,
        };
        let previous = match t.annotation() {
            Some(Ok(a)) => Some(a),
            _ => None,
        };
        match previous {
            Some(a) => {
                acts.push(Action::Report { annotation_id: a.id, result: false });
                acts.push(Action::Annotate { id, word, context, previous: Some(a.annotation), selection });
            },
            None => {
                acts.push(Action::Annotate { id, word, context, previous: None, selection });
            },
        }
        t.annotate(None);
        self.triggers.insert(id, t);
        acts
    }
}

} // verus!
