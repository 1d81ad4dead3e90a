//! The attributes that the mark engine reads and writes on elements.
use vstd::prelude::*;

verus! {

/// Attribute names that the engine uses on elements.
#[derive(PartialEq, Eq, Structural, Clone, Copy, Debug)]
pub enum AttrName {
    /// Marks a wrapper element that stands in place of a text node it split.
    MarkRoot,
    /// On a highlight element of a pending word mark; "0", then "1" once animating.
    PendingWord,
    /// On a promoted word highlight; holds the trigger's identifier.
    TriggerWord,
    /// On a highlight element of a pending text mark.
    PendingText,
    /// On a promoted text highlight; holds the trigger's identifier.
    TriggerText,
    /// The element's `id`.
    Id,
    /// The element's `class`.
    Class,
    /// The element's `style`.
    Style,
}

impl AttrName {
    /// The attribute's name in a document.
    pub fn as_str(&self) -> (r: &'static str)
        ensures
            r@ == match self {
                AttrName::MarkRoot => "data-ya-ya-mark-root"@,
                AttrName::PendingWord => "data-ya-ya-pending-word"@,
                AttrName::TriggerWord => "data-ya-ya-trigger-word"@,
                AttrName::PendingText => "data-ya-ya-pending-text"@,
                AttrName::TriggerText => "data-ya-ya-trigger-text"@,
                AttrName::Id => "id"@,
                AttrName::Class => "class"@,
                AttrName::Style => "style"@,
            },
    {
        match self {
            AttrName::MarkRoot => "data-ya-ya-mark-root",
            AttrName::PendingWord => "data-ya-ya-pending-word",
            AttrName::TriggerWord => "data-ya-ya-trigger-word",
            AttrName::PendingText => "data-ya-ya-pending-text",
            AttrName::TriggerText => "data-ya-ya-trigger-text",
            AttrName::Id => "id",
            AttrName::Class => "class",
            AttrName::Style => "style",
        }
    }
}

/// The attributes of one element, one slot per name.
pub struct Attrs {
    pub mark_root: Option<String>,
    pub pending_word: Option<String>,
    pub trigger_word: Option<String>,
    pub pending_text: Option<String>,
    pub trigger_text: Option<String>,
    pub id: Option<String>,
    pub class: Option<String>,
    pub style: Option<String>,
}

/// The view of an optional string.
pub open spec fn opt_view(o: Option<String>) -> Option<Seq<char>> {
    match o {
        Some(s) => Some(s@),
        None => None,
    }
}

fn clone_opt(o: &Option<String>) -> (r: Option<String>)
    ensures
        opt_view(r) == opt_view(*o),
{
    match o {
        Some(s) => Some(s.clone()),
        None => None,
    }
}

impl Attrs {
    /// The value of attribute `n`.
    pub open spec fn spec_get(&self, n: AttrName) -> Option<Seq<char>> {
        opt_view(
            match n {
                AttrName::MarkRoot => self.mark_root,
                AttrName::PendingWord => self.pending_word,
                AttrName::TriggerWord => self.trigger_word,
                AttrName::PendingText => self.pending_text,
                AttrName::TriggerText => self.trigger_text,
                AttrName::Id => self.id,
                AttrName::Class => self.class,
                AttrName::Style => self.style,
            },
        )
    }

    /// No attribute set.
    pub fn new() -> (r: Attrs)
        ensures
            forall|n: AttrName| r.spec_get(n) is None,
    {
        Attrs {
            mark_root: None,
            pending_word: None,
            trigger_word: None,
            pending_text: None,
            trigger_text: None,
            id: None,
            class: None,
            style: None,
        }
    }

    /// The value of attribute `n`.
    pub fn get(&self, n: AttrName) -> (r: Option<String>)
        ensures
            opt_view(r) == self.spec_get(n),
    {
        match n {
            AttrName::MarkRoot => clone_opt(&self.mark_root),
            AttrName::PendingWord => clone_opt(&self.pending_word),
            AttrName::TriggerWord => clone_opt(&self.trigger_word),
            AttrName::PendingText => clone_opt(&self.pending_text),
            AttrName::TriggerText => clone_opt(&self.trigger_text),
            AttrName::Id => clone_opt(&self.id),
            AttrName::Class => clone_opt(&self.class),
            AttrName::Style => clone_opt(&self.style),
        }
    }

    /// Whether attribute `n` is set.
    pub fn has(&self, n: AttrName) -> (r: bool)
        ensures
            r == self.spec_get(n) is Some,
    {
        match n {
            AttrName::MarkRoot => self.mark_root.is_some(),
            AttrName::PendingWord => self.pending_word.is_some(),
            AttrName::TriggerWord => self.trigger_word.is_some(),
            AttrName::PendingText => self.pending_text.is_some(),
            AttrName::TriggerText => self.trigger_text.is_some(),
            AttrName::Id => self.id.is_some(),
            AttrName::Class => self.class.is_some(),
            AttrName::Style => self.style.is_some(),
        }
    }

    /// Sets attribute `n` to `v`, or removes it when `v` is `None`.
    pub fn put(&mut self, n: AttrName, v: Option<String>)
        ensures
            final(self).spec_get(n) == opt_view(v),
            forall|m: AttrName| m != n ==> final(self).spec_get(m) == old(self).spec_get(m),
    {
        match n {
            AttrName::MarkRoot => self.mark_root = v,
            AttrName::PendingWord => self.pending_word = v,
            AttrName::TriggerWord => self.trigger_word = v,
            AttrName::PendingText => self.pending_text = v,
            AttrName::TriggerText => self.trigger_text = v,
            AttrName::Id => self.id = v,
            AttrName::Class => self.class = v,
            AttrName::Style => self.style = v,
        }
    }
}

} // verus!
