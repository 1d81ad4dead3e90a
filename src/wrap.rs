//! Building the detached three-part wrapper that stands in for a text node:
//! leading text, a highlight element holding the marked text, trailing text.
use vstd::prelude::*;
use crate::attrs::AttrName;
use crate::dom::Dom;

verus! {

/// A node of `d` is unchanged from `d0`.
pub open spec fn kept(d: Dom, d0: Dom, q: int) -> bool {
    d.nodes@[q] == d0.nodes@[q]
}

/// `root` is a wrapper in `d` with children `[b, mark, a]`: `b` and `a` are
/// text nodes holding `before` and `after`, and `mark` is an element whose
/// text content is `word`. The wrapper reads as `before + word + after`.
pub open spec fn wrapper_shape(
    d: Dom,
    root: int,
    mark: int,
    before: Seq<char>,
    word: Seq<char>,
    after: Seq<char>,
) -> bool {
    &&& 0 <= root < mark < d.size()
    &&& !d.is_text(root)
    &&& !d.is_text(mark)
    &&& d.kids(root).len() == 3
    &&& d.kids(root)[1] == mark
    &&& d.is_text(d.kids(root)[0] as int)
    &&& d.is_text(d.kids(root)[2] as int)
    &&& d.text_of(d.kids(root)[0] as int) == before
    &&& d.text_of(mark) == word
    &&& d.text_of(d.kids(root)[2] as int) == after
    &&& d.text_of(root) == before + word + after
    &&& d.attr(root, AttrName::MarkRoot) is Some
}

/// Builds a detached wrapper reading `before + word + after`, whose highlight
/// element carries `pending` with the value "0". Returns the wrapper and the
/// highlight element.
pub fn build_wrapper(
    d: &mut Dom,
    before: Vec<char>,
    word: Vec<char>,
    after: Vec<char>,
    pending: AttrName,
) -> (r: (usize, usize))
    requires
        old(d).wf(),
        pending != AttrName::Style,
    ensures
        final(d).wf(),
        final(d).extends(*old(d)),
        r.0 == old(d).size(),
        old(d).size() < final(d).size(),
        forall|q: int| 0 <= q < old(d).size() ==> #[trigger] kept(*final(d), *old(d), q),
        final(d).parent_of(r.0 as int) is None,
        wrapper_shape(*final(d), r.0 as int, r.1 as int, before@, word@, after@),
        final(d).attr(r.1 as int, pending) == Some("0"@),
        final(d).kids(r.1 as int).len() == 1,
        final(d).is_text(final(d).kids(r.1 as int)[0] as int),
{
    let ghost d0 = *d;
    let ghost (bv, wv, av) = (before@, word@, after@);
    let root = d.create_element("span");
    d.set_attr(root, AttrName::Style, Some("display: inline;".to_owned()));
    d.set_attr(root, AttrName::MarkRoot, Some("".to_owned()));
    let b = d.create_text(before);
    let mark = d.create_element("mark");
    d.set_attr(mark, pending, Some("0".to_owned()));
    d.set_attr(
        mark,
        AttrName::Style,
        Some(
            "--pending-animation-duration: 1800ms; --mark-background-color: rgba(239, 207, 227, 0.75)".to_owned(),
        ),
    );
    let wt = d.create_text(word);
    let a = d.create_text(after);
    let ghost d1 = *d;
    d.append_child(mark, wt);
    d.append_child(root, b);
    d.append_child(root, mark);
    d.append_child(root, a);
    proof {
        let df = *d;
        assert forall|q: int| 0 <= q < d0.size() implies #[trigger] kept(df, d0, q) by {
            assert(d1.nodes@[q] == d0.nodes@[q]);
        }
        assert(df.kids(root as int) =~= seq![b, mark, a]);
        assert(df.kids(mark as int) =~= seq![wt]);
        assert(df.is_text(b as int) && df.nodes@[b as int].text@ == bv);
        assert(df.is_text(wt as int) && df.nodes@[wt as int].text@ == wv);
        assert(df.is_text(a as int) && df.nodes@[a as int].text@ == av);
        assert(df.text_of(b as int) == bv);
        assert(df.text_of(a as int) == av);
        assert(df.text_of(wt as int) == wv);
        assert(df.kids_text(mark as int, 0) == Seq::<char>::empty());
        assert(df.kids_text(mark as int, 1) == wv);
        assert(df.text_of(mark as int) == wv);
        assert(df.kids_text(root as int, 0) == Seq::<char>::empty());
        assert(df.kids_text(root as int, 1) == bv);
        assert(df.kids_text(root as int, 2) == bv + wv);
        assert(df.kids_text(root as int, 3) == bv + wv + av);
        assert(df.text_of(root as int) == bv + wv + av);
        assert forall|q: int| 0 <= q < d0.size() implies (#[trigger] df.nodes@[q]).kind
            == d0.nodes@[q].kind && df.nodes@[q].text@ == d0.nodes@[q].text@ by {
            assert(kept(df, d0, q));
        }
        assert forall|q: int| 0 <= q < d0.size() implies #[trigger] df.kids(q) == d0.kids(q)
            || df.kids_text_mixed(d0, q, df.kids(q).len() as int) == d0.kids_text(
            q,
            d0.kids(q).len() as int,
        ) by {
            assert(kept(df, d0, q));
        }
    }
    (root, mark)
}

} // verus!
