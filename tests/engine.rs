use ya_ya::annotation::{Annotation, YaYaError};
use ya_ya::attrs::AttrName;
use ya_ya::controller::{Action, Controller};
use ya_ya::dom::Dom;
use ya_ya::mark::{PendingMark, PermanentTrigger};
use ya_ya::render::format_annotation;
use ya_ya::scan::{is_al_mounted, text_node};
use ya_ya::segment::words_map;
use ya_ya::text_mark::{TextMark, TextPermanentTrigger, TextRange};
use ya_ya::trigger::WordPermanentTrigger;
use ya_ya::word::WordMark;

fn chars(s: &str) -> Vec<char> {
    s.chars().collect()
}

fn text_of(d: &Dom, n: usize) -> String {
    d.text_content(n).into_iter().collect()
}

/// A document with one paragraph holding one text node; returns it with the
/// paragraph and the text node.
fn paragraph(s: &str) -> (Dom, usize, usize) {
    let mut d = Dom::new();
    let p = d.create_element("p");
    d.append_child(0, p);
    let t = d.create_text(chars(s));
    d.append_child(p, t);
    (d, p, t)
}

#[test]
fn words_map_splits_runs() {
    let r = words_map("I like cats and dogs");
    let spans: Vec<(usize, usize, &str)> = r.iter().map(|(a, b, s)| (*a, *b, s.as_str())).collect();
    assert_eq!(
        spans,
        vec![
            (0, 1, "I"),
            (1, 2, " "),
            (2, 6, "like"),
            (6, 7, " "),
            (7, 11, "cats"),
            (11, 12, " "),
            (12, 15, "and"),
            (15, 16, " "),
            (16, 20, "dogs"),
        ]
    );
}

#[test]
fn words_map_rebuilds_input() {
    let input = "Héllo, wörld!! 42 été";
    let r = words_map(input);
    let joined: String = r.iter().map(|(_, _, s)| s.as_str()).collect();
    assert_eq!(joined, input);
    for w in r.windows(2) {
        assert_eq!(w[0].1, w[1].0);
    }
    let alpha: Vec<&str> = r
        .iter()
        .filter(|(_, _, s)| s.chars().all(|c| c.is_alphabetic()))
        .map(|(_, _, s)| s.as_str())
        .collect();
    assert_eq!(alpha, vec!["Héllo", "wörld", "été"]);
    assert_eq!(r.iter().filter(|(_, _, s)| s == "4").count(), 1);
}

#[test]
fn words_map_empty_input() {
    assert!(words_map("").is_empty());
}

#[test]
fn mount_word_under_caret() {
    let (mut d, p, t) = paragraph("I like cats and dogs");
    let m = WordMark::mount_on_text(&mut d, t, 7).expect("a word at 7");
    assert_eq!((m.start, m.end, m.word_pos, m.time), (7, 11, 4, 0));
    assert_eq!(text_of(&d, m.mark), "cats");
    assert_eq!(text_of(&d, p), "I like cats and dogs");
    assert_eq!(d.child_nodes(m.root).len(), 3);
    assert_eq!(d.get_attr(m.mark, AttrName::PendingWord), Some("0".to_string()));
    assert_eq!(d.parent_node(t), None);
    assert!(is_al_mounted(&d, d.child_nodes(m.mark)[0]));
    // the caret is now over the highlight's own text node, whose runs start afresh
    assert!(!m.is_same(&d, d.child_nodes(m.mark)[0], 2));
}

#[test]
fn mount_refuses_non_words() {
    let (mut d, _, t) = paragraph("I like cats and dogs");
    let before = d.node_count();
    assert!(WordMark::mount_on_text(&mut d, t, 6).is_none());
    assert!(WordMark::mount_on_text(&mut d, t, 20).is_none());
    assert_eq!(d.node_count(), before);
    let (mut d2, _, t2) = paragraph("a, b");
    assert!(WordMark::mount_on_text(&mut d2, t2, 1).is_none());
}

#[test]
fn mount_refuses_inside_mark() {
    let (mut d, _, t) = paragraph("I like cats and dogs");
    let m = WordMark::mount_on_text(&mut d, t, 7).unwrap();
    let inner = d.child_nodes(m.mark)[0];
    assert!(WordMark::mount_on_text(&mut d, inner, 1).is_none());
}

#[test]
fn word_mark_round_trip() {
    let (mut d, p, t) = paragraph("I like cats and dogs");
    let m = WordMark::mount_on_text(&mut d, t, 3).unwrap();
    assert_eq!(text_of(&d, m.mark), "like");
    m.unmount(&mut d).unwrap();
    let kids = d.child_nodes(p);
    assert_eq!(kids.len(), 1);
    assert!(d.is_text_node(kids[0]));
    assert_eq!(text_of(&d, kids[0]), "I like cats and dogs");
    assert_eq!(text_of(&d, p), "I like cats and dogs");
}

#[test]
fn resolve_descends_to_text() {
    let mut d = Dom::new();
    let a = d.create_element("div");
    d.append_child(0, a);
    let b = d.create_element("span");
    d.append_child(a, b);
    let t = d.create_text(chars("word"));
    d.append_child(b, t);
    assert_eq!(text_node(&d, a), Some(t));
    let e = d.create_element("i");
    d.append_child(0, e);
    assert_eq!(text_node(&d, e), None);
}

#[test]
fn dwell_ticks() {
    let (mut d, _, t) = paragraph("I like cats and dogs");
    let mut m = WordMark::mount_on_text(&mut d, t, 7).unwrap();
    for _ in 0..5 {
        assert!(!m.tick_timer(&mut d, 0));
    }
    assert_eq!(d.get_attr(m.mark, AttrName::PendingWord), Some("1".to_string()));
    assert!(!m.tick_timer(&mut d, 600));
    assert!(!m.tick_timer(&mut d, 600));
    assert!(m.tick_timer(&mut d, 600));
    assert_eq!(m.time, 1800);
}

#[test]
fn cats_scenario() {
    let (mut d, p, t) = paragraph("I like cats and dogs");
    let mut m = WordMark::mount_on_text(&mut d, t, 7).unwrap();
    assert_eq!((m.start, m.end), (7, 11));
    let mut done = false;
    while !done {
        done = m.tick_timer(&mut d, 100);
    }
    let id: u128 = 0x0123_4567_89ab_cdef_0123_4567_89ab_cdef;
    let trig = WordPermanentTrigger::make_permanent(&m, &mut d, id);
    assert_eq!(trig.word(&d), "cats");
    assert_eq!(text_of(&d, trig.mark), "cats");
    assert_eq!(text_of(&d, p), "I like cats and dogs");
    assert_eq!(
        d.get_attr(trig.mark, AttrName::TriggerWord),
        Some("01234567-89ab-cdef-0123-456789abcdef".to_string())
    );
    assert_eq!(d.get_attr(trig.mark, AttrName::PendingWord), None);
    assert_eq!(trig.context(&d), "I like cats and dogs");
}

#[test]
fn lookup_after_promote() {
    let (mut d, p, t) = paragraph("I like cats and dogs");
    let other = d.create_element("p");
    d.append_child(0, other);
    let ot = d.create_text(chars("elsewhere"));
    d.append_child(other, ot);
    let m = WordMark::mount_on_text(&mut d, t, 13).unwrap();
    let id: u128 = 42;
    let trig = WordPermanentTrigger::make_permanent(&m, &mut d, id);
    let word_text = d.child_nodes(trig.mark)[1];
    assert_eq!(WordPermanentTrigger::id(&d, trig.mark), Some(id));
    assert_eq!(WordPermanentTrigger::id(&d, word_text), Some(id));
    assert_eq!(WordPermanentTrigger::id(&d, ot), None);
    assert_eq!(WordPermanentTrigger::id(&d, p), None);
    assert!(is_al_mounted(&d, word_text));
    assert!(!is_al_mounted(&d, ot));
}

#[test]
fn context_window() {
    let (mut d, _, t) = paragraph("one two three four five six seven eight nine");
    let m = WordMark::mount_on_text(&mut d, t, 19).unwrap();
    let trig = WordPermanentTrigger::make_permanent(&m, &mut d, 7);
    assert_eq!(trig.word(&d), "five");
    assert_eq!(trig.context(&d), "two three four five six seven eight");
}

fn two_paragraphs() -> (Dom, usize, usize, usize) {
    let mut d = Dom::new();
    let div = d.create_element("div");
    d.append_child(0, div);
    let p1 = d.create_element("p");
    d.append_child(div, p1);
    let t1 = d.create_text(chars("Hello world"));
    d.append_child(p1, t1);
    let p2 = d.create_element("p");
    d.append_child(div, p2);
    let t2 = d.create_text(chars("foo bar"));
    d.append_child(p2, t2);
    (d, div, t1, t2)
}

#[test]
fn text_mark_round_trip_multi() {
    let (mut d, div, t1, t2) = two_paragraphs();
    let r = TextRange { start_node: t1, start_offset: 6, end_node: t2, end_offset: 3 };
    let m = TextMark::mount_on_text(&mut d, r).expect("a selection");
    assert_eq!(m.root, div);
    assert_eq!(m.marks.len(), 2);
    assert_eq!(text_of(&d, m.marks[0]), "world");
    assert_eq!(text_of(&d, m.marks[1]), "foo");
    assert_eq!(text_of(&d, div), "Hello worldfoo bar");
    m.unmount(&mut d).unwrap();
    assert_eq!(text_of(&d, div), "Hello worldfoo bar");
    for &w in &m.wrappers {
        assert_eq!(d.parent_node(w), None);
    }
}

#[test]
fn text_mark_round_trip_single() {
    let (mut d, p, t) = paragraph("select me please");
    let r = TextRange { start_node: t, start_offset: 7, end_node: t, end_offset: 9 };
    let m = TextMark::mount_on_text(&mut d, r).expect("a selection");
    assert_eq!(m.root, p);
    assert_eq!(m.marks.len(), 1);
    assert_eq!(text_of(&d, m.marks[0]), "me");
    m.unmount(&mut d).unwrap();
    assert_eq!(text_of(&d, p), "select me please");
    assert_eq!(d.child_nodes(p).len(), 1);
}

#[test]
fn text_mark_refuses_reversed() {
    let (mut d, _, t1, t2) = two_paragraphs();
    let r = TextRange { start_node: t2, start_offset: 0, end_node: t1, end_offset: 3 };
    assert!(TextMark::mount_on_text(&mut d, r).is_none());
    let (mut d2, _, t) = paragraph("abc");
    let r2 = TextRange { start_node: t, start_offset: 2, end_node: t, end_offset: 1 };
    assert!(TextMark::mount_on_text(&mut d2, r2).is_none());
}

#[test]
fn text_trigger_promotes() {
    let (mut d, _, t1, t2) = two_paragraphs();
    let r = TextRange { start_node: t1, start_offset: 0, end_node: t2, end_offset: 7 };
    let mut m = TextMark::mount_on_text(&mut d, r).unwrap();
    assert!(!m.tick_timer(&mut d, 0));
    assert_eq!(d.get_attr(m.marks[0], AttrName::PendingText), Some("1".to_string()));
    assert!(m.tick_timer(&mut d, 1800));
    let trig = m.make_permanent(&mut d, 9);
    assert_eq!(trig.text(&d), "Hello worldfoo bar");
    assert_eq!(TextPermanentTrigger::id(&d, trig.marks[1]), Some(9));
    assert_eq!(d.get_attr(trig.marks[0], AttrName::PendingText), None);
}

fn controller_with_trigger(id: u128) -> (Controller, usize) {
    let (d, p, t) = paragraph("I like cats and dogs");
    let mut c = Controller::new(d);
    c.caret_moved(Some((t, 8)), true);
    assert!(matches!(c.pending, Some(PendingMark::Word(_))));
    let acts = c.tick(1000, id);
    assert!(acts.is_empty());
    let acts = c.tick(1000, id);
    assert_eq!(acts.len(), 1);
    match &acts[0] {
        Action::Annotate { id: i, word, context, previous, selection } => {
            assert_eq!(*i, id);
            assert_eq!(word, "cats");
            assert_eq!(context, "I like cats and dogs");
            assert!(previous.is_none());
            assert!(!selection);
        }
        _ => panic!("expected a request"),
    }
    assert!(c.pending.is_none());
    assert_eq!(c.visible, vec![id]);
    (c, p)
}

#[test]
fn stale_response_dropped() {
    let (mut c, _) = controller_with_trigger(5);
    c.close(5, None);
    assert!(c.triggers.is_empty());
    c.annotation_arrived(5, Ok(Annotation { annotation: "late".to_string(), id: 1 }));
    assert!(c.triggers.is_empty());
    assert!(c.visible.is_empty());
}

#[test]
fn response_stored() {
    let (mut c, _) = controller_with_trigger(5);
    c.annotation_arrived(5, Err(YaYaError::ServerError));
    let slot = c.triggers.get(&5).unwrap().annotation();
    assert!(matches!(slot, Some(Err(YaYaError::ServerError))));
}

#[test]
fn regenerate_reports_and_requests() {
    let (mut c, _) = controller_with_trigger(5);
    c.annotation_arrived(5, Ok(Annotation { annotation: "A".to_string(), id: 77 }));
    let acts = c.regenerate(5);
    assert_eq!(acts.len(), 2);
    assert!(matches!(acts[0], Action::Report { annotation_id: 77, result: false }));
    match &acts[1] {
        Action::Annotate { id, word, previous, .. } => {
            assert_eq!(*id, 5);
            assert_eq!(word, "cats");
            assert_eq!(previous.as_deref(), Some("A"));
        }
        _ => panic!("expected a request"),
    }
    let t = c.triggers.get(&5).unwrap();
    assert!(t.annotation().is_none());
    assert!(!t.skip_feedback());
}

#[test]
fn regenerate_without_annotation() {
    let (mut c, _) = controller_with_trigger(5);
    let acts = c.regenerate(5);
    assert_eq!(acts.len(), 1);
    assert!(matches!(&acts[0], Action::Annotate { previous: None, .. }));
    assert!(c.regenerate(6).is_empty());
}

#[test]
fn close_understood_keeps_trigger() {
    let (mut c, p) = controller_with_trigger(5);
    c.annotation_arrived(5, Ok(Annotation { annotation: "A".to_string(), id: 77 }));
    let acts = c.close(5, Some(true));
    assert_eq!(acts.len(), 1);
    assert!(matches!(acts[0], Action::Report { annotation_id: 77, result: true }));
    assert!(c.visible.is_empty());
    let t = c.triggers.get(&5).unwrap();
    assert!(t.skip_feedback());
    match t {
        PermanentTrigger::Word(w) => {
            assert!(c.dom.get_attr(w.mark, AttrName::TriggerWord).is_some());
            assert_eq!(c.dom.parent_node(w.root), Some(p));
        }
        _ => panic!("expected a word trigger"),
    }
    assert!(c.close(5, Some(true)).is_empty());
}

#[test]
fn close_dismissed_reverts() {
    let (mut c, p) = controller_with_trigger(5);
    c.annotation_arrived(5, Ok(Annotation { annotation: "A".to_string(), id: 77 }));
    let acts = c.close(5, Some(false));
    assert_eq!(acts.len(), 1);
    assert!(matches!(acts[0], Action::Report { annotation_id: 77, result: false }));
    assert!(c.triggers.is_empty());
    let kids = c.dom.child_nodes(p);
    assert_eq!(kids.len(), 1);
    assert_eq!(text_of(&c.dom, p), "I like cats and dogs");
}

#[test]
fn caret_over_trigger_shows_it() {
    let (mut c, p) = controller_with_trigger(5);
    c.close(5, Some(true));
    assert!(c.visible.is_empty());
    let kids = c.dom.child_nodes(p);
    let root = kids[0];
    let mark = c.dom.child_nodes(root)[1];
    c.caret_moved(Some((mark, 1)), true);
    assert_eq!(c.visible, vec![5]);
}

#[test]
fn drag_and_leave_clear_pending() {
    let (d, p, t) = paragraph("I like cats and dogs");
    let mut c = Controller::new(d);
    c.caret_moved(Some((t, 3)), true);
    assert!(c.pending.is_some());
    c.pointer_down(false);
    assert!(!c.pointer_move());
    assert!(c.pending.is_none());
    assert_eq!(text_of(&c.dom, p), "I like cats and dogs");
    c.pointer_up(None);
    let t2 = c.dom.child_nodes(p)[0];
    c.caret_moved(Some((t2, 3)), true);
    assert!(c.pending.is_some());
    c.leave();
    assert!(c.pending.is_none());
    assert_eq!(c.dom.child_nodes(p).len(), 1);
}

#[test]
fn caret_moving_off_word_clears() {
    let (d, p, t) = paragraph("I like cats and dogs");
    let mut c = Controller::new(d);
    c.caret_moved(Some((t, 3)), true);
    assert!(c.pending.is_some());
    c.caret_moved(None, true);
    assert!(c.pending.is_none());
    assert_eq!(text_of(&c.dom, p), "I like cats and dogs");
}

#[test]
fn selection_mounts_text_mark() {
    let (d, div, t1, t2) = two_paragraphs();
    let mut c = Controller::new(d);
    c.pointer_up(Some(TextRange { start_node: t1, start_offset: 6, end_node: t2, end_offset: 3 }));
    assert!(matches!(c.pending, Some(PendingMark::Text(_))));
    let acts = c.tick(1800, 11);
    assert_eq!(acts.len(), 1);
    match &acts[0] {
        Action::Annotate { word, context, selection, .. } => {
            assert_eq!(word, "worldfoo");
            assert_eq!(context, "Hello worldfoo bar");
            assert!(*selection);
        }
        _ => panic!("expected a request"),
    }
    c.close(11, None);
    assert_eq!(text_of(&c.dom, div), "Hello worldfoo bar");
}

#[test]
fn status_classification() {
    assert_eq!(YaYaError::from_status(Some(404)), YaYaError::ClientError);
    assert_eq!(YaYaError::from_status(Some(400)), YaYaError::ClientError);
    assert_eq!(YaYaError::from_status(Some(500)), YaYaError::ServerError);
    assert_eq!(YaYaError::from_status(Some(599)), YaYaError::ServerError);
    assert_eq!(YaYaError::from_status(Some(302)), YaYaError::UnknownError);
    assert_eq!(YaYaError::from_status(None), YaYaError::UnknownError);
    assert_eq!(YaYaError::IntegrationError.message(), "Ошибка. Обновите расширение.");
}

#[test]
fn annotation_rendering() {
    assert_eq!(format_annotation("Hello. World?"), "<p>Hello.\nWorld.\n</p>");
    assert_eq!(format_annotation("*a*"), "<p><em>a</em></p>");
}

#[test]
fn frame_promotes_with_fresh_id() {
    let (d, p, t) = paragraph("I like cats and dogs");
    let mut c = Controller::new(d);
    c.caret_moved(Some((t, 0)), true);
    assert!(c.pending.is_some());
    assert!(c.on_frame(900).is_empty());
    let acts = c.on_frame(900);
    assert_eq!(acts.len(), 1);
    assert_eq!(c.visible.len(), 1);
    let id = c.visible[0];
    assert!(c.triggers.contains_key(&id));
    match &acts[0] {
        Action::Annotate { id: i, word, .. } => {
            assert_eq!(*i, id);
            assert_eq!(word, "I");
        }
        _ => panic!("expected a request"),
    }
    let root = c.dom.child_nodes(p)[0];
    let mark = c.dom.child_nodes(root)[1];
    assert_eq!(WordPermanentTrigger::id(&c.dom, mark), Some(id));
}

#[test]
fn revert_detached_fails() {
    let (mut d, p, t) = paragraph("I like cats and dogs");
    let m = WordMark::mount_on_text(&mut d, t, 7).unwrap();
    m.unmount(&mut d).unwrap();
    let count = d.node_count();
    assert_eq!(m.unmount(&mut d), Err(ya_ya::dom::DomError::Detached));
    assert_eq!(d.node_count(), count);
    assert_eq!(text_of(&d, p), "I like cats and dogs");
    let gone = PermanentTrigger::Word(WordPermanentTrigger {
        id: 1,
        start: 0,
        end: 1,
        word_pos: 0,
        root: 10_000,
        mark: 10_001,
        anchors: (0, 0),
        annotation: None,
        feedback: false,
    });
    assert_eq!(gone.unmount(&mut d), Err(ya_ya::dom::DomError::Missing));
    assert_eq!(gone.content(&d), "");
}

#[test]
fn lookup_walks_up_from_node() {
    let (mut d, p, t) = paragraph("cats");
    let m = WordMark::mount_on_text(&mut d, t, 1).unwrap();
    let trig = WordPermanentTrigger::make_permanent(&m, &mut d, 3);
    let kids = d.child_nodes(trig.mark);
    assert_eq!(kids.len(), 3);
    assert_eq!(WordPermanentTrigger::id(&d, kids[0]), Some(3));
    assert_eq!(WordPermanentTrigger::id(&d, kids[1]), Some(3));
    assert_eq!(WordPermanentTrigger::id(&d, kids[2]), Some(3));
    assert_eq!(WordPermanentTrigger::id(&d, trig.mark), Some(3));
    // the paragraph holds only the promoted word, yet carries no trigger itself
    assert_eq!(WordPermanentTrigger::id(&d, p), None);
    assert_eq!(WordPermanentTrigger::id(&d, trig.root), None);
}

#[test]
fn lookup_misses_leading_text_and_reverted_word() {
    let (mut d, p, t) = paragraph("I like cats and dogs");
    let m = WordMark::mount_on_text(&mut d, t, 8).unwrap();
    let trig = WordPermanentTrigger::make_permanent(&m, &mut d, 4);
    let lead = d.child_nodes(trig.root)[0];
    assert_eq!(text_of(&d, lead), "I like ");
    assert_eq!(WordPermanentTrigger::id(&d, lead), None);
    trig.unmount(&mut d).unwrap();
    let restored = d.child_nodes(p)[0];
    assert_eq!(text_of(&d, restored), "I like cats and dogs");
    assert_eq!(WordPermanentTrigger::id(&d, restored), None);
    assert!(!is_al_mounted(&d, restored));
}

#[test]
fn text_mark_refuses_empty_selection() {
    let (mut d, _, t1, t2) = two_paragraphs();
    let count = d.node_count();
    let r = TextRange { start_node: t1, start_offset: 11, end_node: t2, end_offset: 0 };
    assert!(TextMark::mount_on_text(&mut d, r).is_none());
    assert_eq!(d.node_count(), count);
}

#[test]
fn text_trigger_unmount_restores() {
    let (mut d, div, t1, t2) = two_paragraphs();
    let r = TextRange { start_node: t1, start_offset: 2, end_node: t2, end_offset: 5 };
    let m = TextMark::mount_on_text(&mut d, r).unwrap();
    let trig = m.make_permanent(&mut d, 21);
    let inner = d.child_nodes(trig.marks[0])[0];
    assert_eq!(TextPermanentTrigger::id(&d, inner), Some(21));
    trig.unmount(&mut d).unwrap();
    assert_eq!(text_of(&d, div), "Hello worldfoo bar");
    for &w in &trig.wrappers {
        assert_eq!(d.parent_node(w), None);
    }
}

#[test]
fn close_quality_follows_slot() {
    let (mut c, _) = controller_with_trigger(5);
    assert_eq!(c.triggers.get(&5).unwrap().close_quality(), None);
    c.annotation_arrived(5, Err(YaYaError::ClientError));
    assert_eq!(c.triggers.get(&5).unwrap().close_quality(), Some(false));
}

#[test]
fn whitespace_trimmed_from_content() {
    let (mut d, _, t) = paragraph("\u{3000}word\u{a0}");
    let m = WordMark::mount_on_text(&mut d, t, 2).unwrap();
    let trig = WordPermanentTrigger::make_permanent(&m, &mut d, 1);
    assert_eq!(trig.word(&d), "word");
}
