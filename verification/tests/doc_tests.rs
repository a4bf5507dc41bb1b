use zipin::doc::{Doc, Segment};

fn texts(doc: &Doc) -> Vec<Vec<String>> {
    doc.paragraphs
        .iter()
        .map(|p| p.iter().map(|s| s.text().to_string()).collect())
        .collect()
}

fn kinds(doc: &Doc, p: usize) -> Vec<bool> {
    doc.paragraphs[p]
        .iter()
        .map(|s| matches!(s, Segment::Composing(_)))
        .collect()
}

fn doc_from(paragraphs: &[&[&str]], cursor: (usize, usize)) -> Doc {
    let mut doc = Doc::new();
    doc.paragraphs = paragraphs
        .iter()
        .map(|p| p.iter().map(|t| Segment::Committed(t.to_string())).collect())
        .collect();
    doc.cursor = cursor;
    doc
}

#[test]
fn new_doc_is_one_empty_paragraph() {
    let doc = Doc::new();
    assert_eq!(doc.paragraphs.len(), 1);
    assert!(doc.paragraphs[0].is_empty());
    assert_eq!(doc.cursor, (0, 0));
    assert_eq!(doc.composing, None);
    assert_eq!(doc.scroll_offset, 0);
}

#[test]
fn clear_resets_everything() {
    let mut doc = doc_from(&[&["a", "b"], &["c"]], (1, 1));
    doc.scroll_offset = 7;
    doc.composing = Some((0, 0));
    doc.clear();
    assert_eq!(texts(&doc), vec![Vec::<String>::new()]);
    assert_eq!(doc.cursor, (0, 0));
    assert_eq!(doc.composing, None);
    assert_eq!(doc.scroll_offset, 0);
}

#[test]
fn open_then_extend_composition() {
    let mut doc = doc_from(&[&["a"]], (0, 1));
    doc.open_or_extend_composition('n');
    doc.open_or_extend_composition('i');
    assert_eq!(texts(&doc), vec![vec!["a".to_string(), "ni".to_string()]]);
    assert_eq!(kinds(&doc, 0), vec![false, true]);
    assert_eq!(doc.composing, Some((0, 1)));
    assert_eq!(doc.cursor, (0, 1));
}

#[test]
fn commit_composition_one_segment_per_char() {
    let mut doc = doc_from(&[&["a", "b"]], (0, 1));
    doc.open_or_extend_composition('n');
    doc.open_or_extend_composition('h');
    assert!(doc.commit_composition("你好".to_string()));
    assert_eq!(
        texts(&doc),
        vec![vec!["a".to_string(), "你".to_string(), "好".to_string(), "b".to_string()]]
    );
    assert_eq!(kinds(&doc, 0), vec![false, false, false, false]);
    assert_eq!(doc.cursor, (0, 3));
    assert_eq!(doc.composing, None);
}

#[test]
fn commit_without_composition_does_nothing() {
    let mut doc = doc_from(&[&["a"]], (0, 1));
    assert!(!doc.commit_composition("x".to_string()));
    assert_eq!(texts(&doc), vec![vec!["a".to_string()]]);
    assert_eq!(doc.cursor, (0, 1));
}

#[test]
fn commit_empty_text_removes_composition() {
    let mut doc = doc_from(&[&["a"]], (0, 0));
    doc.open_or_extend_composition('x');
    assert!(doc.commit_composition(String::new()));
    assert_eq!(texts(&doc), vec![vec!["a".to_string()]]);
    assert_eq!(doc.cursor, (0, 0));
    assert_eq!(doc.composing, None);
}

#[test]
fn shrink_drops_keystrokes_then_composition() {
    let mut doc = Doc::new();
    doc.open_or_extend_composition('n');
    doc.open_or_extend_composition('i');
    assert!(doc.shrink_composition());
    assert_eq!(texts(&doc), vec![vec!["n".to_string()]]);
    assert_eq!(doc.composing, Some((0, 0)));
    assert!(doc.shrink_composition());
    assert_eq!(texts(&doc), vec![Vec::<String>::new()]);
    assert_eq!(doc.composing, None);
    assert!(!doc.shrink_composition());
}

#[test]
fn shrink_undoes_open() {
    let mut doc = doc_from(&[&["a", "b"]], (0, 1));
    doc.open_or_extend_composition('z');
    assert!(doc.shrink_composition());
    assert_eq!(texts(&doc), vec![vec!["a".to_string(), "b".to_string()]]);
    assert_eq!(doc.cursor, (0, 1));
    assert_eq!(doc.composing, None);
}

#[test]
fn cancel_removes_composition() {
    let mut doc = doc_from(&[&["a"]], (0, 1));
    doc.open_or_extend_composition('q');
    doc.open_or_extend_composition('w');
    doc.cancel_composition();
    assert_eq!(texts(&doc), vec![vec!["a".to_string()]]);
    assert_eq!(doc.composing, None);
    assert_eq!(doc.cursor, (0, 1));
}

#[test]
fn insert_committed_shifts_composition_after_cursor() {
    let mut doc = Doc::new();
    doc.open_or_extend_composition('x');
    doc.insert_committed("ab".to_string());
    assert_eq!(
        texts(&doc),
        vec![vec!["a".to_string(), "b".to_string(), "x".to_string()]]
    );
    assert_eq!(doc.cursor, (0, 2));
    assert_eq!(doc.composing, Some((0, 2)));
}

#[test]
fn insert_in_two_steps_equals_once() {
    let mut a = doc_from(&[&["x", "y"]], (0, 1));
    let mut b = doc_from(&[&["x", "y"]], (0, 1));
    a.insert_committed("你".to_string());
    a.insert_committed("好!".to_string());
    b.insert_committed("你好!".to_string());
    assert_eq!(texts(&a), texts(&b));
    assert_eq!(a.cursor, b.cursor);
    assert_eq!(a.cursor, (0, 4));
}

#[test]
fn break_line_splits_at_cursor() {
    let mut doc = doc_from(&[&["a", "b", "c"]], (0, 1));
    doc.break_line();
    assert_eq!(
        texts(&doc),
        vec![vec!["a".to_string()], vec!["b".to_string(), "c".to_string()]]
    );
    assert_eq!(doc.cursor, (1, 0));
}

#[test]
fn break_line_moves_composition_after_cursor() {
    let mut doc = doc_from(&[&["a", "b"]], (0, 1));
    doc.open_or_extend_composition('k');
    doc.break_line();
    assert_eq!(doc.composing, Some((1, 0)));
    assert_eq!(kinds(&doc, 1), vec![true, false]);
}

#[test]
fn delete_left_undoes_break_line() {
    let mut doc = doc_from(&[&["a", "b", "c"], &["d"]], (0, 2));
    doc.break_line();
    doc.delete_segment_left();
    assert_eq!(
        texts(&doc),
        vec![
            vec!["a".to_string(), "b".to_string(), "c".to_string()],
            vec!["d".to_string()]
        ]
    );
    assert_eq!(doc.cursor, (0, 2));
}

#[test]
fn delete_left_removes_previous_segment() {
    let mut doc = doc_from(&[&["a", "b", "c"]], (0, 2));
    doc.delete_segment_left();
    assert_eq!(texts(&doc), vec![vec!["a".to_string(), "c".to_string()]]);
    assert_eq!(doc.cursor, (0, 1));
}

#[test]
fn delete_left_at_document_start_does_nothing() {
    let mut doc = doc_from(&[&["a"]], (0, 0));
    doc.delete_segment_left();
    assert_eq!(texts(&doc), vec![vec!["a".to_string()]]);
    assert_eq!(doc.cursor, (0, 0));
}

#[test]
fn delete_left_of_composition_moves_it() {
    let mut doc = doc_from(&[&["a", "b"]], (0, 1));
    doc.open_or_extend_composition('m');
    doc.delete_segment_left();
    assert_eq!(doc.composing, Some((0, 0)));
    assert_eq!(doc.cursor, (0, 0));
}

#[test]
fn delete_under_removes_composition_under_cursor() {
    let mut doc = doc_from(&[&["a"]], (0, 0));
    doc.open_or_extend_composition('m');
    doc.delete_segment_under();
    assert_eq!(doc.composing, None);
    assert_eq!(texts(&doc), vec![vec!["a".to_string()]]);
}

#[test]
fn delete_under_at_paragraph_end_joins_next() {
    let mut doc = doc_from(&[&["a"], &["b", "c"], &["d"]], (0, 1));
    doc.delete_segment_under();
    assert_eq!(
        texts(&doc),
        vec![
            vec!["a".to_string(), "b".to_string(), "c".to_string()],
            vec!["d".to_string()]
        ]
    );
    assert_eq!(doc.cursor, (0, 1));
}

#[test]
fn delete_under_at_document_end_does_nothing() {
    let mut doc = doc_from(&[&["a"]], (0, 1));
    doc.delete_segment_under();
    assert_eq!(texts(&doc), vec![vec!["a".to_string()]]);
}

#[test]
fn cursor_moves_cross_paragraphs() {
    let mut doc = doc_from(&[&["a", "b"], &["c"]], (0, 2));
    doc.move_cursor_right();
    assert_eq!(doc.cursor, (1, 0));
    doc.move_cursor_left();
    assert_eq!(doc.cursor, (0, 2));
    doc.move_cursor_home();
    assert_eq!(doc.cursor, (0, 0));
    doc.move_cursor_left();
    assert_eq!(doc.cursor, (0, 0));
    doc.move_cursor_end();
    assert_eq!(doc.cursor, (0, 2));
    doc.cursor = (1, 1);
    doc.move_cursor_right();
    assert_eq!(doc.cursor, (1, 1));
}

#[test]
fn shrink_with_cursor_after_composition_keeps_cursor_before_same_segment() {
    let mut doc = Doc::new();
    doc.open_or_extend_composition('a');
    doc.move_cursor_end();
    assert!(doc.shrink_composition());
    assert_eq!(doc.cursor, (0, 0));
    assert!(doc.cursor_is_valid());
    let mut doc = doc_from(&[&["x", "y"]], (0, 1));
    doc.open_or_extend_composition('n');
    doc.move_cursor_end();
    assert_eq!(doc.cursor, (0, 3));
    assert!(doc.shrink_composition());
    assert_eq!(doc.cursor, (0, 2));
    assert_eq!(texts(&doc), vec![vec!["x", "y"]]);
}

#[test]
fn cancel_with_cursor_after_composition_moves_cursor_back() {
    let mut doc = Doc::new();
    doc.open_or_extend_composition('a');
    doc.move_cursor_end();
    doc.cancel_composition();
    assert_eq!(texts(&doc), vec![Vec::<String>::new()]);
    assert_eq!(doc.composing, None);
    assert_eq!(doc.cursor, (0, 0));
    assert!(doc.is_well_formed());
}

#[test]
fn break_line_above_composition_moves_it_down() {
    let mut doc = doc_from(&[&["a"], &["b"]], (1, 1));
    doc.open_or_extend_composition('k');
    assert_eq!(doc.composing, Some((1, 1)));
    doc.cursor = (0, 0);
    doc.break_line();
    assert_eq!(doc.composing, Some((2, 1)));
    assert_eq!(kinds(&doc, 2), vec![false, true]);
    assert!(doc.is_well_formed());
}

#[test]
fn delete_left_undoes_insert() {
    let mut doc = doc_from(&[&["a", "b"]], (0, 1));
    doc.open_or_extend_composition('z');
    let before = texts(&doc);
    let (cursor, composing) = (doc.cursor, doc.composing);
    doc.insert_committed("你好!".to_string());
    for _ in 0..3 {
        doc.delete_segment_left();
    }
    assert_eq!(texts(&doc), before);
    assert_eq!(doc.cursor, cursor);
    assert_eq!(doc.composing, composing);
}

#[test]
fn validity_checks() {
    let mut doc = doc_from(&[&["a"]], (0, 1));
    assert!(doc.cursor_is_valid());
    assert!(doc.composing_is_valid());
    assert!(doc.can_insert(3));
    assert!(doc.can_join_left());
    assert!(doc.can_join_under());
    assert!(doc.can_move_left());
    doc.composing = Some((0, 5));
    assert!(!doc.composing_is_valid());
    doc.cursor = (3, 0);
    assert!(!doc.cursor_is_valid());
    assert!(!doc.cursor_paragraph_is_valid());
}

#[test]
fn segment_width_counts_columns() {
    assert_eq!(Segment::Committed("你".to_string()).width(), 2);
    assert_eq!(Segment::Composing("abc".to_string()).width(), 3);
    assert_eq!(Segment::Composing("abc".to_string()).text(), "abc");
}

#[test]
fn well_formedness_check() {
    let mut doc = doc_from(&[&["a", "b"], &["c"]], (1, 1));
    assert!(doc.is_well_formed());
    doc.paragraphs[0][1] = Segment::Composing("ni".to_string());
    assert!(!doc.is_well_formed());
    doc.composing = Some((0, 1));
    assert!(doc.is_well_formed());
    doc.paragraphs[0][1] = Segment::Composing(String::new());
    assert!(!doc.is_well_formed());
    doc.paragraphs[0][1] = Segment::Composing("ni".to_string());
    doc.paragraphs[1][0] = Segment::Composing("x".to_string());
    assert!(!doc.is_well_formed());
    doc.paragraphs[1][0] = Segment::Committed("c".to_string());
    doc.cursor = (1, 2);
    assert!(!doc.is_well_formed());
    doc.cursor = (0, 0);
    doc.composing = Some((0, 0));
    assert!(!doc.is_well_formed());
    doc.paragraphs.clear();
    doc.composing = None;
    assert!(!doc.is_well_formed());
}

#[test]
fn break_above_composition_keeps_a_single_composition() {
    let mut doc = doc_from(&[&["a"], &["b"]], (1, 1));
    doc.open_or_extend_composition('n');
    doc.cursor = (0, 0);
    doc.break_line();
    doc.open_or_extend_composition('i');
    assert_eq!(doc.composing, Some((2, 1)));
    assert_eq!(texts(&doc), vec![vec![], vec!["a"], vec!["b", "ni"]]);
    let composing: usize = doc.paragraphs.iter().map(|p| kinds_of(p)).sum();
    assert_eq!(composing, 1);
}

fn kinds_of(p: &[Segment]) -> usize {
    p.iter().filter(|s| matches!(s, Segment::Composing(_))).count()
}
