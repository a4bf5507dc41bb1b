use zipin::doc::{Doc, Segment};
use zipin::input::{
    classify, document_text, flush_run, full_width_punct, is_ascii_punct, is_full_width_punct,
    paste_text, CharKind,
};

fn texts(doc: &Doc) -> Vec<Vec<String>> {
    doc.paragraphs
        .iter()
        .map(|p| p.iter().map(|s| s.text().to_string()).collect())
        .collect()
}

#[test]
fn ascii_punctuation_set() {
    for c in [',', '.', '?', '!', ':', ';', '\'', '"'] {
        assert!(is_ascii_punct(c));
    }
    assert!(!is_ascii_punct('a'));
    assert!(!is_ascii_punct(' '));
    assert!(!is_ascii_punct('-'));
}

#[test]
fn full_width_mapping() {
    assert_eq!(full_width_punct(','), '，');
    assert_eq!(full_width_punct('.'), '。');
    assert_eq!(full_width_punct('?'), '？');
    assert_eq!(full_width_punct('!'), '！');
    assert_eq!(full_width_punct(':'), '：');
    assert_eq!(full_width_punct(';'), '；');
    assert_eq!(full_width_punct('\''), '＇');
    assert_eq!(full_width_punct('"'), '＂');
    assert_eq!(full_width_punct(' '), '\u{3000}');
    assert_eq!(full_width_punct('x'), 'x');
    assert!(is_full_width_punct('，'));
    assert!(is_full_width_punct('\u{3000}'));
    assert!(!is_full_width_punct(','));
}

#[test]
fn classify_kinds() {
    assert_eq!(classify('你'), CharKind::Cjk);
    assert_eq!(classify('\u{3400}'), CharKind::Cjk);
    assert_eq!(classify('\u{20000}'), CharKind::Cjk);
    assert_eq!(classify('a'), CharKind::Latin);
    assert_eq!(classify('7'), CharKind::Latin);
    assert_eq!(classify('。'), CharKind::Punct);
    assert_eq!(classify('?'), CharKind::Punct);
    assert_eq!(classify('é'), CharKind::Other);
    assert_eq!(classify(' '), CharKind::Other);
}

#[test]
fn paste_maps_punctuation_and_breaks_lines() {
    let mut doc = Doc::new();
    paste_text(&mut doc, "ab,c\n你好.");
    assert_eq!(
        texts(&doc),
        vec![
            vec!["a".to_string(), "b".to_string(), "，".to_string(), "c".to_string()],
            vec!["你".to_string(), "好".to_string(), "。".to_string()],
        ]
    );
    assert_eq!(doc.cursor, (1, 3));
}

#[test]
fn paste_into_middle_of_paragraph() {
    let mut doc = Doc::new();
    doc.insert_committed("xy".to_string());
    doc.cursor = (0, 1);
    paste_text(&mut doc, "1\n2");
    assert_eq!(
        texts(&doc),
        vec![
            vec!["x".to_string(), "1".to_string()],
            vec!["2".to_string(), "y".to_string()]
        ]
    );
    assert_eq!(doc.cursor, (1, 1));
}

#[test]
fn paste_empty_text_changes_nothing() {
    let mut doc = Doc::new();
    doc.insert_committed("a".to_string());
    paste_text(&mut doc, "");
    assert_eq!(texts(&doc), vec![vec!["a".to_string()]]);
    assert_eq!(doc.cursor, (0, 1));
}

#[test]
fn flush_run_inserts_pending_text() {
    let mut doc = Doc::new();
    let mut buf = "ab".to_string();
    let mut kind = Some(CharKind::Latin);
    flush_run(&mut doc, &mut buf, &mut kind);
    assert_eq!(texts(&doc), vec![vec!["a".to_string(), "b".to_string()]]);
    assert!(buf.is_empty());
    assert_eq!(kind, None);
    let mut kind2 = Some(CharKind::Cjk);
    flush_run(&mut doc, &mut buf, &mut kind2);
    assert_eq!(texts(&doc), vec![vec!["a".to_string(), "b".to_string()]]);
    assert_eq!(kind2, None);
}

#[test]
fn document_text_joins_paragraphs_and_trims_trailing_breaks() {
    let mut doc = Doc::new();
    doc.insert_committed("ab".to_string());
    doc.break_line();
    doc.insert_committed("c".to_string());
    doc.break_line();
    doc.break_line();
    assert_eq!(document_text(&doc), "ab\nc");
    let mut doc2 = Doc::new();
    doc2.break_line();
    doc2.insert_committed("z".to_string());
    assert_eq!(document_text(&doc2), "\nz");
    assert_eq!(document_text(&Doc::new()), "");
}

#[test]
fn document_text_includes_composition() {
    let mut doc = Doc::new();
    doc.insert_committed("a".to_string());
    doc.open_or_extend_composition('n');
    assert_eq!(document_text(&doc), "an");
    assert!(matches!(doc.paragraphs[0][1], Segment::Composing(_)));
}

fn doc_of(paragraphs: &[&[&str]], cursor: (usize, usize)) -> Doc {
    let mut doc = Doc::new();
    doc.paragraphs = paragraphs
        .iter()
        .map(|p| p.iter().map(|t| Segment::Committed(t.to_string())).collect())
        .collect();
    doc.cursor = cursor;
    doc
}

#[test]
fn break_line_puts_newline_into_text_at_cursor() {
    let mut doc = doc_of(&[&["你", "好"], &["ab"]], (0, 1));
    assert_eq!(document_text(&doc), "你好\nab");
    doc.break_line();
    assert_eq!(document_text(&doc), "你\n好\nab");
}

#[test]
fn insert_puts_text_into_text_at_cursor() {
    let mut doc = doc_of(&[&["a"], &["b", "c"]], (1, 1));
    doc.insert_committed("世界".to_string());
    assert_eq!(document_text(&doc), "a\nb世界c");
}

#[test]
fn delete_left_removes_segment_text_or_line_break() {
    let mut doc = doc_of(&[&["ab"], &["中", "文"]], (1, 1));
    doc.delete_segment_left();
    assert_eq!(document_text(&doc), "ab\n文");
    doc.delete_segment_left();
    assert_eq!(document_text(&doc), "ab文");
    assert_eq!(doc.cursor, (0, 1));
}

#[test]
fn pasting_one_line_equals_inserting_it_mapped() {
    let mut pasted = doc_of(&[&["x", "y"]], (0, 1));
    paste_text(&mut pasted, "a,你");
    let mut inserted = doc_of(&[&["x", "y"]], (0, 1));
    inserted.insert_committed("a，你".to_string());
    assert_eq!(texts(&pasted), texts(&inserted));
    assert_eq!(pasted.cursor, inserted.cursor);
}

#[test]
fn pasting_lines_equals_inserting_each_line() {
    let mut pasted = doc_of(&[&["x"]], (0, 1));
    paste_text(&mut pasted, "a.b你\n\nc!\n");
    let mut by_lines = doc_of(&[&["x"]], (0, 1));
    by_lines.insert_committed("a。b你".to_string());
    by_lines.break_line();
    by_lines.break_line();
    by_lines.insert_committed("c！".to_string());
    by_lines.break_line();
    assert_eq!(texts(&pasted), texts(&by_lines));
    assert_eq!(pasted.cursor, by_lines.cursor);
    assert_eq!(pasted.cursor, (3, 0));
}
