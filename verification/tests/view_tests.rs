use zipin::doc::Doc;
use zipin::engine::Candidate;
use zipin::view::{
    abs_diff, adjust_scroll, build_view, format_indicator, move_cursor_down, move_cursor_up, page_has_popup,
    place_cursor_at_row, popup_area, popup_index_for_key, popup_key_label, popup_line_order,
    popup_sections, popup_text_width, screen_cursor, scroll_down, scroll_up, scrollbar_cells,
    visible_row, Area, ViewInfo,
};

fn sample_doc() -> Doc {
    // paragraph 0: "abcdef" (wraps at width 4), paragraph 1: empty, paragraph 2: "gh"
    let mut doc = Doc::new();
    doc.insert_committed("abcdef".to_string());
    doc.break_line();
    doc.break_line();
    doc.insert_committed("gh".to_string());
    doc
}

#[test]
fn popup_keys_map_to_indices() {
    assert_eq!(popup_index_for_key('1'), Some(0));
    assert_eq!(popup_index_for_key('9'), Some(8));
    assert_eq!(popup_index_for_key('0'), Some(9));
    assert_eq!(popup_index_for_key('a'), None);
    assert_eq!(popup_key_label(0), '1');
    assert_eq!(popup_key_label(9), '0');
    assert_eq!(popup_key_label(10), '?');
}

#[test]
fn build_view_counts_rows_and_places_cursor() {
    let doc = sample_doc();
    let m = build_view(&doc, 4);
    assert_eq!(m.info.total_rows, 4);
    assert_eq!(m.paragraph_offsets, vec![0, 2, 3]);
    assert_eq!(m.lines, vec![(0, Some(0)), (0, Some(1)), (1, Some(0)), (2, Some(0))]);
    assert_eq!(m.info.cursor_row, 3);
    assert_eq!(m.info.cursor_col, 2);
    assert_eq!(m.info.layouts.len(), 3);
    assert_eq!(m.composition_anchor, None);
}

#[test]
fn build_view_anchors_composition() {
    let mut doc = Doc::new();
    doc.insert_committed("ab".to_string());
    doc.open_or_extend_composition('x');
    let m = build_view(&doc, 10);
    assert_eq!(m.composition_anchor, Some((0, 2)));
}

#[test]
fn vertical_moves_follow_rows() {
    let mut doc = sample_doc();
    let m = build_view(&doc, 4);
    move_cursor_up(&mut doc, &m.info);
    assert_eq!(doc.cursor, (1, 0));
    let m2 = build_view(&doc, 4);
    assert_eq!(m2.info.cursor_row, 2);
    move_cursor_up(&mut doc, &m2.info);
    assert_eq!(doc.cursor, (0, 4));
    let m3 = build_view(&doc, 4);
    assert_eq!((m3.info.cursor_row, m3.info.cursor_col), (1, 0));
    move_cursor_down(&mut doc, &m3.info);
    assert_eq!(doc.cursor, (1, 0));
    doc.cursor = (2, 2);
    let m4 = build_view(&doc, 4);
    move_cursor_down(&mut doc, &m4.info);
    assert_eq!(doc.cursor, (2, 2));
    doc.cursor = (0, 3);
    let m5 = build_view(&doc, 4);
    assert_eq!(m5.info.cursor_row, 0);
    move_cursor_up(&mut doc, &m5.info);
    assert_eq!(doc.cursor, (0, 0));
}

#[test]
fn place_cursor_picks_nearest_piece_and_clamps() {
    let mut doc = Doc::new();
    doc.insert_committed("abcd".to_string());
    let m = build_view(&doc, 10);
    place_cursor_at_row(&mut doc, &m.info, 0, 2);
    assert_eq!(doc.cursor, (0, 2));
    place_cursor_at_row(&mut doc, &m.info, 0, 9);
    assert_eq!(doc.cursor, (0, 3));
    place_cursor_at_row(&mut doc, &m.info, 5, 0);
    assert_eq!(doc.cursor, (0, 4));
    let empty = ViewInfo::default();
    doc.cursor = (0, 1);
    place_cursor_at_row(&mut doc, &empty, 0, 0);
    assert_eq!(doc.cursor, (0, 4));
}

#[test]
fn scrolling_keeps_cursor_visible() {
    assert_eq!(adjust_scroll(5, 2, 10), 2);
    assert_eq!(adjust_scroll(0, 12, 10), 3);
    assert_eq!(adjust_scroll(4, 8, 10), 4);
    assert_eq!(adjust_scroll(0, 0, 0), 0);
    assert_eq!(adjust_scroll(0, 3, 0), 3);
    assert_eq!(visible_row(7, 5, 3), Some(2));
    assert_eq!(visible_row(9, 5, 3), None);
    assert_eq!(visible_row(2, 5, 3), Some(0));
    assert_eq!(screen_cursor(7, 4, 5, 3, 10), Some((4, 2)));
    assert_eq!(screen_cursor(7, 11, 5, 3, 10), None);
    assert_eq!(abs_diff(3, 7), 4);
}

#[test]
fn ctrl_scroll_bounds() {
    let mut doc = Doc::new();
    scroll_up(&mut doc);
    assert_eq!(doc.scroll_offset, 0);
    scroll_down(&mut doc, 3);
    assert_eq!(doc.scroll_offset, 1);
    scroll_down(&mut doc, 3);
    scroll_down(&mut doc, 3);
    assert_eq!(doc.scroll_offset, 2);
    scroll_up(&mut doc);
    assert_eq!(doc.scroll_offset, 1);
    scroll_down(&mut doc, 0);
    assert_eq!(doc.scroll_offset, 0);
}

#[test]
fn scrollbar_thumb() {
    // h = 10, total = 30: thumb = ceil(100 / 40) = 3; room 7; max_off 29
    let cells = scrollbar_cells(30, 10, 0);
    assert_eq!(cells, vec![true, true, true, false, false, false, false, false, false, false]);
    let end = scrollbar_cells(30, 10, 29);
    assert_eq!(end, vec![false, false, false, false, false, false, false, true, true, true]);
    let mid = scrollbar_cells(30, 10, 15);
    // 7 * 15 / 29 = 3
    assert_eq!(mid.iter().position(|&c| c), Some(3));
}

#[test]
fn popup_drops_down_in_upper_half() {
    let doc = Area { x: 0, y: 0, width: 40, height: 20 };
    let (r, reverse) = popup_area(doc, 2, 5, 20, 6, 3);
    assert!(!reverse);
    assert_eq!(r, Area { x: 5, y: 3, width: 8, height: 6 });
}

#[test]
fn popup_flips_up_in_lower_half() {
    let doc = Area { x: 0, y: 0, width: 40, height: 20 };
    let (r, reverse) = popup_area(doc, 15, 38, 20, 6, 3);
    assert!(reverse);
    assert_eq!(r, Area { x: 32, y: 9, width: 8, height: 6 });
}

#[test]
fn popup_is_clipped_to_screen_bottom() {
    let doc = Area { x: 0, y: 0, width: 40, height: 20 };
    let (r, reverse) = popup_area(doc, 9, 0, 20, 4, 9);
    assert!(!reverse);
    assert_eq!(r, Area { x: 0, y: 10, width: 6, height: 10 });
}

#[test]
fn popup_sections_place_indicator() {
    let inner = Area { x: 1, y: 1, width: 6, height: 4 };
    let (c, i) = popup_sections(inner, false);
    assert_eq!(c, Area { x: 1, y: 1, width: 6, height: 3 });
    assert_eq!(i, Area { x: 1, y: 4, width: 5, height: 1 });
    let (c2, i2) = popup_sections(inner, true);
    assert_eq!(c2, Area { x: 1, y: 2, width: 6, height: 3 });
    assert_eq!(i2, Area { x: 1, y: 1, width: 5, height: 1 });
}

#[test]
fn popup_lines_in_screen_order() {
    assert_eq!(popup_line_order(3, 10, false), vec![0, 1, 2]);
    assert_eq!(popup_line_order(3, 10, true), vec![2, 1, 0]);
    assert_eq!(popup_line_order(5, 3, false), vec![0, 1]);
    assert_eq!(popup_line_order(5, 0, false), Vec::<usize>::new());
}

#[test]
fn page_indicator_arrows() {
    assert_eq!(format_indicator(false, false), "");
    assert_eq!(format_indicator(false, true), "→");
    assert_eq!(format_indicator(true, false), "←");
    assert_eq!(format_indicator(true, true), "← →");
}

#[test]
fn popup_label_width() {
    let cands = vec![
        Candidate { text: "你好".to_string() },
        Candidate { text: "a".to_string() },
    ];
    assert_eq!(popup_text_width(&cands), Some(6));
    assert_eq!(popup_text_width(&[]), Some(4));
}

#[test]
fn popup_only_for_pages_with_candidates() {
    assert!(!page_has_popup(0));
    assert!(page_has_popup(1));
    assert!(page_has_popup(10));
}
