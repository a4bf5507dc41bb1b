use zipin::doc::Segment;
use zipin::layout::{cursor_position, layout_paragraph, ParagraphLayout, RowLayout, RowPiece};

fn segs(texts: &[&str]) -> Vec<Segment> {
    texts.iter().map(|t| Segment::Committed(t.to_string())).collect()
}

fn pieces(pl: &ParagraphLayout) -> Vec<Vec<(usize, usize, usize, usize, usize)>> {
    pl.rows
        .iter()
        .map(|r| {
            r.pieces
                .iter()
                .map(|p| (p.seg_idx, p.text_start, p.text_end, p.col_start, p.col_width))
                .collect()
        })
        .collect()
}

#[test]
fn empty_paragraph_has_one_empty_row() {
    let pl = layout_paragraph(&[], 10);
    assert_eq!(pieces(&pl), vec![Vec::new()]);
}

#[test]
fn segments_that_fit_share_a_row() {
    let pl = layout_paragraph(&segs(&["a", "b", "c"]), 2);
    assert_eq!(
        pieces(&pl),
        vec![vec![(0, 0, 1, 0, 1), (1, 0, 1, 1, 1)], vec![(2, 0, 1, 0, 1)]]
    );
}

#[test]
fn wide_char_that_lacks_room_moves_to_next_row() {
    let pl = layout_paragraph(&segs(&["你", "好"]), 3);
    assert_eq!(pieces(&pl), vec![vec![(0, 0, 3, 0, 2)], vec![(1, 0, 3, 0, 2)]]);
}

#[test]
fn char_wider_than_row_is_placed_alone() {
    let pl = layout_paragraph(&segs(&["你"]), 1);
    assert_eq!(pieces(&pl), vec![vec![(0, 0, 3, 0, 2)]]);
    let pl = layout_paragraph(&segs(&["a你"]), 1);
    assert_eq!(pieces(&pl), vec![vec![(0, 0, 1, 0, 1)], vec![(0, 1, 4, 0, 2)]]);
}

#[test]
fn zero_width_char_after_forced_char_is_kept() {
    let pl = layout_paragraph(&segs(&["你\u{200B}"]), 1);
    assert_eq!(pieces(&pl), vec![vec![(0, 0, 3, 0, 2)], vec![(0, 3, 6, 0, 0)]]);
}

#[test]
fn long_segment_is_split_by_chars() {
    let pl = layout_paragraph(&segs(&["abcdef"]), 4);
    assert_eq!(pieces(&pl), vec![vec![(0, 0, 4, 0, 4)], vec![(0, 4, 6, 0, 2)]]);
}

#[test]
fn split_uses_byte_offsets() {
    let pl = layout_paragraph(&segs(&["你好吗"]), 4);
    assert_eq!(pieces(&pl), vec![vec![(0, 0, 6, 0, 4)], vec![(0, 6, 9, 0, 2)]]);
}

#[test]
fn zero_width_is_treated_as_one_column() {
    let pl = layout_paragraph(&segs(&["ab"]), 0);
    assert_eq!(pieces(&pl), vec![vec![(0, 0, 1, 0, 1)], vec![(0, 1, 2, 0, 1)]]);
}

#[test]
fn full_row_starts_next_segment_on_new_row() {
    let pl = layout_paragraph(&segs(&["ab", "cde"]), 2);
    assert_eq!(
        pieces(&pl),
        vec![vec![(0, 0, 2, 0, 2)], vec![(1, 0, 2, 0, 2)], vec![(1, 2, 3, 0, 1)]]
    );
}

#[test]
fn cursor_position_finds_segment_start() {
    let pl = layout_paragraph(&segs(&["abcdef", "g"]), 4);
    assert_eq!(cursor_position(&pl, 0), (0, 0));
    assert_eq!(cursor_position(&pl, 1), (1, 2));
}

#[test]
fn cursor_position_past_last_segment() {
    let pl = layout_paragraph(&segs(&["ab", "c"]), 10);
    assert_eq!(cursor_position(&pl, 2), (0, 3));
    let empty = layout_paragraph(&[], 10);
    assert_eq!(cursor_position(&empty, 0), (0, 0));
}

#[test]
fn cursor_position_on_empty_layout() {
    let pl = ParagraphLayout::default();
    assert_eq!(cursor_position(&pl, 3), (0, 0));
    let mut pl2 = ParagraphLayout::default();
    pl2.rows.push(RowLayout::default());
    let mut piece = RowPiece::default();
    piece.col_start = 5;
    piece.col_width = 2;
    piece.seg_idx = 1;
    piece.text_start = 1;
    pl2.rows[0].pieces.push(piece.clone());
    assert_eq!(cursor_position(&pl2, 1), (0, 7));
}

#[test]
fn pieces_cover_every_text_in_order() {
    let texts = ["ab你", "", "\u{200B}x好好", "c"];
    for width in 0..6 {
        let pl = layout_paragraph(&segs(&texts), width);
        let flat: Vec<&RowPiece> = pl.rows.iter().flat_map(|r| r.pieces.iter()).collect();
        let mut expect_seg = 0;
        let mut expect_start = 0;
        for p in &flat {
            if p.seg_idx != expect_seg {
                assert_eq!(expect_start, texts[expect_seg].len());
                expect_seg += 1;
                expect_start = 0;
            }
            assert_eq!(p.seg_idx, expect_seg);
            assert_eq!(p.text_start, expect_start);
            assert!(p.text_start < p.text_end || texts[p.seg_idx].is_empty());
            expect_start = p.text_end;
        }
        assert_eq!(expect_seg, texts.len() - 1);
        assert_eq!(expect_start, texts[texts.len() - 1].len());
        let w = width.max(1);
        for r in &pl.rows {
            for p in &r.pieces {
                assert!(p.col_start + p.col_width <= w || p.col_start == 0 || p.col_width == 0);
            }
        }
    }
}

#[test]
fn cursor_positions_never_go_back() {
    let pl = layout_paragraph(&segs(&["你好", "a", "bcd", "", "e"]), 3);
    let mut prev = (0, 0);
    for t in 0..8 {
        let pos = cursor_position(&pl, t);
        assert!(pos >= prev);
        prev = pos;
    }
    assert_eq!(cursor_position(&pl, 5), cursor_position(&pl, 100));
}
