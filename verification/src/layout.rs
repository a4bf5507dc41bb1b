//! Wrapping a paragraph's segments into rows of display columns.

use vstd::prelude::*;
use vstd::utf8::encode_utf8;
use crate::doc::{Segment, SegmentView};
use crate::text::{
    byte_len, byte_offset, char_utf8_len, char_w, char_width, chars_of, lemma_byte_offset_bounded,
    lemma_byte_offset_step, spec_str_width,
};

verus! {

/// One paragraph laid out into visual rows. Each row carries pieces that
/// reference back to the source segments.
#[derive(Debug)]
pub struct ParagraphLayout {
    pub rows: Vec<RowLayout>,
}

#[derive(Debug)]
pub struct RowLayout {
    pub pieces: Vec<RowPiece>,
}

/// A run of one segment's text placed on a row: bytes `text_start..text_end`
/// of the segment, in columns `col_start..col_start + col_width`.
#[derive(Debug)]
pub struct RowPiece {
    pub seg_idx: usize,
    pub text_start: usize,
    pub text_end: usize,
    pub col_start: usize,
    pub col_width: usize,
}

/// A row piece as a mathematical value.
pub struct PieceView {
    pub seg_idx: nat,
    pub text_start: nat,
    pub text_end: nat,
    pub col_start: nat,
    pub col_width: nat,
}

impl View for RowPiece {
    type V = PieceView;

    open spec fn view(&self) -> PieceView {
        PieceView {
            seg_idx: self.seg_idx as nat,
            text_start: self.text_start as nat,
            text_end: self.text_end as nat,
            col_start: self.col_start as nat,
            col_width: self.col_width as nat,
        }
    }
}

pub open spec fn pieces_view(v: Seq<RowPiece>) -> Seq<PieceView> {
    v.map_values(|p: RowPiece| p@)
}

pub open spec fn rows_view(v: Seq<RowLayout>) -> Seq<Seq<PieceView>> {
    v.map_values(|r: RowLayout| pieces_view(r.pieces@))
}

impl View for ParagraphLayout {
    type V = Seq<Seq<PieceView>>;

    open spec fn view(&self) -> Seq<Seq<PieceView>> {
        rows_view(self.rows@)
    }
}

impl Clone for RowPiece {
    fn clone(&self) -> (r: Self)
        ensures
            r@ == self@,
    {
        RowPiece {
            seg_idx: self.seg_idx,
            text_start: self.text_start,
            text_end: self.text_end,
            col_start: self.col_start,
            col_width: self.col_width,
        }
    }
}

impl Default for RowPiece {
    fn default() -> (r: Self)
        ensures
            r@ == (PieceView { seg_idx: 0, text_start: 0, text_end: 0, col_start: 0, col_width: 0 }),
    {
        RowPiece { seg_idx: 0, text_start: 0, text_end: 0, col_start: 0, col_width: 0 }
    }
}

impl Default for RowLayout {
    fn default() -> (r: Self)
        ensures
            r.pieces@.len() == 0,
    {
        RowLayout { pieces: Vec::new() }
    }
}

impl Default for ParagraphLayout {
    fn default() -> (r: Self)
        ensures
            r@.len() == 0,
    {
        ParagraphLayout { rows: Vec::new() }
    }
}

/// The texts of a row of segments.
pub open spec fn seg_texts(p: Seq<SegmentView>) -> Seq<Seq<char>> {
    p.map_values(|s: SegmentView| s.text())
}

/// The state of the wrap after some segments: finished rows, the row being
/// filled, and the next free column on it.
#[verifier::ext_equal]
pub struct LayoutState {
    pub done: Seq<Seq<PieceView>>,
    pub cur: Seq<PieceView>,
    pub col: nat,
}

pub open spec fn start_state() -> LayoutState {
    LayoutState { done: seq![], cur: seq![], col: 0 }
}

/// The current row is finished and an empty one begins.
pub open spec fn new_row(st: LayoutState) -> LayoutState {
    LayoutState { done: st.done.push(st.cur), cur: seq![], col: 0 }
}

pub open spec fn sat_sub(a: nat, b: nat) -> nat {
    if a >= b {
        (a - b) as nat
    } else {
        0
    }
}

/// How many characters of `text`, from index `i`, fit one after another into
/// `room` columns, stopping at the first that does not.
pub open spec fn fit_count(text: Seq<char>, i: int, room: nat) -> nat
    decreases text.len() - i,
{
    if 0 <= i < text.len() && char_w(text[i]) <= room {
        1 + fit_count(text, i + 1, (room - char_w(text[i])) as nat)
    } else {
        0
    }
}

/// The columns taken by the characters that `fit_count` counts.
pub open spec fn fit_width(text: Seq<char>, i: int, room: nat) -> nat
    decreases text.len() - i,
{
    if 0 <= i < text.len() && char_w(text[i]) <= room {
        char_w(text[i]) + fit_width(text, i + 1, (room - char_w(text[i])) as nat)
    } else {
        0
    }
}

pub proof fn lemma_fit_width_positive(text: Seq<char>, i: int, room: nat)
    ensures
        fit_width(text, i, room) > 0 ==> fit_count(text, i, room) > 0,
        fit_width(text, i, room) <= room,
        i + fit_count(text, i, room) <= text.len() || fit_count(text, i, room) == 0,
    decreases text.len() - i,
{
    if 0 <= i < text.len() && char_w(text[i]) <= room {
        lemma_fit_width_positive(text, i + 1, (room - char_w(text[i])) as nat);
    }
}

/// A segment too wide for the rest of its row, split by characters from index
/// `i` on, continuing on new rows. Each piece takes the characters that fit in
/// the rest of the row; a character that does not fit moves to a new row, and
/// one wider than a whole row is placed alone at the start of a row.
pub open spec fn split_segment(st: LayoutState, seg_idx: nat, text: Seq<char>, i: int, width: nat) -> LayoutState
    decreases text.len() - i, (if st.col > 0 { 1int } else { 0int }),
    when width > 0 && 0 <= i
{
    if i >= text.len() {
        st
    } else if st.col >= width {
        split_segment(new_row(st), seg_idx, text, i, width)
    } else {
        let room = (width - st.col) as nat;
        let k0 = fit_count(text, i, room);
        if k0 == 0 && st.col > 0 {
            split_segment(new_row(st), seg_idx, text, i, width)
        } else {
            let k = if k0 == 0 { 1 } else { k0 };
            let w = if k0 == 0 { char_w(text[i]) } else { fit_width(text, i, room) };
            let piece = PieceView {
                seg_idx,
                text_start: byte_offset(text, i),
                text_end: byte_offset(text, i + k),
                col_start: st.col,
                col_width: w,
            };
            let st2 = LayoutState { cur: st.cur.push(piece), col: st.col + w, ..st };
            proof {
                lemma_fit_width_positive(text, i, room);
            }
            if i + k < text.len() {
                split_segment(new_row(st2), seg_idx, text, i + k, width)
            } else {
                st2
            }
        }
    }
}

/// The display width of a segment's text (an empty text takes no columns).
pub open spec fn seg_width(text: Seq<char>) -> nat {
    if text.len() == 0 {
        0
    } else {
        spec_str_width(text) as nat
    }
}

/// Places one segment: whole where it fits in the rest of the row, else split.
pub open spec fn lay_segment(st: LayoutState, seg_idx: nat, text: Seq<char>, width: nat) -> LayoutState {
    let seg_w = seg_width(text);
    if seg_w <= sat_sub(width, st.col) {
        LayoutState {
            cur: st.cur.push(
                PieceView {
                    seg_idx,
                    text_start: 0,
                    text_end: encode_utf8(text).len(),
                    col_start: st.col,
                    col_width: seg_w,
                },
            ),
            col: st.col + seg_w,
            ..st
        }
    } else {
        split_segment(st, seg_idx, text, 0, width)
    }
}

/// The wrap state after the first `n` segments.
pub open spec fn lay_prefix(texts: Seq<Seq<char>>, n: nat, width: nat) -> LayoutState
    decreases n,
{
    if n == 0 {
        start_state()
    } else {
        lay_segment(lay_prefix(texts, (n - 1) as nat, width), (n - 1) as nat, texts[n - 1], width)
    }
}

/// The rows of the greedy wrap of `texts` into `width` columns (at least one).
pub open spec fn layout_rows(texts: Seq<Seq<char>>, width: nat) -> Seq<Seq<PieceView>> {
    let w = if width == 0 { 1 } else { width };
    let st = lay_prefix(texts, texts.len(), w);
    st.done.push(st.cur)
}

/// The wrap state held in the vectors being filled.
pub open spec fn state_of(done: Seq<RowLayout>, cur: Seq<RowPiece>, col: usize) -> LayoutState {
    LayoutState { done: rows_view(done), cur: pieces_view(cur), col: col as nat }
}

/// The piece ends within `width` columns; or it starts a row and is at most
/// 3 columns wide (a character wider than the whole row); or it takes no
/// columns, right after such a character.
pub open spec fn piece_fits(p: PieceView, width: int) -> bool {
    ||| p.col_start + p.col_width <= width
    ||| (p.col_start == 0 && p.col_width <= 3)
    ||| (p.col_width == 0 && p.col_start <= width + 3)
}

pub open spec fn pieces_fit(v: Seq<PieceView>, width: int) -> bool {
    forall|j: int| 0 <= j < v.len() ==> piece_fits(#[trigger] v[j], width)
}

pub open spec fn rows_fit(rows: Seq<Seq<PieceView>>, width: int) -> bool {
    forall|r: int| 0 <= r < rows.len() ==> pieces_fit(#[trigger] rows[r], width)
}

proof fn lemma_fit_push(v: Seq<PieceView>, p: PieceView, width: int)
    requires
        pieces_fit(v, width),
        piece_fits(p, width),
    ensures
        pieces_fit(v.push(p), width),
{
    assert forall|j: int| 0 <= j < v.push(p).len() implies piece_fits(#[trigger] v.push(p)[j], width) by {
        if j < v.len() {
            assert(v.push(p)[j] == v[j]);
        }
    }
}

proof fn lemma_fit_bounded(rows: Seq<Seq<PieceView>>, width: int)
    requires
        rows_fit(rows, width),
        width >= 0,
    ensures
        rows_bounded(rows, width + 3),
{
    assert forall|r: int| 0 <= r < rows.len() implies pieces_bounded(#[trigger] rows[r], width + 3) by {
        assert forall|j: int| 0 <= j < rows[r].len() implies #[trigger] rows[r][j].col_start + rows[r][j].col_width
            <= width + 3 by {
            assert(pieces_fit(rows[r], width));
            assert(piece_fits(rows[r][j], width));
        }
    }
}

/// Every piece ends at or before column `bound`.
pub open spec fn pieces_bounded(v: Seq<PieceView>, bound: int) -> bool {
    forall|j: int| 0 <= j < v.len() ==> #[trigger] v[j].col_start + v[j].col_width <= bound
}

pub open spec fn rows_bounded(rows: Seq<Seq<PieceView>>, bound: int) -> bool {
    forall|r: int| 0 <= r < rows.len() ==> pieces_bounded(#[trigger] rows[r], bound)
}

proof fn lemma_state_new_row(done: Seq<RowLayout>, cur: Vec<RowPiece>, col: usize)
    ensures
        state_of(done.push(RowLayout { pieces: cur }), Seq::empty(), 0) == new_row(state_of(done, cur@, col)),
{
    assert(rows_view(done.push(RowLayout { pieces: cur })) =~= rows_view(done).push(pieces_view(cur@)));
    assert(pieces_view(Seq::<RowPiece>::empty()) =~= Seq::<PieceView>::empty());
}

proof fn lemma_state_push(done: Seq<RowLayout>, cur: Seq<RowPiece>, col: usize, p: RowPiece, col2: usize)
    ensures
        state_of(done, cur.push(p), col2) == (LayoutState {
            cur: state_of(done, cur, col).cur.push(p@),
            col: col2 as nat,
            ..state_of(done, cur, col)
        }),
{
    assert(pieces_view(cur.push(p)) =~= pieces_view(cur).push(p@));
}

/// Greedy display-column wrap. Segments wider than `width` are split by chars
/// so they continue on the next row.
pub fn layout_paragraph(paragraph: &[Segment], width: usize) -> (pl: ParagraphLayout)
    ensures
        pl@ == layout_rows(seg_texts(paragraph@.map_values(|s: Segment| s@)), width as nat),
        pl@.len() >= 1,
        rows_fit(pl@, if width == 0 { 1int } else { width as int }),
        rows_bounded(pl@, (if width == 0 { 1 } else { width }) + 3),
{
    let ghost texts = seg_texts(paragraph@.map_values(|s: Segment| s@));
    let width = if width == 0 { 1 } else { width };
    let mut done: Vec<RowLayout> = Vec::new();
    let mut cur: Vec<RowPiece> = Vec::new();
    let mut col: usize = 0;
    let mut seg_idx: usize = 0;
    proof {
        assert(state_of(done@, cur@, col) =~= start_state());
    }
    while seg_idx < paragraph.len()
        invariant
            seg_idx <= paragraph@.len(),
            1 <= width,
            texts == seg_texts(paragraph@.map_values(|s: Segment| s@)),
            state_of(done@, cur@, col) == lay_prefix(texts, seg_idx as nat, width as nat),
            col <= width + 3,
            rows_fit(rows_view(done@), width as int),
            pieces_fit(pieces_view(cur@), width as int),
        decreases paragraph@.len() - seg_idx,
    {
        let seg = &paragraph[seg_idx];
        let text = seg.text();
        let seg_w = if text.is_empty() { 0 } else { seg.width() };
        let ghost st0 = state_of(done@, cur@, col);
        assert(text@ == texts[seg_idx as int]);
        let room = if col <= width { width - col } else { 0 };
        if seg_w <= room {
            let piece = RowPiece {
                seg_idx,
                text_start: 0,
                text_end: byte_len(text),
                col_start: col,
                col_width: seg_w,
            };
            proof {
                lemma_state_push(done@, cur@, col, piece, (col + seg_w) as usize);
                assert(pieces_view(cur@.push(piece)) =~= pieces_view(cur@).push(piece@));
                lemma_fit_push(pieces_view(cur@), piece@, width as int);
            }
            cur.push(piece);
            col = col + seg_w;
        } else {
            let chars = chars_of(text);
            let total = byte_len(text);
            proof {
                lemma_byte_offset_bounded(chars@, 0);
            }
            let mut ci: usize = 0;
            let mut byte_cursor: usize = 0;
            while ci < chars.len()
                invariant
                    byte_cursor == byte_offset(chars@, ci as int),
                    1 <= width,
                    chars@ == text@,
                    total == encode_utf8(chars@).len(),
                    ci <= chars@.len(),
                    split_segment(state_of(done@, cur@, col), seg_idx as nat, chars@, ci as int, width as nat)
                        == split_segment(st0, seg_idx as nat, chars@, 0, width as nat),
                    col <= width + 3,
                    rows_fit(rows_view(done@), width as int),
                    pieces_fit(pieces_view(cur@), width as int),
                decreases chars@.len() - ci, (if col > 0 { 1int } else { 0int }),
            {
                let avail = if col <= width { width - col } else { 0 };
                if avail == 0 {
                    proof {
                        lemma_state_new_row(done@, cur, col);
                    }
                    done.push(RowLayout { pieces: cur });
                    cur = Vec::new();
                    col = 0;
                    continue;
                }
                let piece_start = byte_cursor;
                let mut piece_w: usize = 0;
                let mut j: usize = ci;
                while j < chars.len()
                    invariant
                        ci <= j <= chars@.len(),
                        chars@ == text@,
                        total == encode_utf8(chars@).len(),
                        avail <= width,
                        piece_w <= avail,
                        (j - ci) + fit_count(chars@, j as int, (avail - piece_w) as nat) == fit_count(
                            chars@,
                            ci as int,
                            avail as nat,
                        ),
                        piece_w + fit_width(chars@, j as int, (avail - piece_w) as nat) == fit_width(
                            chars@,
                            ci as int,
                            avail as nat,
                        ),
                        byte_cursor == byte_offset(chars@, j as int),
                    ensures
                        ci <= j <= chars@.len(),
                        piece_w <= avail,
                        fit_count(chars@, ci as int, avail as nat) == j - ci,
                        fit_width(chars@, ci as int, avail as nat) == piece_w,
                        byte_cursor == byte_offset(chars@, j as int),
                    decreases chars@.len() - j,
                {
                    let cw = char_width(chars[j]);
                    if cw > avail - piece_w {
                        break;
                    }
                    proof {
                        lemma_byte_offset_step(chars@, j as int);
                        lemma_byte_offset_bounded(chars@, j + 1);
                    }
                    piece_w = piece_w + cw;
                    byte_cursor = byte_cursor + char_utf8_len(chars[j]);
                    j = j + 1;
                }
                if j == ci {
                    if col > 0 {
                        // The character only lacks room: it starts the next row.
                        proof {
                            lemma_state_new_row(done@, cur, col);
                        }
                        done.push(RowLayout { pieces: cur });
                        cur = Vec::new();
                        col = 0;
                        continue;
                    }
                    // A character wider than the whole row is placed alone.
                    proof {
                        lemma_byte_offset_step(chars@, j as int);
                        lemma_byte_offset_bounded(chars@, j + 1);
                    }
                    piece_w = char_width(chars[j]);
                    byte_cursor = byte_cursor + char_utf8_len(chars[j]);
                    j = j + 1;
                }
                let piece = RowPiece {
                    seg_idx,
                    text_start: piece_start,
                    text_end: byte_cursor,
                    col_start: col,
                    col_width: piece_w,
                };
                proof {
                    lemma_state_push(done@, cur@, col, piece, (col + piece_w) as usize);
                    lemma_fit_width_positive(chars@, ci as int, avail as nat);
                }
                cur.push(piece);
                col = col + piece_w;
                ci = j;
                if ci < chars.len() {
                    proof {
                        lemma_state_new_row(done@, cur, col);
                    }
                    done.push(RowLayout { pieces: cur });
                    cur = Vec::new();
                    col = 0;
                }
            }
        }
        seg_idx = seg_idx + 1;
    }
    proof {
        lemma_state_new_row(done@, cur, col);
    }
    done.push(RowLayout { pieces: cur });
    proof {
        assert(rows_view(done@) =~= rows_view(done@.drop_last()).push(pieces_view(cur@)));
        lemma_fit_bounded(rows_view(done@), width as int);
    }
    ParagraphLayout { rows: done }
}

/// Piece `j` of row `r` begins segment `target` (starts at its byte 0).
pub open spec fn starts_segment(pl: Seq<Seq<PieceView>>, r: int, j: int, target: nat) -> bool {
    &&& 0 <= r < pl.len()
    &&& 0 <= j < pl[r].len()
    &&& pl[r][j].seg_idx == target
    &&& pl[r][j].text_start == 0
}

/// Piece `j` of row `r` is the first, in reading order, that begins segment `target`.
pub open spec fn first_start(pl: Seq<Seq<PieceView>>, r: int, j: int, target: nat) -> bool {
    &&& starts_segment(pl, r, j, target)
    &&& forall|r2: int, j2: int|
        (r2 < r || (r2 == r && j2 < j)) ==> !#[trigger] starts_segment(pl, r2, j2, target)
}

pub open spec fn has_start(pl: Seq<Seq<PieceView>>, target: nat) -> bool {
    exists|r: int, j: int| #[trigger] starts_segment(pl, r, j, target)
}

/// The column just past the last piece of the last row (0 where that row is empty).
pub open spec fn end_col(pl: Seq<Seq<PieceView>>) -> nat {
    let last = pl.last();
    if last.len() == 0 {
        0
    } else {
        last.last().col_start + last.last().col_width
    }
}

/// Where `cursor_position` puts a cursor before segment `t`.
pub open spec fn cursor_pos(pl: Seq<Seq<PieceView>>, t: nat) -> (nat, nat) {
    if pl.len() == 0 {
        (0, 0)
    } else if has_start(pl, t) {
        let (a, b) = choose|a: int, b: int| first_start(pl, a, b, t);
        (a as nat, pl[a][b].col_start)
    } else {
        ((pl.len() - 1) as nat, end_col(pl))
    }
}

/// There is at most one first piece beginning a segment.
pub proof fn lemma_first_start_unique(pl: Seq<Seq<PieceView>>, t: nat, a: int, b: int, c: int, d: int)
    requires
        first_start(pl, a, b, t),
        first_start(pl, c, d, t),
    ensures
        a == c && b == d,
{
    if a < c || (a == c && b < d) {
        assert(!starts_segment(pl, a, b, t));
    } else if c < a || (a == c && d < b) {
        assert(!starts_segment(pl, c, d, t));
    }
}

/// Returns `(row_in_paragraph, col_on_row)` for the cursor pointing at
/// `target_seg`. If the cursor sits past the last segment, returns the row
/// and column just past the final piece.
pub fn cursor_position(pl: &ParagraphLayout, target_seg: usize) -> (r: (usize, usize))
    requires
        pl@.len() > 0 && !has_start(pl@, target_seg as nat) ==> end_col(pl@) <= usize::MAX,
    ensures
        pl@.len() == 0 ==> r == (0usize, 0usize),
        pl@.len() > 0 && has_start(pl@, target_seg as nat) ==> exists|a: int, b: int|
            first_start(pl@, a, b, target_seg as nat) && r.0 == a && r.1 == pl@[a][b].col_start,
        pl@.len() > 0 && !has_start(pl@, target_seg as nat) ==> r.0 == pl@.len() - 1 && r.1 == end_col(pl@),
        r.0 as nat == cursor_pos(pl@, target_seg as nat).0,
        r.1 as nat == cursor_pos(pl@, target_seg as nat).1,
        pl@.len() > 0 ==> r.0 < pl@.len(),
{
    if pl.rows.len() == 0 {
        return (0, 0);
    }
    let ghost v = pl@;
    let mut row_idx: usize = 0;
    while row_idx < pl.rows.len()
        invariant
            v == pl@,
            row_idx <= pl.rows@.len(),
            forall|r2: int, j2: int| r2 < row_idx ==> !#[trigger] starts_segment(v, r2, j2, target_seg as nat),
        decreases pl.rows@.len() - row_idx,
    {
        let row = &pl.rows[row_idx];
        let mut j: usize = 0;
        while j < row.pieces.len()
            invariant
                v == pl@,
                row_idx < pl.rows@.len(),
                row == pl.rows@[row_idx as int],
                j <= row.pieces@.len(),
                forall|r2: int, j2: int| r2 < row_idx ==> !#[trigger] starts_segment(v, r2, j2, target_seg as nat),
                forall|j2: int| j2 < j ==> !#[trigger] starts_segment(v, row_idx as int, j2, target_seg as nat),
            decreases row.pieces@.len() - j,
        {
            let piece = &row.pieces[j];
            if piece.seg_idx == target_seg && piece.text_start == 0 {
                proof {
                    assert(v[row_idx as int][j as int] == piece@);
                    assert(first_start(v, row_idx as int, j as int, target_seg as nat));
                    let (a, b) = choose|a: int, b: int| first_start(v, a, b, target_seg as nat);
                    lemma_first_start_unique(v, target_seg as nat, a, b, row_idx as int, j as int);
                }
                return (row_idx, piece.col_start);
            }
            assert(v[row_idx as int][j as int] == piece@);
            j = j + 1;
        }
        proof {
            assert forall|j2: int| !#[trigger] starts_segment(v, row_idx as int, j2, target_seg as nat) by {
                if 0 <= j2 < v[row_idx as int].len() {
                    assert(j2 < j);
                }
            }
        }
        row_idx = row_idx + 1;
    }
    let last_row_idx = pl.rows.len() - 1;
    let last_row = &pl.rows[last_row_idx];
    assert(v[last_row_idx as int] == pieces_view(last_row.pieces@));
    let col = if last_row.pieces.len() == 0 {
        0
    } else {
        let p = &last_row.pieces[last_row.pieces.len() - 1];
        assert(v.last().last() == p@);
        p.col_start + p.col_width
    };
    (last_row_idx, col)
}

/// The pieces of a row sit side by side from column 0: each starts where the
/// previous one ends.
pub open spec fn row_contiguous(row: Seq<PieceView>) -> bool {
    forall|j: int|
        0 <= j < row.len() ==> #[trigger] row[j].col_start == (if j == 0 {
            0
        } else {
            row[j - 1].col_start + row[j - 1].col_width
        })
}

/// Finished rows and the current row are contiguous, and the next free column
/// is where the current row ends.
pub open spec fn state_contiguous(st: LayoutState) -> bool {
    &&& forall|r: int| 0 <= r < st.done.len() ==> row_contiguous(#[trigger] st.done[r])
    &&& row_contiguous(st.cur)
    &&& st.col == (if st.cur.len() == 0 {
        0
    } else {
        st.cur.last().col_start + st.cur.last().col_width
    })
}

proof fn lemma_push_contiguous(st: LayoutState, piece: PieceView)
    requires
        state_contiguous(st),
        piece.col_start == st.col,
    ensures
        state_contiguous(LayoutState { cur: st.cur.push(piece), col: piece.col_start + piece.col_width, ..st }),
{
    let c2 = st.cur.push(piece);
    assert forall|j: int| 0 <= j < c2.len() implies #[trigger] c2[j].col_start == (if j == 0 {
        0
    } else {
        c2[j - 1].col_start + c2[j - 1].col_width
    }) by {
        if j < st.cur.len() {
            assert(c2[j] == st.cur[j]);
        }
    }
}

proof fn lemma_new_row_contiguous(st: LayoutState)
    requires
        state_contiguous(st),
    ensures
        state_contiguous(new_row(st)),
{
    let n = new_row(st);
    assert forall|r: int| 0 <= r < n.done.len() implies row_contiguous(#[trigger] n.done[r]) by {
        if r < st.done.len() {
            assert(n.done[r] == st.done[r]);
        }
    }
}

proof fn lemma_split_contiguous(st: LayoutState, seg_idx: nat, text: Seq<char>, i: int, width: nat)
    requires
        state_contiguous(st),
        width > 0,
        0 <= i,
    ensures
        state_contiguous(split_segment(st, seg_idx, text, i, width)),
    decreases text.len() - i, (if st.col > 0 { 1int } else { 0int }),
{
    if i >= text.len() {
    } else if st.col >= width {
        lemma_new_row_contiguous(st);
        lemma_split_contiguous(new_row(st), seg_idx, text, i, width);
    } else {
        let room = (width - st.col) as nat;
        let k0 = fit_count(text, i, room);
        lemma_fit_width_positive(text, i, room);
        if k0 == 0 && st.col > 0 {
            lemma_new_row_contiguous(st);
            lemma_split_contiguous(new_row(st), seg_idx, text, i, width);
        } else {
            let k = if k0 == 0 { 1 } else { k0 };
            let w = if k0 == 0 { char_w(text[i]) } else { fit_width(text, i, room) };
            let piece = PieceView {
                seg_idx,
                text_start: byte_offset(text, i),
                text_end: byte_offset(text, i + k),
                col_start: st.col,
                col_width: w,
            };
            let st2 = LayoutState { cur: st.cur.push(piece), col: st.col + w, ..st };
            lemma_push_contiguous(st, piece);
            if i + k < text.len() {
                lemma_new_row_contiguous(st2);
                lemma_split_contiguous(new_row(st2), seg_idx, text, i + k, width);
            }
        }
    }
}

proof fn lemma_prefix_contiguous(texts: Seq<Seq<char>>, n: nat, width: nat)
    requires
        width > 0,
    ensures
        state_contiguous(lay_prefix(texts, n, width)),
    decreases n,
{
    if n == 0 {
        assert(state_contiguous(start_state()));
    } else {
        let st = lay_prefix(texts, (n - 1) as nat, width);
        lemma_prefix_contiguous(texts, (n - 1) as nat, width);
        let text = texts[n - 1];
        let seg_w = seg_width(text);
        if seg_w <= sat_sub(width, st.col) {
            lemma_push_contiguous(
                st,
                PieceView {
                    seg_idx: (n - 1) as nat,
                    text_start: 0,
                    text_end: encode_utf8(text).len(),
                    col_start: st.col,
                    col_width: seg_w,
                },
            );
        } else {
            lemma_split_contiguous(st, (n - 1) as nat, text, 0, width);
        }
    }
}

/// Greedy wrap fills every row from column 0 with pieces side by side: each
/// piece starts at the column where the previous piece of its row ends.
pub proof fn law_rows_fill_from_column_zero(texts: Seq<Seq<char>>, width: nat)
    ensures
        forall|r: int|
            0 <= r < layout_rows(texts, width).len() ==> row_contiguous(#[trigger] layout_rows(texts, width)[r]),
{
    let w = if width == 0 { 1 } else { width };
    lemma_prefix_contiguous(texts, texts.len(), w);
    let st = lay_prefix(texts, texts.len(), w);
    assert forall|r: int| 0 <= r < layout_rows(texts, width).len() implies row_contiguous(
        #[trigger] layout_rows(texts, width)[r],
    ) by {
        if r < st.done.len() {
            assert(layout_rows(texts, width)[r] == st.done[r]);
        } else {
            assert(layout_rows(texts, width)[r] == st.cur);
        }
    }
}


/// The pieces of `rows`, row after row.
pub open spec fn flat_rows(rows: Seq<Seq<PieceView>>) -> Seq<PieceView>
    decreases rows.len(),
{
    if rows.len() == 0 {
        seq![]
    } else {
        flat_rows(rows.drop_last()) + rows.last()
    }
}

/// The pieces placed so far, in reading order.
pub open spec fn state_pieces(st: LayoutState) -> Seq<PieceView> {
    flat_rows(st.done) + st.cur
}

/// The number of bytes of the UTF-8 encoding of `t`.
pub open spec fn blen(t: Seq<char>) -> nat {
    encode_utf8(t).len()
}

/// Piece `b` follows piece `a`: it continues `a`'s segment where `a` ended, or
/// `a` ended its segment's text and `b` begins the next segment.
pub open spec fn next_piece(a: PieceView, b: PieceView, texts: Seq<Seq<char>>) -> bool {
    ||| b.seg_idx == a.seg_idx && b.text_start == a.text_end
    ||| b.seg_idx == a.seg_idx + 1 && a.text_end == blen(texts[a.seg_idx as int]) && b.text_start == 0
}

/// The pieces `ps`, in order, go through the texts of the first `n` segments:
/// they start at byte 0 of segment 0, each follows the one before, the last
/// ends the text of segment `n - 1`, and none is empty unless its text is.
pub open spec fn covers(ps: Seq<PieceView>, texts: Seq<Seq<char>>, n: nat) -> bool {
    &&& (ps.len() == 0 <==> n == 0)
    &&& n > 0 ==> {
        &&& ps[0].seg_idx == 0
        &&& ps[0].text_start == 0
        &&& ps.last().seg_idx == n - 1
        &&& ps.last().text_end == blen(texts[n - 1])
    }
    &&& forall|k: int|
        0 <= k < ps.len() ==> (#[trigger] ps[k]).seg_idx < n && (ps[k].text_start < ps[k].text_end || blen(
            texts[ps[k].seg_idx as int],
        ) == 0)
    &&& forall|k: int| 0 < k < ps.len() ==> next_piece(ps[k - 1], #[trigger] ps[k], texts)
}

/// The pieces `q` go through `text`, of segment `seg`, from character `i` on.
pub open spec fn chain(q: Seq<PieceView>, seg: nat, text: Seq<char>, i: int) -> bool {
    &&& (q.len() == 0 <==> i >= text.len())
    &&& q.len() > 0 ==> q[0].text_start == byte_offset(text, i) && q.last().text_end == blen(text)
    &&& forall|k: int| 0 <= k < q.len() ==> (#[trigger] q[k]).seg_idx == seg && (q[k].text_start < q[k].text_end)
    &&& forall|k: int| 0 < k < q.len() ==> (#[trigger] q[k]).text_start == q[k - 1].text_end
}

proof fn lemma_new_row_pieces(st: LayoutState)
    ensures
        state_pieces(new_row(st)) == state_pieces(st),
{
    let n = new_row(st);
    assert(n.done.drop_last() =~= st.done);
    assert(state_pieces(n) =~= state_pieces(st));
}

proof fn lemma_push_pieces(st: LayoutState, piece: PieceView, col: nat)
    ensures
        state_pieces(LayoutState { cur: st.cur.push(piece), col, ..st }) == state_pieces(st).push(piece),
{
    assert(state_pieces(LayoutState { cur: st.cur.push(piece), col, ..st }) =~= state_pieces(st).push(piece));
}

proof fn lemma_byte_offset_lt(text: Seq<char>, i: int, j: int)
    requires
        0 <= i < j <= text.len(),
    ensures
        byte_offset(text, i) < byte_offset(text, j),
    decreases j - i,
{
    lemma_byte_offset_step(text, j - 1);
    if i < j - 1 {
        lemma_byte_offset_lt(text, i, j - 1);
    }
}

proof fn lemma_split_chain(st: LayoutState, seg_idx: nat, text: Seq<char>, i: int, width: nat) -> (q: Seq<PieceView>)
    requires
        width > 0,
        0 <= i <= text.len(),
    ensures
        state_pieces(split_segment(st, seg_idx, text, i, width)) == state_pieces(st) + q,
        chain(q, seg_idx, text, i),
    decreases text.len() - i, (if st.col > 0 { 1int } else { 0int }),
{
    if i >= text.len() {
        assert(state_pieces(st) + Seq::<PieceView>::empty() =~= state_pieces(st));
        Seq::<PieceView>::empty()
    } else if st.col >= width {
        lemma_new_row_pieces(st);
        lemma_split_chain(new_row(st), seg_idx, text, i, width)
    } else {
        let room = (width - st.col) as nat;
        let k0 = fit_count(text, i, room);
        lemma_fit_width_positive(text, i, room);
        if k0 == 0 && st.col > 0 {
            lemma_new_row_pieces(st);
            lemma_split_chain(new_row(st), seg_idx, text, i, width)
        } else {
            let k = if k0 == 0 { 1 } else { k0 };
            let w = if k0 == 0 { char_w(text[i]) } else { fit_width(text, i, room) };
            let piece = PieceView {
                seg_idx,
                text_start: byte_offset(text, i),
                text_end: byte_offset(text, i + k),
                col_start: st.col,
                col_width: w,
            };
            let st2 = LayoutState { cur: st.cur.push(piece), col: st.col + w, ..st };
            lemma_push_pieces(st, piece, st.col + w);
            lemma_byte_offset_lt(text, i, i + k);
            if i + k < text.len() {
                lemma_new_row_pieces(st2);
                let q2 = lemma_split_chain(new_row(st2), seg_idx, text, i + k, width);
                let q = seq![piece] + q2;
                assert(state_pieces(st) + q =~= state_pieces(st).push(piece) + q2);
                assert forall|m: int| 0 < m < q.len() implies (#[trigger] q[m]).text_start == q[m - 1].text_end by {
                    if m > 1 {
                        assert(q[m] == q2[m - 1]);
                        assert(q[m - 1] == q2[m - 2]);
                    }
                }
                assert forall|m: int| 0 <= m < q.len() implies (#[trigger] q[m]).seg_idx == seg_idx && (q[m].text_start
                    < q[m].text_end) by {
                    if m > 0 {
                        assert(q[m] == q2[m - 1]);
                    }
                }
                q
            } else {
                lemma_byte_offset_bounded(text, i + k);
                assert(state_pieces(st) + seq![piece] =~= state_pieces(st).push(piece));
                seq![piece]
            }
        }
    }
}

/// The pieces that `lay_segment` adds for segment `seg`.
proof fn lemma_segment_pieces(st: LayoutState, seg: nat, text: Seq<char>, width: nat) -> (q: Seq<PieceView>)
    requires
        width > 0,
    ensures
        state_pieces(lay_segment(st, seg, text, width)) == state_pieces(st) + q,
        q.len() > 0,
        q[0].text_start == 0,
        q.last().text_end == blen(text),
        forall|k: int| 0 <= k < q.len() ==> (#[trigger] q[k]).seg_idx == seg && (q[k].text_start < q[k].text_end
            || blen(text) == 0),
        forall|k: int| 0 < k < q.len() ==> (#[trigger] q[k]).text_start == q[k - 1].text_end,
{
    let seg_w = seg_width(text);
    if seg_w <= sat_sub(width, st.col) {
        let piece = PieceView {
            seg_idx: seg,
            text_start: 0,
            text_end: encode_utf8(text).len(),
            col_start: st.col,
            col_width: seg_w,
        };
        lemma_push_pieces(st, piece, st.col + seg_w);
        assert(state_pieces(st) + seq![piece] =~= state_pieces(st).push(piece));
        seq![piece]
    } else {
        assert(text.len() > 0);
        lemma_byte_offset_bounded(text, 0);
        lemma_split_chain(st, seg, text, 0, width)
    }
}

#[verifier::spinoff_prover]
#[verifier::rlimit(40)]
proof fn lemma_prefix_covers(texts: Seq<Seq<char>>, n: nat, width: nat)
    requires
        width > 0,
        n <= texts.len(),
    ensures
        covers(state_pieces(lay_prefix(texts, n, width)), texts, n),
    decreases n,
{
    if n == 0 {
        assert(state_pieces(start_state()) =~= Seq::<PieceView>::empty());
    } else {
        lemma_prefix_covers(texts, (n - 1) as nat, width);
        let st = lay_prefix(texts, (n - 1) as nat, width);
        let p = state_pieces(st);
        let q = lemma_segment_pieces(st, (n - 1) as nat, texts[n - 1], width);
        let ps = p + q;
        assert(ps.last() == q.last());
        assert forall|k: int| 0 <= k < ps.len() implies (#[trigger] ps[k]).seg_idx < n && (ps[k].text_start
            < ps[k].text_end || blen(texts[ps[k].seg_idx as int]) == 0) by {
            if k >= p.len() {
                assert(ps[k] == q[k - p.len()]);
            } else {
                assert(ps[k] == p[k]);
            }
        }
        assert forall|k: int| 0 < k < ps.len() implies next_piece(ps[k - 1], #[trigger] ps[k], texts) by {
            if k > p.len() {
                assert(ps[k] == q[k - p.len()]);
                assert(ps[k - 1] == q[k - 1 - p.len()]);
            } else if k == p.len() {
                assert(ps[k] == q[0]);
                assert(ps[k - 1] == p.last());
            } else {
                assert(ps[k] == p[k]);
                assert(ps[k - 1] == p[k - 1]);
            }
        }
        if n - 1 == 0 {
            assert(ps[0] == q[0]);
        } else {
            assert(ps[0] == p[0]);
        }
    }
}

/// Read row by row, the pieces of a layout go through every segment's text in
/// order: they begin at byte 0 of the first segment, each continues its
/// segment where the previous piece ended or begins the next segment once the
/// previous one's text is done, the last ends the last text, and no piece is
/// empty unless its text is. No character is left out.
pub proof fn law_layout_covers_texts(texts: Seq<Seq<char>>, width: nat)
    ensures
        covers(flat_rows(layout_rows(texts, width)), texts, texts.len()),
{
    let w = if width == 0 { 1 } else { width };
    let st = lay_prefix(texts, texts.len(), w);
    lemma_prefix_covers(texts, texts.len(), w);
    assert(layout_rows(texts, width).drop_last() =~= st.done);
}


/// The rows of a wrap state: the finished ones and the one being filled.
pub open spec fn state_rows(st: LayoutState) -> Seq<Seq<PieceView>> {
    st.done.push(st.cur)
}

/// No piece belongs to a segment after `m`.
pub open spec fn segs_at_most(rows: Seq<Seq<PieceView>>, m: nat) -> bool {
    forall|r: int, j: int| 0 <= r < rows.len() && 0 <= j < rows[r].len() ==> (#[trigger] rows[r][j]).seg_idx <= m
}

/// Read row by row, the pieces' segments never go back.
pub open spec fn segs_in_order(rows: Seq<Seq<PieceView>>) -> bool {
    forall|r1: int, j1: int, r2: int, j2: int|
        0 <= r1 < rows.len() && 0 <= j1 < rows[r1].len() && 0 <= r2 < rows.len() && 0 <= j2 < rows[r2].len() && (r1
            < r2 || (r1 == r2 && j1 < j2)) ==> (#[trigger] rows[r1][j1]).seg_idx <= (#[trigger] rows[r2][j2]).seg_idx
}

proof fn lemma_rows_push_empty(rows: Seq<Seq<PieceView>>, m: nat)
    requires
        segs_at_most(rows, m),
        segs_in_order(rows),
    ensures
        segs_at_most(rows.push(seq![]), m),
        segs_in_order(rows.push(seq![])),
        forall|t: nat| has_start(rows, t) ==> has_start(rows.push(seq![]), t),
{
    let r2 = rows.push(seq![]);
    assert forall|r: int, j: int| 0 <= r < r2.len() && 0 <= j < r2[r].len() implies (#[trigger] r2[r][j]).seg_idx <= m by {
        assert(r2[r] == rows[r]);
    }
    assert forall|a: int, b: int, c: int, d: int|
        0 <= a < r2.len() && 0 <= b < r2[a].len() && 0 <= c < r2.len() && 0 <= d < r2[c].len() && (a < c || (a == c
            && b < d)) implies (#[trigger] r2[a][b]).seg_idx <= (#[trigger] r2[c][d]).seg_idx by {
        assert(r2[a] == rows[a]);
        assert(r2[c] == rows[c]);
    }
    assert forall|t: nat| has_start(rows, t) implies has_start(r2, t) by {
        let (a, b) = choose|a: int, b: int| #[trigger] starts_segment(rows, a, b, t);
        assert(r2[a] == rows[a]);
        assert(starts_segment(r2, a, b, t));
    }
}

proof fn lemma_new_row_rows(st: LayoutState, m: nat)
    requires
        segs_at_most(state_rows(st), m),
        segs_in_order(state_rows(st)),
    ensures
        segs_at_most(state_rows(new_row(st)), m),
        segs_in_order(state_rows(new_row(st))),
        forall|t: nat| has_start(state_rows(st), t) ==> has_start(state_rows(new_row(st)), t),
{
    assert(state_rows(new_row(st)) =~= state_rows(st).push(seq![]));
    lemma_rows_push_empty(state_rows(st), m);
}

proof fn lemma_push_rows(st: LayoutState, piece: PieceView, col: nat)
    requires
        segs_at_most(state_rows(st), piece.seg_idx),
        segs_in_order(state_rows(st)),
    ensures
        segs_at_most(state_rows(LayoutState { cur: st.cur.push(piece), col, ..st }), piece.seg_idx),
        segs_in_order(state_rows(LayoutState { cur: st.cur.push(piece), col, ..st })),
        forall|t: nat|
            has_start(state_rows(st), t) ==> has_start(state_rows(LayoutState { cur: st.cur.push(piece), col, ..st }), t),
        piece.text_start == 0 ==> has_start(state_rows(LayoutState { cur: st.cur.push(piece), col, ..st }), piece.seg_idx),
{
    let rows = state_rows(st);
    let r2 = state_rows(LayoutState { cur: st.cur.push(piece), col, ..st });
    let last = st.done.len() as int;
    let m = piece.seg_idx;
    assert(r2.len() == rows.len());
    assert forall|r: int, j: int| 0 <= r < r2.len() && 0 <= j < r2[r].len() implies (#[trigger] r2[r][j]).seg_idx <= m by {
        if r < last {
            assert(r2[r] == rows[r]);
        } else if j < st.cur.len() {
            assert(r2[r][j] == rows[r][j]);
        }
    }
    assert forall|a: int, b: int, c: int, d: int|
        0 <= a < r2.len() && 0 <= b < r2[a].len() && 0 <= c < r2.len() && 0 <= d < r2[c].len() && (a < c || (a == c
            && b < d)) implies (#[trigger] r2[a][b]).seg_idx <= (#[trigger] r2[c][d]).seg_idx by {
        assert(r2[a][b].seg_idx <= m);
        if c == last && d == st.cur.len() {
        } else {
            if c < last {
                assert(r2[c] == rows[c]);
            } else {
                assert(r2[c][d] == rows[c][d]);
            }
            if a < last {
                assert(r2[a] == rows[a]);
            } else {
                assert(r2[a][b] == rows[a][b]);
            }
        }
    }
    assert forall|t: nat| has_start(rows, t) implies has_start(r2, t) by {
        let (a, b) = choose|a: int, b: int| #[trigger] starts_segment(rows, a, b, t);
        if a < last {
            assert(r2[a] == rows[a]);
        } else {
            assert(r2[a][b] == rows[a][b]);
        }
        assert(starts_segment(r2, a, b, t));
    }
    if piece.text_start == 0 {
        assert(r2[last][st.cur.len() as int] == piece);
        assert(starts_segment(r2, last, st.cur.len() as int, piece.seg_idx));
    }
}

proof fn lemma_split_rows(st: LayoutState, seg_idx: nat, text: Seq<char>, i: int, width: nat)
    requires
        width > 0,
        0 <= i <= text.len(),
        segs_at_most(state_rows(st), seg_idx),
        segs_in_order(state_rows(st)),
    ensures
        segs_at_most(state_rows(split_segment(st, seg_idx, text, i, width)), seg_idx),
        segs_in_order(state_rows(split_segment(st, seg_idx, text, i, width))),
        forall|t: nat|
            has_start(state_rows(st), t) ==> has_start(state_rows(split_segment(st, seg_idx, text, i, width)), t),
        i == 0 && text.len() > 0 ==> has_start(state_rows(split_segment(st, seg_idx, text, i, width)), seg_idx),
    decreases text.len() - i, (if st.col > 0 { 1int } else { 0int }),
{
    if i >= text.len() {
    } else if st.col >= width {
        lemma_new_row_rows(st, seg_idx);
        lemma_split_rows(new_row(st), seg_idx, text, i, width);
    } else {
        let room = (width - st.col) as nat;
        let k0 = fit_count(text, i, room);
        lemma_fit_width_positive(text, i, room);
        if k0 == 0 && st.col > 0 {
            lemma_new_row_rows(st, seg_idx);
            lemma_split_rows(new_row(st), seg_idx, text, i, width);
        } else {
            let k = if k0 == 0 { 1 } else { k0 };
            let w = if k0 == 0 { char_w(text[i]) } else { fit_width(text, i, room) };
            let piece = PieceView {
                seg_idx,
                text_start: byte_offset(text, i),
                text_end: byte_offset(text, i + k),
                col_start: st.col,
                col_width: w,
            };
            let st2 = LayoutState { cur: st.cur.push(piece), col: st.col + w, ..st };
            lemma_byte_offset_bounded(text, i);
            lemma_push_rows(st, piece, st.col + w);
            if i + k < text.len() {
                lemma_new_row_rows(st2, seg_idx);
                lemma_split_rows(new_row(st2), seg_idx, text, i + k, width);
            }
        }
    }
}

proof fn lemma_prefix_rows(texts: Seq<Seq<char>>, n: nat, width: nat)
    requires
        width > 0,
        n <= texts.len(),
    ensures
        forall|r: int, j: int|
            0 <= r < state_rows(lay_prefix(texts, n, width)).len() && 0 <= j < state_rows(
                lay_prefix(texts, n, width),
            )[r].len() ==> (#[trigger] state_rows(lay_prefix(texts, n, width))[r][j]).seg_idx < n,
        segs_in_order(state_rows(lay_prefix(texts, n, width))),
        forall|t: nat| t < n ==> has_start(state_rows(lay_prefix(texts, n, width)), t),
    decreases n,
{
    if n == 0 {
        assert(state_rows(start_state()) =~= seq![Seq::<PieceView>::empty()]);
    } else {
        let m = (n - 1) as nat;
        lemma_prefix_rows(texts, m, width);
        let st = lay_prefix(texts, m, width);
        let text = texts[m as int];
        assert(segs_at_most(state_rows(st), m));
        if seg_width(text) <= sat_sub(width, st.col) {
            let piece = PieceView {
                seg_idx: m,
                text_start: 0,
                text_end: encode_utf8(text).len(),
                col_start: st.col,
                col_width: seg_width(text),
            };
            lemma_push_rows(st, piece, st.col + seg_width(text));
        } else {
            lemma_split_rows(st, m, text, 0, width);
        }
        let st2 = lay_prefix(texts, n, width);
        assert(segs_at_most(state_rows(st2), m));
        assert forall|t: nat| t < n implies has_start(state_rows(st2), t) by {
            if t < m {
                assert(has_start(state_rows(st), t));
            }
        }
    }
}

proof fn lemma_first_start_exists(pl: Seq<Seq<PieceView>>, t: nat, r: int, j: int)
    requires
        starts_segment(pl, r, j, t),
    ensures
        exists|a: int, b: int| first_start(pl, a, b, t),
    decreases r, j,
{
    if exists|r2: int, j2: int| (r2 < r || (r2 == r && j2 < j)) && #[trigger] starts_segment(pl, r2, j2, t) {
        let (r2, j2) = choose|r2: int, j2: int| (r2 < r || (r2 == r && j2 < j)) && #[trigger] starts_segment(pl, r2, j2, t);
        lemma_first_start_exists(pl, t, r2, j2);
    } else {
        assert(first_start(pl, r, j, t));
    }
}

proof fn lemma_cols_ordered(row: Seq<PieceView>, j1: int, j2: int)
    requires
        row_contiguous(row),
        0 <= j1 <= j2 < row.len(),
    ensures
        row[j1].col_start <= row[j2].col_start,
    decreases j2 - j1,
{
    if j1 < j2 {
        assert(row[j2].col_start == row[j2 - 1].col_start + row[j2 - 1].col_width);
        lemma_cols_ordered(row, j1, j2 - 1);
    }
}

proof fn lemma_contiguous_cols(row: Seq<PieceView>, j1: int, j2: int)
    requires
        row_contiguous(row),
        0 <= j1 <= j2 < row.len(),
    ensures
        row[j1].col_start <= row[j2].col_start,
        row[j1].col_start <= row.last().col_start + row.last().col_width,
{
    lemma_cols_ordered(row, j1, j2);
    lemma_cols_ordered(row, j1, row.len() - 1);
}

/// `(row, column)` position `a` comes no later than `b` on the screen.
pub open spec fn pos_le(a: (nat, nat), b: (nat, nat)) -> bool {
    a.0 < b.0 || (a.0 == b.0 && a.1 <= b.1)
}

/// Cursor positions in a laid-out paragraph never go back as the target
/// segment grows, and every target past the last segment gives the same
/// position: the end of the last row.
pub proof fn law_cursor_pos_monotone(texts: Seq<Seq<char>>, width: nat, t1: nat, t2: nat)
    requires
        t1 <= t2,
    ensures
        pos_le(cursor_pos(layout_rows(texts, width), t1), cursor_pos(layout_rows(texts, width), t2)),
        t2 >= texts.len() ==> cursor_pos(layout_rows(texts, width), t2) == (
            (layout_rows(texts, width).len() - 1) as nat,
            end_col(layout_rows(texts, width)),
        ),
{
    let w = if width == 0 { 1 } else { width };
    let pl = layout_rows(texts, width);
    let n = texts.len();
    lemma_prefix_rows(texts, n, w);
    law_rows_fill_from_column_zero(texts, width);
    assert(pl == state_rows(lay_prefix(texts, n, w)));
    let last = pl.len() - 1;
    assert forall|t: nat| t >= n implies !has_start(pl, t) by {
        if has_start(pl, t) {
            let (a, b) = choose|a: int, b: int| #[trigger] starts_segment(pl, a, b, t);
            assert(pl[a][b].seg_idx < n);
        }
    }
    if t1 < n {
        assert(has_start(pl, t1));
        let (a0, b0) = choose|a: int, b: int| #[trigger] starts_segment(pl, a, b, t1);
        lemma_first_start_exists(pl, t1, a0, b0);
        let (a1, b1) = choose|a: int, b: int| first_start(pl, a, b, t1);
        assert(row_contiguous(pl[a1]));
        if t2 < n {
            assert(has_start(pl, t2));
            let (c0, d0) = choose|a: int, b: int| #[trigger] starts_segment(pl, a, b, t2);
            lemma_first_start_exists(pl, t2, c0, d0);
            let (a2, b2) = choose|a: int, b: int| first_start(pl, a, b, t2);
            if t1 < t2 {
                if a2 < a1 || (a2 == a1 && b2 < b1) {
                    assert(pl[a2][b2].seg_idx <= pl[a1][b1].seg_idx);
                    assert(false);
                }
                if a1 == a2 {
                    lemma_contiguous_cols(pl[a1], b1, b2);
                }
            } else {
                lemma_first_start_unique(pl, t1, a1, b1, a2, b2);
            }
        } else {
            if a1 == last {
                lemma_contiguous_cols(pl[a1], b1, b1);
            }
        }
    }
}


/// A width of 0 columns is treated as a width of 1.
pub proof fn law_zero_width_is_one(texts: Seq<Seq<char>>)
    ensures
        layout_rows(texts, 0) == layout_rows(texts, 1),
{
}


/// The column just past a row's last piece (0 for an empty row).
pub open spec fn row_end(row: Seq<PieceView>) -> nat {
    if row.len() == 0 {
        0
    } else {
        row.last().col_start + row.last().col_width
    }
}

/// A row may end before `next` only where it is full, or `next` would not fit
/// in the rest of it.
pub open spec fn break_justified(prev: Seq<PieceView>, next: PieceView, width: nat) -> bool {
    row_end(prev) >= width || row_end(prev) + next.col_width > width
}

/// Every row after the first begins with a piece, and every row break is justified.
pub open spec fn rows_break_greedily(rows: Seq<Seq<PieceView>>, width: nat) -> bool {
    forall|r: int|
        0 < r < rows.len() ==> (#[trigger] rows[r]).len() > 0 && break_justified(rows[r - 1], rows[r][0], width)
}

spec fn state_greedy(st: LayoutState, width: nat) -> bool {
    &&& rows_break_greedily(st.done, width)
    &&& st.done.len() > 0 ==> st.cur.len() > 0 && break_justified(st.done.last(), st.cur[0], width)
}

/// Right after a row break, waiting for a first piece at least `need` columns wide.
spec fn state_pending(st: LayoutState, width: nat, need: nat) -> bool {
    &&& rows_break_greedily(st.done, width)
    &&& st.cur.len() == 0
    &&& st.done.len() > 0
    &&& (row_end(st.done.last()) >= width || row_end(st.done.last()) + need > width)
}

proof fn lemma_fit_first(text: Seq<char>, i: int, room: nat)
    requires
        fit_count(text, i, room) > 0,
    ensures
        0 <= i < text.len(),
        fit_width(text, i, room) >= char_w(text[i]),
        char_w(text[i]) <= room,
{
}

proof fn lemma_fit_stop(text: Seq<char>, i: int, room: nat)
    requires
        0 <= i,
        i + fit_count(text, i, room) < text.len(),
    ensures
        char_w(text[i + fit_count(text, i, room)]) + fit_width(text, i, room) > room,
    decreases text.len() - i,
{
    if char_w(text[i]) <= room {
        lemma_fit_stop(text, i + 1, (room - char_w(text[i])) as nat);
    }
}

proof fn lemma_break_into_pending(st: LayoutState, width: nat, need: nat)
    requires
        state_greedy(st, width),
        state_contiguous(st),
        st.cur.len() > 0,
        st.col >= width || st.col + need > width,
    ensures
        state_pending(new_row(st), width, need),
{
    let n = new_row(st);
    assert(row_end(st.cur) == st.col);
    assert forall|r: int| 0 < r < n.done.len() implies (#[trigger] n.done[r]).len() > 0 && break_justified(
        n.done[r - 1],
        n.done[r][0],
        width,
    ) by {
        if r < st.done.len() {
            assert(n.done[r] == st.done[r]);
            assert(n.done[r - 1] == st.done[r - 1]);
        } else {
            assert(n.done[r] == st.cur);
            assert(n.done[r - 1] == st.done.last());
        }
    }
}

proof fn lemma_split_greedy(st: LayoutState, seg_idx: nat, text: Seq<char>, i: int, width: nat)
    requires
        width > 0,
        0 <= i,
        state_contiguous(st),
        state_greedy(st, width) || (i < text.len() && state_pending(st, width, char_w(text[i]))),
    ensures
        state_greedy(split_segment(st, seg_idx, text, i, width), width),
    decreases text.len() - i, (if st.col > 0 { 1int } else { 0int }),
{
    if i >= text.len() {
    } else if st.col >= width {
        assert(st.cur.len() > 0);
        lemma_break_into_pending(st, width, char_w(text[i]));
        lemma_new_row_contiguous(st);
        lemma_split_greedy(new_row(st), seg_idx, text, i, width);
    } else {
        let room = (width - st.col) as nat;
        let k0 = fit_count(text, i, room);
        lemma_fit_width_positive(text, i, room);
        if k0 == 0 && st.col > 0 {
            assert(char_w(text[i]) > room);
            assert(st.cur.len() > 0);
            lemma_break_into_pending(st, width, char_w(text[i]));
            lemma_new_row_contiguous(st);
            lemma_split_greedy(new_row(st), seg_idx, text, i, width);
        } else {
            let k = if k0 == 0 { 1 } else { k0 };
            let w = if k0 == 0 { char_w(text[i]) } else { fit_width(text, i, room) };
            if k0 > 0 {
                lemma_fit_first(text, i, room);
            }
            let piece = PieceView {
                seg_idx,
                text_start: byte_offset(text, i),
                text_end: byte_offset(text, i + k),
                col_start: st.col,
                col_width: w,
            };
            let st2 = LayoutState { cur: st.cur.push(piece), col: st.col + w, ..st };
            lemma_push_contiguous(st, piece);
            assert(st2.cur[0] == (if st.cur.len() > 0 { st.cur[0] } else { piece }));
            assert(state_greedy(st2, width));
            if i + k < text.len() {
                if k0 > 0 {
                    lemma_fit_stop(text, i, room);
                } else {
                    assert(char_w(text[i]) > room);
                }
                lemma_break_into_pending(st2, width, char_w(text[i + k]));
                lemma_new_row_contiguous(st2);
                lemma_split_greedy(new_row(st2), seg_idx, text, i + k, width);
            }
        }
    }
}

proof fn lemma_prefix_greedy(texts: Seq<Seq<char>>, n: nat, width: nat)
    requires
        width > 0,
        n <= texts.len(),
    ensures
        state_greedy(lay_prefix(texts, n, width), width),
    decreases n,
{
    if n == 0 {
    } else {
        let m = (n - 1) as nat;
        lemma_prefix_greedy(texts, m, width);
        lemma_prefix_contiguous(texts, m, width);
        let st = lay_prefix(texts, m, width);
        let text = texts[m as int];
        if seg_width(text) <= sat_sub(width, st.col) {
            let piece = PieceView {
                seg_idx: m,
                text_start: 0,
                text_end: encode_utf8(text).len(),
                col_start: st.col,
                col_width: seg_width(text),
            };
            let st2 = LayoutState { cur: st.cur.push(piece), col: st.col + seg_width(text), ..st };
            assert(st2.cur[0] == (if st.cur.len() > 0 { st.cur[0] } else { piece }));
        } else {
            lemma_split_greedy(st, m, text, 0, width);
        }
    }
}

/// The wrap is greedy: every row after the first begins with a piece, and a row
/// ends only where it is full or the next row's first piece would not fit in
/// what is left of it.
pub proof fn law_rows_break_only_when_full(texts: Seq<Seq<char>>, width: nat)
    ensures
        rows_break_greedily(layout_rows(texts, width), if width == 0 { 1 } else { width }),
{
    let w = if width == 0 { 1 } else { width };
    let st = lay_prefix(texts, texts.len(), w);
    lemma_prefix_greedy(texts, texts.len(), w);
    let rows = layout_rows(texts, width);
    assert forall|r: int| 0 < r < rows.len() implies (#[trigger] rows[r]).len() > 0 && break_justified(
        rows[r - 1],
        rows[r][0],
        w,
    ) by {
        if r < st.done.len() {
            assert(rows[r] == st.done[r]);
            assert(rows[r - 1] == st.done[r - 1]);
        } else {
            assert(rows[r] == st.cur);
            assert(rows[r - 1] == st.done.last());
        }
    }
}


/// The piece ends within `width` columns, or starts its row, or takes no columns.
pub open spec fn piece_within(p: PieceView, width: nat) -> bool {
    p.col_start + p.col_width <= width || p.col_start == 0 || p.col_width == 0
}

spec fn state_within(st: LayoutState, width: nat) -> bool {
    &&& forall|r: int, j: int|
        0 <= r < st.done.len() && 0 <= j < st.done[r].len() ==> piece_within(#[trigger] st.done[r][j], width)
    &&& forall|j: int| 0 <= j < st.cur.len() ==> piece_within(#[trigger] st.cur[j], width)
}

proof fn lemma_within_new_row(st: LayoutState, width: nat)
    requires
        state_within(st, width),
    ensures
        state_within(new_row(st), width),
{
    let n = new_row(st);
    assert forall|r: int, j: int| 0 <= r < n.done.len() && 0 <= j < n.done[r].len() implies piece_within(
        #[trigger] n.done[r][j],
        width,
    ) by {
        if r < st.done.len() {
            assert(n.done[r] == st.done[r]);
        } else {
            assert(n.done[r] == st.cur);
        }
    }
}

proof fn lemma_within_push(st: LayoutState, piece: PieceView, col: nat, width: nat)
    requires
        state_within(st, width),
        piece_within(piece, width),
    ensures
        state_within(LayoutState { cur: st.cur.push(piece), col, ..st }, width),
{
    let c2 = st.cur.push(piece);
    assert forall|j: int| 0 <= j < c2.len() implies piece_within(#[trigger] c2[j], width) by {
        if j < st.cur.len() {
            assert(c2[j] == st.cur[j]);
        }
    }
}

proof fn lemma_split_within(st: LayoutState, seg_idx: nat, text: Seq<char>, i: int, width: nat)
    requires
        width > 0,
        0 <= i,
        state_within(st, width),
    ensures
        state_within(split_segment(st, seg_idx, text, i, width), width),
    decreases text.len() - i, (if st.col > 0 { 1int } else { 0int }),
{
    if i >= text.len() {
    } else if st.col >= width {
        lemma_within_new_row(st, width);
        lemma_split_within(new_row(st), seg_idx, text, i, width);
    } else {
        let room = (width - st.col) as nat;
        let k0 = fit_count(text, i, room);
        lemma_fit_width_positive(text, i, room);
        if k0 == 0 && st.col > 0 {
            lemma_within_new_row(st, width);
            lemma_split_within(new_row(st), seg_idx, text, i, width);
        } else {
            let k = if k0 == 0 { 1 } else { k0 };
            let w = if k0 == 0 { char_w(text[i]) } else { fit_width(text, i, room) };
            let piece = PieceView {
                seg_idx,
                text_start: byte_offset(text, i),
                text_end: byte_offset(text, i + k),
                col_start: st.col,
                col_width: w,
            };
            let st2 = LayoutState { cur: st.cur.push(piece), col: st.col + w, ..st };
            lemma_within_push(st, piece, st.col + w, width);
            if i + k < text.len() {
                lemma_within_new_row(st2, width);
                lemma_split_within(new_row(st2), seg_idx, text, i + k, width);
            }
        }
    }
}

proof fn lemma_prefix_within(texts: Seq<Seq<char>>, n: nat, width: nat)
    requires
        width > 0,
        n <= texts.len(),
    ensures
        state_within(lay_prefix(texts, n, width), width),
    decreases n,
{
    if n > 0 {
        let m = (n - 1) as nat;
        lemma_prefix_within(texts, m, width);
        let st = lay_prefix(texts, m, width);
        let text = texts[m as int];
        if seg_width(text) <= sat_sub(width, st.col) {
            let piece = PieceView {
                seg_idx: m,
                text_start: 0,
                text_end: encode_utf8(text).len(),
                col_start: st.col,
                col_width: seg_width(text),
            };
            lemma_within_push(st, piece, st.col + seg_width(text), width);
        } else {
            lemma_split_within(st, m, text, 0, width);
        }
    }
}

/// No piece reaches past the row's width, but for a piece that starts its row
/// (a character wider than the whole row) or takes no columns.
pub proof fn law_pieces_stay_within_width(texts: Seq<Seq<char>>, width: nat)
    ensures
        ({
            let w = if width == 0 { 1 } else { width };
            let rows = layout_rows(texts, width);
            forall|r: int, j: int| 0 <= r < rows.len() && 0 <= j < rows[r].len() ==> piece_within(#[trigger] rows[r][j], w)
        }),
{
    let w = if width == 0 { 1 } else { width };
    let st = lay_prefix(texts, texts.len(), w);
    lemma_prefix_within(texts, texts.len(), w);
    let rows = layout_rows(texts, width);
    assert forall|r: int, j: int| 0 <= r < rows.len() && 0 <= j < rows[r].len() implies piece_within(
        #[trigger] rows[r][j],
        w,
    ) by {
        if r < st.done.len() {
            assert(rows[r] == st.done[r]);
        } else {
            assert(rows[r] == st.cur);
        }
    }
}

} // verus!
