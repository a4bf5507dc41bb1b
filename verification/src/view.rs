//! What the screen shows of the document: rows, cursor placement, scrolling,
//! and the candidate popup.

use vstd::prelude::*;
use crate::doc::{Doc, DocView, Segment};
use crate::engine::Candidate;
use crate::text::{spec_str_width, str_width};
use crate::layout::{
    cursor_pos, cursor_position, end_col, first_start, has_start, layout_paragraph, layout_rows, rows_bounded,
    seg_texts, starts_segment, ParagraphLayout, PieceView,
};

verus! {

/// The keys that pick a candidate of the popup, by position.
pub open spec fn popup_keys() -> Seq<char> {
    seq!['1', '2', '3', '4', '5', '6', '7', '8', '9', '0']
}

/// The position of `key` among the popup keys.
pub open spec fn spec_popup_index(key: char) -> Option<usize> {
    if '1' <= key <= '9' {
        Some(((key as u32) - ('1' as u32)) as usize)
    } else if key == '0' {
        Some(9)
    } else {
        None
    }
}

/// Map a popup index key (`'1'..'9'`, `'0'`) to the candidate index within
/// the current page. Returns `None` if the key isn't a popup index.
pub fn popup_index_for_key(key: char) -> (r: Option<usize>)
    ensures
        r == spec_popup_index(key),
        r matches Some(i) ==> i < 10 && popup_keys()[i as int] == key,
        r is None ==> !popup_keys().contains(key),
{
    let keys: [char; 10] = ['1', '2', '3', '4', '5', '6', '7', '8', '9', '0'];
    let mut i: usize = 0;
    while i < 10
        invariant
            i <= 10,
            keys@ == popup_keys(),
            forall|j: int| 0 <= j < i ==> popup_keys()[j] != key,
        decreases 10 - i,
    {
        if keys[i] == key {
            return Some(i);
        }
        i = i + 1;
    }
    None
}

/// Information the key-event loop needs after each render: what's visible,
/// where the cursor sits visually, and the paragraph layouts the renderer
/// already computed.
pub struct ViewInfo {
    pub total_rows: usize,
    /// Visual row index of the cursor across the whole document.
    pub cursor_row: usize,
    /// Display column on `cursor_row` where the cursor sits.
    pub cursor_col: usize,
    /// One layout per paragraph, in document order.
    pub layouts: Vec<ParagraphLayout>,
}

impl Default for ViewInfo {
    fn default() -> (r: Self)
        ensures
            r.total_rows == 0,
            r.cursor_row == 0,
            r.cursor_col == 0,
            r.layouts@.len() == 0,
    {
        ViewInfo { total_rows: 0, cursor_row: 0, cursor_col: 0, layouts: Vec::new() }
    }
}

pub open spec fn layouts_view(v: Seq<ParagraphLayout>) -> Seq<Seq<Seq<PieceView>>> {
    v.map_values(|l: ParagraphLayout| l@)
}

/// The screen rows a paragraph takes: its layout rows, or one for an empty layout.
pub open spec fn vis_rows(pl: Seq<Seq<PieceView>>) -> nat {
    if pl.len() == 0 {
        1
    } else {
        pl.len()
    }
}

/// The screen rows taken by the paragraphs before paragraph `p`.
pub open spec fn rows_before(ls: Seq<Seq<Seq<PieceView>>>, p: int) -> nat
    decreases p,
{
    if p <= 0 {
        0
    } else {
        rows_before(ls, p - 1) + vis_rows(ls[p - 1])
    }
}

pub proof fn lemma_rows_before_monotone(ls: Seq<Seq<Seq<PieceView>>>, p: int, q: int)
    requires
        0 <= p <= q,
    ensures
        rows_before(ls, p) <= rows_before(ls, q),
    decreases q - p,
{
    if p < q {
        lemma_rows_before_monotone(ls, p, q - 1);
    }
}

pub open spec fn dist(a: nat, b: nat) -> nat {
    if a >= b {
        (a - b) as nat
    } else {
        (b - a) as nat
    }
}

/// The index of the first of the first `n` pieces whose start column is closest to `col`.
pub open spec fn closest_index(row: Seq<PieceView>, col: nat, n: int) -> int
    decreases n,
{
    if n <= 1 {
        0
    } else {
        let b = closest_index(row, col, n - 1);
        if dist(row[n - 1].col_start, col) < dist(row[b].col_start, col) {
            n - 1
        } else {
            b
        }
    }
}

proof fn lemma_closest_in_range(row: Seq<PieceView>, col: nat, n: int)
    requires
        1 <= n,
    ensures
        0 <= closest_index(row, col, n) < n,
    decreases n,
{
    if n > 1 {
        lemma_closest_in_range(row, col, n - 1);
    }
}

/// The segment that row `r` of a layout puts closest to column `col` (0 where there is none).
pub open spec fn seg_near(pl: Seq<Seq<PieceView>>, r: int, col: nat) -> nat {
    if 0 <= r < pl.len() && pl[r].len() > 0 {
        pl[r][closest_index(pl[r], col, pl[r].len() as int)].seg_idx
    } else {
        0
    }
}

/// Paragraph `p` holds screen row `target`.
pub open spec fn owns_row(ls: Seq<Seq<Seq<PieceView>>>, p: int, target: nat) -> bool {
    0 <= p < ls.len() && rows_before(ls, p) <= target < rows_before(ls, p + 1)
}

/// Where the cursor goes on screen row `target_row`, near column `target_col`.
pub open spec fn cursor_for_row(
    d: DocView,
    ls: Seq<Seq<Seq<PieceView>>>,
    target_row: nat,
    target_col: nat,
) -> (usize, usize) {
    if target_row < rows_before(ls, ls.len() as int) {
        let p = choose|p: int| owns_row(ls, p, target_row);
        (p as usize, seg_near(ls[p], target_row - rows_before(ls, p), target_col) as usize)
    } else if d.paras.len() > 0 {
        ((d.paras.len() - 1) as usize, d.paras.last().len() as usize)
    } else {
        d.cursor
    }
}

/// The paragraph holding a screen row below the total is unique.
proof fn lemma_row_owner_unique(ls: Seq<Seq<Seq<PieceView>>>, target: nat, p: int, q: int)
    requires
        owns_row(ls, p, target),
        owns_row(ls, q, target),
    ensures
        p == q,
{
    if p < q {
        lemma_rows_before_monotone(ls, p + 1, q);
    } else if q < p {
        lemma_rows_before_monotone(ls, q + 1, p);
    }
}

/// Moves the cursor to the segment on screen row `target_row` whose piece
/// starts closest to column `target_col`; past the last row, to the end of the
/// document.
pub fn place_cursor_at_row(doc: &mut Doc, info: &ViewInfo, target_row: usize, target_col: usize)
    requires
        rows_before(layouts_view(info.layouts@), info.layouts@.len() as int) <= usize::MAX,
    ensures
        final(doc)@ == (DocView {
            cursor: cursor_for_row(old(doc)@, layouts_view(info.layouts@), target_row as nat, target_col as nat),
            ..old(doc)@
        }),
{
    let ghost ls = layouts_view(info.layouts@);
    let mut row_acc: usize = 0;
    let mut p_idx: usize = 0;
    while p_idx < info.layouts.len()
        invariant
            ls == layouts_view(info.layouts@),
            p_idx <= ls.len(),
            row_acc == rows_before(ls, p_idx as int),
            row_acc <= target_row,
            rows_before(ls, ls.len() as int) <= usize::MAX,
            doc@ == old(doc)@,
        decreases ls.len() - p_idx,
    {
        let pl = &info.layouts[p_idx];
        assert(ls[p_idx as int] == pl@);
        proof {
            lemma_rows_before_monotone(ls, p_idx + 1, ls.len() as int);
        }
        let n_rows = if pl.rows.len() == 0 {
            1
        } else {
            pl.rows.len()
        };
        if row_acc + n_rows > target_row {
            let row_in_para = target_row - row_acc;
            let mut new_seg: usize = 0;
            if row_in_para < pl.rows.len() {
                let row = &pl.rows[row_in_para];
                assert(pl@[row_in_para as int] == crate::layout::pieces_view(row.pieces@));
                if row.pieces.len() > 0 {
                    let mut best: usize = 0;
                    let mut best_d = abs_diff(row.pieces[0].col_start, target_col);
                    let mut j: usize = 1;
                    let ghost rv = pl@[row_in_para as int];
                    while j < row.pieces.len()
                        invariant
                            rv == crate::layout::pieces_view(row.pieces@),
                            1 <= j <= rv.len(),
                            best == closest_index(rv, target_col as nat, j as int),
                            best < j,
                            best_d == dist(rv[best as int].col_start, target_col as nat),
                        decreases rv.len() - j,
                    {
                        let dj = abs_diff(row.pieces[j].col_start, target_col);
                        if dj < best_d {
                            best = j;
                            best_d = dj;
                        }
                        j = j + 1;
                    }
                    new_seg = row.pieces[best].seg_idx;
                }
            }
            proof {
                assert(rows_before(ls, p_idx + 1) == rows_before(ls, p_idx as int) + crate::view::vis_rows(ls[p_idx as int]));
                assert(owns_row(ls, p_idx as int, target_row as nat));
                let q = choose|q: int| owns_row(ls, q, target_row as nat);
                lemma_row_owner_unique(ls, target_row as nat, p_idx as int, q);
            }
            doc.cursor = (p_idx, new_seg);
            assert(doc@ =~= (DocView {
                cursor: cursor_for_row(old(doc)@, ls, target_row as nat, target_col as nat),
                ..old(doc)@
            }));
            return;
        }
        row_acc = row_acc + n_rows;
        p_idx = p_idx + 1;
    }
    assert(doc.paragraphs@.len() == doc@.paras.len());
    if doc.paragraphs.len() > 0 {
        let last = doc.paragraphs.len() - 1;
        doc.cursor = (last, doc.paragraphs[last].len());
    }
    assert(doc@ =~= (DocView {
        cursor: cursor_for_row(old(doc)@, ls, target_row as nat, target_col as nat),
        ..old(doc)@
    }));
}

/// `|a - b|` (`usize::abs_diff`).
pub fn abs_diff(a: usize, b: usize) -> (r: usize)
    ensures
        r == dist(a as nat, b as nat),
{
    if a >= b {
        a - b
    } else {
        b - a
    }
}

/// Moves the cursor one screen row up, keeping its column as near as it can;
/// on the first row, to the start of the paragraph.
pub fn move_cursor_up(doc: &mut Doc, info: &ViewInfo)
    requires
        rows_before(layouts_view(info.layouts@), info.layouts@.len() as int) <= usize::MAX,
    ensures
        info.cursor_row == 0 ==> final(doc)@ == (DocView { cursor: (old(doc).cursor.0, 0), ..old(doc)@ }),
        info.cursor_row > 0 ==> final(doc)@ == (DocView {
            cursor: cursor_for_row(
                old(doc)@,
                layouts_view(info.layouts@),
                (info.cursor_row - 1) as nat,
                info.cursor_col as nat,
            ),
            ..old(doc)@
        }),
{
    if info.cursor_row == 0 {
        doc.cursor.1 = 0;
        assert(doc@ =~= (DocView { cursor: (old(doc).cursor.0, 0), ..old(doc)@ }));
        return;
    }
    place_cursor_at_row(doc, info, info.cursor_row - 1, info.cursor_col);
}

/// Moves the cursor one screen row down, keeping its column as near as it can;
/// on the last row, to the end of the paragraph.
pub fn move_cursor_down(doc: &mut Doc, info: &ViewInfo)
    requires
        rows_before(layouts_view(info.layouts@), info.layouts@.len() as int) <= usize::MAX,
        info.cursor_row < usize::MAX,
        info.cursor_row + 1 >= info.total_rows ==> old(doc).cursor.0 < old(doc)@.paras.len(),
    ensures
        info.cursor_row + 1 >= info.total_rows ==> final(doc)@ == old(doc)@.move_cursor_end(),
        info.cursor_row + 1 < info.total_rows ==> final(doc)@ == (DocView {
            cursor: cursor_for_row(
                old(doc)@,
                layouts_view(info.layouts@),
                (info.cursor_row + 1) as nat,
                info.cursor_col as nat,
            ),
            ..old(doc)@
        }),
{
    if info.cursor_row + 1 >= info.total_rows {
        let p = doc.cursor.0;
        doc.cursor.1 = doc.paragraphs[p].len();
        assert(doc@ =~= old(doc)@.move_cursor_end());
        return;
    }
    place_cursor_at_row(doc, info, info.cursor_row + 1, info.cursor_col);
}

/// The screen lines of a paragraph: one per layout row, or one empty line.
pub open spec fn para_lines(p: nat, pl: Seq<Seq<PieceView>>) -> Seq<(usize, Option<usize>)> {
    if pl.len() == 0 {
        seq![(p as usize, None)]
    } else {
        Seq::new(pl.len(), |r: int| (p as usize, Some(r as usize)))
    }
}

/// The screen lines of the first `n` paragraphs.
pub open spec fn lines_upto(ls: Seq<Seq<Seq<PieceView>>>, n: int) -> Seq<(usize, Option<usize>)>
    decreases n,
{
    if n <= 0 {
        seq![]
    } else {
        lines_upto(ls, n - 1) + para_lines((n - 1) as nat, ls[n - 1])
    }
}

proof fn lemma_lines_len(ls: Seq<Seq<Seq<PieceView>>>, n: int)
    requires
        n >= 0,
    ensures
        lines_upto(ls, n).len() == rows_before(ls, n),
    decreases n,
{
    if n > 0 {
        lemma_lines_len(ls, n - 1);
    }
}

/// The layouts of a document's paragraphs at a given width.
pub open spec fn doc_layouts(d: DocView, width: nat) -> Seq<Seq<Seq<PieceView>>> {
    Seq::new(d.paras.len(), |p: int| layout_rows(seg_texts(d.paras[p]), width))
}

/// What one render computes: the view information, the first screen line of
/// each paragraph, and what each screen line shows (a paragraph and one of its
/// layout rows, or an empty paragraph).
pub struct ScreenModel {
    pub info: ViewInfo,
    pub paragraph_offsets: Vec<usize>,
    pub lines: Vec<(usize, Option<usize>)>,
    /// The screen row and column of the composition's start, where it lies in a paragraph.
    pub composition_anchor: Option<(usize, usize)>,
}

/// Lays out every paragraph at `chars_per_row` columns and places the cursor.
pub fn build_view(doc: &Doc, chars_per_row: usize) -> (m: ScreenModel)
    ensures
        layouts_view(m.info.layouts@) == doc_layouts(doc@, chars_per_row as nat),
        m.paragraph_offsets@ == Seq::new(
            doc@.paras.len(),
            |p: int| rows_before(doc_layouts(doc@, chars_per_row as nat), p) as usize,
        ),
        m.lines@ == lines_upto(doc_layouts(doc@, chars_per_row as nat), doc@.paras.len() as int),
        m.info.total_rows == rows_before(doc_layouts(doc@, chars_per_row as nat), doc@.paras.len() as int),
        doc.cursor.0 < doc@.paras.len() ==> {
            let ls = doc_layouts(doc@, chars_per_row as nat);
            let pos = cursor_pos(ls[doc.cursor.0 as int], doc.cursor.1 as nat);
            &&& m.info.cursor_row == rows_before(ls, doc.cursor.0 as int) + pos.0
            &&& m.info.cursor_col == pos.1
        },
        doc.cursor.0 >= doc@.paras.len() ==> m.info.cursor_row == 0 && m.info.cursor_col == 0,
        match doc.composing {
            Some((p, s)) => if p < doc@.paras.len() {
                let ls = doc_layouts(doc@, chars_per_row as nat);
                let pos = cursor_pos(ls[p as int], s as nat);
                m.composition_anchor == Some(((rows_before(ls, p as int) + pos.0) as usize, pos.1 as usize))
            } else {
                m.composition_anchor is None
            },
            None => m.composition_anchor is None,
        },
{
    let ghost ls = doc_layouts(doc@, chars_per_row as nat);
    let mut layouts: Vec<ParagraphLayout> = Vec::new();
    let mut offsets: Vec<usize> = Vec::new();
    let mut lines: Vec<(usize, Option<usize>)> = Vec::new();
    let mut cursor_row: usize = 0;
    let mut cursor_col: usize = 0;
    let mut anchor: Option<(usize, usize)> = None;
    let mut p_idx: usize = 0;
    assert(doc.paragraphs@.len() == doc@.paras.len());
    while p_idx < doc.paragraphs.len()
        invariant
            ls == doc_layouts(doc@, chars_per_row as nat),
            p_idx <= doc@.paras.len(),
            doc.paragraphs@.len() == doc@.paras.len(),
            layouts_view(layouts@) == ls.take(p_idx as int),
            offsets@ == Seq::new(p_idx as nat, |p: int| rows_before(ls, p) as usize),
            lines@ == lines_upto(ls, p_idx as int),
            doc.cursor.0 < p_idx ==> {
                let pos = cursor_pos(ls[doc.cursor.0 as int], doc.cursor.1 as nat);
                &&& cursor_row == rows_before(ls, doc.cursor.0 as int) + pos.0
                &&& cursor_col == pos.1
            },
            doc.cursor.0 >= p_idx ==> cursor_row == 0 && cursor_col == 0,
            match doc.composing {
                Some((p, s)) => if p < p_idx {
                    let pos = cursor_pos(ls[p as int], s as nat);
                    anchor == Some(((rows_before(ls, p as int) + pos.0) as usize, pos.1 as usize))
                } else {
                    anchor is None
                },
                None => anchor is None,
            },
        decreases doc@.paras.len() - p_idx,
    {
        proof {
            lemma_lines_len(ls, p_idx as int);
        }
        let offset = lines.len();
        offsets.push(offset);
        let paragraph = &doc.paragraphs[p_idx];
        let pl = layout_paragraph(paragraph.as_slice(), chars_per_row);
        assert(doc@.paras[p_idx as int] == paragraph@.map_values(|s: Segment| s@));
        assert(pl@ == ls[p_idx as int]);
        let ghost before = lines@;
        if pl.rows.len() == 0 {
            lines.push((p_idx, None));
        } else {
            let mut r: usize = 0;
            while r < pl.rows.len()
                invariant
                    r <= pl@.len(),
                    pl@.len() == pl.rows@.len(),
                    lines@ == before + Seq::new(r as nat, |k: int| (p_idx, Some(k as usize))),
                decreases pl@.len() - r,
            {
                lines.push((p_idx, Some(r)));
                assert(lines@ =~= before + Seq::new((r + 1) as nat, |k: int| (p_idx, Some(k as usize))));
                r = r + 1;
            }
        }
        assert(lines@ =~= lines_upto(ls, p_idx + 1));
        proof {
            lemma_lines_len(ls, p_idx + 1);
            if pl@.len() > 0 && pl@.last().len() > 0 {
                let last = pl@.len() - 1;
                assert(crate::layout::pieces_bounded(pl@[last], (if chars_per_row == 0 { 1 } else { chars_per_row }) + 3));
                assert(pl@.last()[pl@.last().len() - 1] == pl@.last().last());
            }
        }
        assert(lines@.len() == lines.len());
        if let Some((cp, cs)) = doc.composing {
            if cp == p_idx {
                let (row_in_para, col_on_row) = cursor_position(&pl, cs);
                anchor = Some((offset + row_in_para, col_on_row));
            }
        }
        if doc.cursor.0 == p_idx {
            proof {
                if pl@.len() > 0 && pl@.last().len() > 0 {
                    let last = pl@.len() - 1;
                    assert(crate::layout::pieces_bounded(pl@[last], (if chars_per_row == 0 { 1 } else { chars_per_row }) + 3));
                    assert(pl@.last()[pl@.last().len() - 1] == pl@.last().last());
                }
            }
            let (row_in_para, col_on_row) = cursor_position(&pl, doc.cursor.1);
            proof {
                lemma_lines_len(ls, p_idx + 1);
            }
            assert(lines@.len() == lines.len());
            cursor_row = offset + row_in_para;
            cursor_col = col_on_row;
        }
        let ghost lbefore = layouts@;
        let ghost plv = pl@;
        assert(layouts_view(lbefore).len() == lbefore.len());
        assert(lbefore.len() == p_idx);
        layouts.push(pl);
        assert(layouts@ == lbefore.push(pl));
        assert forall|i: int| 0 <= i < p_idx + 1 implies layouts_view(layouts@)[i] == ls.take(p_idx + 1)[i] by {
            if i < p_idx {
                assert(layouts_view(lbefore)[i] == ls.take(p_idx as int)[i]);
            } else {
                assert(layouts@[i]@ == plv);
            }
        }
        assert(layouts_view(layouts@) =~= ls.take(p_idx + 1));
        assert(offsets@ =~= Seq::new((p_idx + 1) as nat, |p: int| rows_before(ls, p) as usize));
        p_idx = p_idx + 1;
    }
    proof {
        lemma_lines_len(ls, p_idx as int);
    }
    assert(ls.take(p_idx as int) =~= ls);
    let total_rows = lines.len();
    ScreenModel {
        info: ViewInfo { total_rows, cursor_row, cursor_col, layouts },
        paragraph_offsets: offsets,
        lines,
        composition_anchor: anchor,
    }
}

/// The first screen row to show so that the cursor's row is visible.
pub open spec fn spec_adjust_scroll(scroll: nat, cursor_row: nat, rows_per_screen: nat) -> nat {
    let rps = if rows_per_screen == 0 { 1 } else { rows_per_screen };
    if cursor_row < scroll {
        cursor_row
    } else if cursor_row >= scroll + rps {
        (cursor_row + 1 - rps) as nat
    } else {
        scroll
    }
}

/// Scrolls just enough that the cursor's row is among the `rows_per_screen` shown.
pub fn adjust_scroll(scroll: usize, cursor_row: usize, rows_per_screen: usize) -> (r: usize)
    requires
        cursor_row >= scroll ==> scroll + (if rows_per_screen == 0 { 1 } else { rows_per_screen }) <= usize::MAX,
        cursor_row >= scroll + (if rows_per_screen == 0 { 1 } else { rows_per_screen }) ==> cursor_row < usize::MAX,
    ensures
        r == spec_adjust_scroll(scroll as nat, cursor_row as nat, rows_per_screen as nat),
{
    let rps = if rows_per_screen == 0 {
        1
    } else {
        rows_per_screen
    };
    if cursor_row < scroll {
        cursor_row
    } else if cursor_row >= scroll + rps {
        cursor_row + 1 - rps
    } else {
        scroll
    }
}

/// `a - b`, or 0 where `b` is larger (`usize::saturating_sub`).
pub fn sat_sub(a: usize, b: usize) -> (r: usize)
    ensures
        r == (if a >= b { (a - b) as nat } else { 0nat }),
{
    if a >= b {
        a - b
    } else {
        0
    }
}

/// Where a screen row lands among the shown rows, if it is shown.
pub fn visible_row(row: usize, scroll: usize, rows_per_screen: usize) -> (r: Option<usize>)
    ensures
        r == (if row >= scroll && row - scroll < rows_per_screen {
            Some((row - scroll) as usize)
        } else if row < scroll && rows_per_screen > 0 {
            Some(0usize)
        } else {
            None
        }),
{
    let v = sat_sub(row, scroll);
    if v < rows_per_screen {
        Some(v)
    } else {
        None
    }
}

/// The terminal cursor's `(column, row)` within the document area, where it is shown.
pub fn screen_cursor(
    cursor_row: usize,
    cursor_col: usize,
    scroll: usize,
    rows_per_screen: usize,
    chars_per_row: usize,
) -> (r: Option<(usize, usize)>)
    ensures
        ({
            let v = if cursor_row >= scroll { (cursor_row - scroll) as nat } else { 0nat };
            if v < rows_per_screen && cursor_col <= chars_per_row {
                r == Some((cursor_col, v as usize))
            } else {
                r is None
            }
        }),
{
    let v = sat_sub(cursor_row, scroll);
    if v < rows_per_screen && cursor_col <= chars_per_row {
        Some((cursor_col, v))
    } else {
        None
    }
}

pub open spec fn ceil_div(a: nat, b: nat) -> nat {
    if a % b == 0 {
        a / b
    } else {
        a / b + 1
    }
}

/// The length of the scrollbar's thumb.
pub open spec fn thumb_len(total: nat, h: nat) -> nat {
    let t = ceil_div(h * h, total + h);
    if t == 0 {
        1
    } else {
        t
    }
}

/// The first cell of the scrollbar's thumb.
pub open spec fn thumb_offset(total: nat, h: nat, scroll: nat) -> nat {
    let room = if h >= thumb_len(total, h) { (h - thumb_len(total, h)) as nat } else { 0nat };
    let max_off = if total >= 2 { (total - 1) as nat } else { 1nat };
    room * scroll / max_off
}

/// The cells of a scrollbar of height `h` for `total` rows scrolled by `scroll`:
/// `true` where the thumb is.
pub fn scrollbar_cells(total: usize, h: usize, scroll: usize) -> (r: Vec<bool>)
    requires
        total + h > 0,
        h * h <= usize::MAX,
        total + h <= usize::MAX,
        h * scroll <= usize::MAX,
    ensures
        r@.len() == h,
        forall|y: int| 0 <= y < h ==> r@[y] == (thumb_offset(total as nat, h as nat, scroll as nat) <= y
            < thumb_offset(total as nat, h as nat, scroll as nat) + thumb_len(total as nat, h as nat)),
{
    let sq = h * h;
    let den = total + h;
    let q = sq / den;
    let c = if sq % den == 0 {
        q
    } else {
        assert(den != 1) by (nonlinear_arith)
            requires
                sq % den != 0,
        ;
        assert(q < usize::MAX) by (nonlinear_arith)
            requires
                den >= 2,
                q == sq / den,
                sq <= usize::MAX,
        ;
        q + 1
    };
    let thumb_h = if c == 0 {
        1
    } else {
        c
    };
    let max_off = if total >= 2 {
        total - 1
    } else {
        1
    };
    let room = sat_sub(h, thumb_h);
    assert(room * scroll <= h * scroll) by (nonlinear_arith)
        requires
            room <= h,
    ;
    let thumb_off = room * scroll / max_off;
    assert(thumb_off == thumb_offset(total as nat, h as nat, scroll as nat));
    let mut cells: Vec<bool> = Vec::new();
    let mut y: usize = 0;
    while y < h
        invariant
            y <= h,
            cells@.len() == y,
            forall|k: int| 0 <= k < y ==> cells@[k] == (thumb_off <= k < thumb_off + thumb_h),
        decreases h - y,
    {
        cells.push(y >= thumb_off && y - thumb_off < thumb_h);
        y = y + 1;
    }
    cells
}

/// A rectangle of terminal cells.
#[derive(Clone, Copy, PartialEq, Eq, Debug)]
pub struct Area {
    pub x: u16,
    pub y: u16,
    pub width: u16,
    pub height: u16,
}

/// `a - b` on `u16`, or 0 where `b` is larger.
pub open spec fn sat_sub16(a: u16, b: u16) -> u16 {
    if a >= b {
        (a - b) as u16
    } else {
        0
    }
}

pub open spec fn min16(a: u16, b: u16) -> u16 {
    if a <= b {
        a
    } else {
        b
    }
}

/// The candidate popup's rectangle and whether it opens upward, anchored at
/// `anchor_col` of `anchor_row` (relative to the document area): below the
/// anchor in the upper half of the screen, above it in the lower half.
pub open spec fn popup_rect(doc: Area, anchor_row: u16, anchor_col: u16, rows_per_screen: nat, max_w: usize, n: usize) -> (Area, bool) {
    let popup_w = min16(((max_w as u16) + 2) as u16, doc.width);
    let popup_h = min16(((n as u16) + 3) as u16, doc.height);
    let reverse = (anchor_row as nat) >= rows_per_screen / 2;
    let x = (doc.x + min16(anchor_col, sat_sub16(doc.width, popup_w))) as u16;
    if reverse {
        let bottom = (doc.y + anchor_row) as u16;
        (Area { x, y: sat_sub16(bottom, popup_h), width: popup_w, height: popup_h }, true)
    } else {
        let top = (doc.y + anchor_row + 1) as u16;
        let max_h = (doc.y + doc.height - top) as u16;
        (Area { x, y: top, width: popup_w, height: min16(popup_h, max_h) }, false)
    }
}

pub fn min_u16(a: u16, b: u16) -> (r: u16)
    ensures
        r == min16(a, b),
{
    if a <= b {
        a
    } else {
        b
    }
}

pub fn sat_sub_u16(a: u16, b: u16) -> (r: u16)
    ensures
        r == sat_sub16(a, b),
{
    if a >= b {
        a - b
    } else {
        0
    }
}

/// Places the candidate popup for `n` candidates whose widest label is `max_w` columns.
pub fn popup_area(doc: Area, anchor_row: u16, anchor_col: u16, rows_per_screen: usize, max_w: usize, n: usize) -> (r: (Area, bool))
    requires
        (max_w as u16) + 2 <= u16::MAX,
        (n as u16) + 3 <= u16::MAX,
        doc.x + min16(anchor_col, sat_sub16(doc.width, min16(((max_w as u16) + 2) as u16, doc.width))) <= u16::MAX,
        (anchor_row as nat) >= (rows_per_screen as nat) / 2 ==> doc.y + anchor_row <= u16::MAX,
        (anchor_row as nat) < (rows_per_screen as nat) / 2 ==> doc.y + anchor_row + 1 <= doc.y + doc.height <= u16::MAX,
    ensures
        r == popup_rect(doc, anchor_row, anchor_col, rows_per_screen as nat, max_w, n),
{
    let popup_w = min_u16(max_w as u16 + 2, doc.width);
    let popup_h = min_u16(n as u16 + 3, doc.height);
    let reverse = anchor_row as usize >= rows_per_screen / 2;
    let x = doc.x + min_u16(anchor_col, sat_sub_u16(doc.width, popup_w));
    if reverse {
        let bottom = doc.y + anchor_row;
        let top = sat_sub_u16(bottom, popup_h);
        (Area { x, y: top, width: popup_w, height: popup_h }, true)
    } else {
        let top = doc.y + anchor_row + 1;
        let max_h = doc.y + doc.height - top;
        (Area { x, y: top, width: popup_w, height: min_u16(popup_h, max_h) }, false)
    }
}

/// Splits the popup's inner area into the candidate rows and the one-row page
/// indicator: the indicator on top when the popup opens upward, at the bottom
/// otherwise; it leaves one column free on the right.
pub fn popup_sections(inner: Area, reverse: bool) -> (r: (Area, Area))
    requires
        reverse ==> inner.y + 1 <= u16::MAX,
        !reverse ==> inner.y + sat_sub16(inner.height, 1) <= u16::MAX,
    ensures
        reverse ==> r == (Area { x: inner.x, y: (inner.y + 1) as u16, width: inner.width, height: sat_sub16(inner.height, 1) },
            Area { x: inner.x, y: inner.y, width: sat_sub16(inner.width, 1), height: 1 }),
        !reverse ==> r == (Area { x: inner.x, y: inner.y, width: inner.width, height: sat_sub16(inner.height, 1) },
            Area { x: inner.x, y: (inner.y + sat_sub16(inner.height, 1)) as u16, width: sat_sub16(inner.width, 1), height: 1 }),
{
    let ind_w = sat_sub_u16(inner.width, 1);
    if reverse {
        (
            Area { x: inner.x, y: inner.y + 1, width: inner.width, height: sat_sub_u16(inner.height, 1) },
            Area { x: inner.x, y: inner.y, width: ind_w, height: 1 },
        )
    } else {
        let last_y = inner.y + sat_sub_u16(inner.height, 1);
        (
            Area { x: inner.x, y: inner.y, width: inner.width, height: sat_sub_u16(inner.height, 1) },
            Area { x: inner.x, y: last_y, width: ind_w, height: 1 },
        )
    }
}

/// The candidate indices shown in a popup whose inner area has `inner_rows` rows
/// (one of them kept for the page indicator), in screen order: nearest the
/// anchor first, so bottom-up when the popup opens upward.
pub fn popup_line_order(n: usize, inner_rows: usize, reverse: bool) -> (r: Vec<usize>)
    ensures
        ({
            let visible = if inner_rows == 0 { 0nat } else { let m = (inner_rows - 1) as nat; if n <= m { n as nat } else { m } };
            &&& r@.len() == visible
            &&& forall|k: int| 0 <= k < visible ==> r@[k] == (if reverse { visible - 1 - k } else { k })
        }),
{
    let visible = if inner_rows == 0 {
        0
    } else if n <= inner_rows - 1 {
        n
    } else {
        inner_rows - 1
    };
    let mut out: Vec<usize> = Vec::new();
    let mut k: usize = 0;
    while k < visible
        invariant
            k <= visible,
            out@.len() == k,
            forall|j: int| 0 <= j < k ==> out@[j] == (if reverse { visible - 1 - j } else { j }),
        decreases visible - k,
    {
        if reverse {
            out.push(visible - 1 - k);
        } else {
            out.push(k);
        }
        k = k + 1;
    }
    out
}

/// The page indicator: arrows toward the pages before and after.
pub fn format_indicator(has_prev: bool, has_next: bool) -> (r: &'static str)
    ensures
        !has_prev && !has_next ==> r@ == ""@,
        !has_prev && has_next ==> r@ == "\u{2192}"@,
        has_prev && !has_next ==> r@ == "\u{2190}"@,
        has_prev && has_next ==> r@ == "\u{2190} \u{2192}"@,
{
    if has_prev {
        if has_next {
            "\u{2190} \u{2192}"
        } else {
            "\u{2190}"
        }
    } else if has_next {
        "\u{2192}"
    } else {
        ""
    }
}

/// The key label shown before the candidate at `idx` of the page: its pick key, or `?`.
pub fn popup_key_label(idx: usize) -> (r: char)
    ensures
        idx < 10 ==> r == popup_keys()[idx as int],
        idx >= 10 ==> r == '?',
{
    let keys: [char; 10] = ['1', '2', '3', '4', '5', '6', '7', '8', '9', '0'];
    if idx < 10 {
        assert(keys@ == popup_keys());
        keys[idx]
    } else {
        '?'
    }
}

/// The widest popup label: two columns for the key and its space, then the candidate.
pub open spec fn label_width(c: Seq<char>) -> nat {
    2 + spec_str_width(c) as nat
}

/// Whether a page of `n` candidates is shown in a popup: only where it has some.
pub fn page_has_popup(n: usize) -> (r: bool)
    ensures
        r == (n > 0),
{
    n > 0
}

/// Column count of the widest label among `cands` (4 where there are none), or
/// `None` where a label's width does not fit in a `usize`.
pub fn popup_text_width(cands: &[Candidate]) -> (r: Option<usize>)
    ensures
        cands@.len() == 0 ==> r == Some(4usize),
        (exists|i: int| 0 <= i < cands@.len() && label_width(#[trigger] cands@[i]@) > usize::MAX) <==> r is None,
        r is Some && cands@.len() > 0 ==> {
            &&& exists|i: int| 0 <= i < cands@.len() && label_width(#[trigger] cands@[i]@) == r->0
            &&& forall|i: int| 0 <= i < cands@.len() ==> label_width(#[trigger] cands@[i]@) <= r->0
        },
{
    if cands.len() == 0 {
        return Some(4);
    }
    let mut best: usize = 0;
    let mut i: usize = 0;
    while i < cands.len()
        invariant
            i <= cands@.len(),
            cands@.len() > 0,
            forall|j: int| 0 <= j < i ==> label_width(#[trigger] cands@[j]@) <= usize::MAX,
            forall|j: int| 0 <= j < i ==> label_width(#[trigger] cands@[j]@) <= best,
            i > 0 ==> exists|j: int| 0 <= j < i && label_width(#[trigger] cands@[j]@) == best,
        decreases cands@.len() - i,
    {
        let w = str_width(cands[i].text.as_str());
        if w > usize::MAX - 2 {
            assert(label_width(cands@[i as int]@) > usize::MAX);
            return None;
        }
        let lw = w + 2;
        if i == 0 || lw > best {
            best = lw;
        }
        assert(label_width(cands@[i as int]@) == lw);
        i = i + 1;
    }
    Some(best)
}

/// Scrolls the document view one row up (Ctrl+Up).
pub fn scroll_up(doc: &mut Doc)
    ensures
        final(doc)@ == (DocView {
            scroll_offset: if old(doc).scroll_offset > 0 { (old(doc).scroll_offset - 1) as usize } else { 0 },
            ..old(doc)@
        }),
{
    doc.scroll_offset = sat_sub(doc.scroll_offset, 1);
}

/// Scrolls the document view one row down (Ctrl+Down), no further than the last row.
pub fn scroll_down(doc: &mut Doc, total_rows: usize)
    requires
        old(doc).scroll_offset < usize::MAX,
    ensures
        final(doc)@ == (DocView {
            scroll_offset: ({
                let max = if total_rows > 0 { (total_rows - 1) as nat } else { 0nat };
                if max <= old(doc).scroll_offset + 1 { max as usize } else { (old(doc).scroll_offset + 1) as usize }
            }),
            ..old(doc)@
        }),
{
    let max = sat_sub(total_rows, 1);
    let next = doc.scroll_offset + 1;
    doc.scroll_offset = if max <= next {
        max
    } else {
        next
    };
}


/// After scrolling, the cursor's row is among the rows shown; a scroll that
/// already shows it is kept, and otherwise it moves just far enough: the
/// cursor's row becomes the first row shown (above) or the last (below).
pub proof fn law_scroll_shows_cursor(scroll: nat, cursor_row: nat, rows_per_screen: nat)
    ensures
        ({
            let rp = if rows_per_screen == 0 { 1 } else { rows_per_screen };
            let r = spec_adjust_scroll(scroll, cursor_row, rows_per_screen);
            &&& r <= cursor_row < r + rp
            &&& scroll <= cursor_row < scroll + rp ==> r == scroll
            &&& cursor_row < scroll ==> r == cursor_row
            &&& cursor_row >= scroll + rp ==> r + rp == cursor_row + 1
        }),
{
}

/// The popup keys: `1` to `9` pick the first to ninth candidate, `0` the tenth,
/// and no other key picks one.
pub proof fn law_popup_key_positions(c: char)
    ensures
        spec_popup_index('1') == Some(0usize),
        spec_popup_index('2') == Some(1usize),
        spec_popup_index('5') == Some(4usize),
        spec_popup_index('9') == Some(8usize),
        spec_popup_index('0') == Some(9usize),
        '1' <= c <= '9' ==> spec_popup_index(c) == Some(((c as u32) - ('1' as u32)) as usize),
        !('0' <= c <= '9') ==> spec_popup_index(c) is None,
{
}

/// A paragraph takes as many screen rows as its layout has, at least one.
pub proof fn law_rows_before_counts_rows(ls: Seq<Seq<Seq<PieceView>>>, p: int)
    requires
        0 <= p,
    ensures
        rows_before(ls, 0) == 0,
        rows_before(ls, p + 1) == rows_before(ls, p) + (if ls[p].len() == 0 { 1 } else { ls[p].len() }),
{
}

proof fn lemma_row_owner_exists(ls: Seq<Seq<Seq<PieceView>>>, target: nat, n: int)
    requires
        0 <= n <= ls.len(),
        target < rows_before(ls, n),
    ensures
        exists|p: int| owns_row(ls, p, target),
    decreases n,
{
    if target < rows_before(ls, n - 1) {
        lemma_row_owner_exists(ls, target, n - 1);
    } else {
        assert(owns_row(ls, n - 1, target));
    }
}

proof fn lemma_closest_is_nearest(row: Seq<PieceView>, col: nat, n: int)
    requires
        1 <= n <= row.len(),
    ensures
        0 <= closest_index(row, col, n) < n,
        forall|j: int| 0 <= j < n ==> dist(row[closest_index(row, col, n)].col_start, col) <= dist(#[trigger] row[j].col_start, col),
        forall|j: int| 0 <= j < closest_index(row, col, n) ==> dist(row[closest_index(row, col, n)].col_start, col) < dist(
            #[trigger] row[j].col_start,
            col,
        ),
    decreases n,
{
    if n > 1 {
        lemma_closest_is_nearest(row, col, n - 1);
    }
}

/// Moving to screen row `target_row` puts the cursor in the paragraph that holds
/// that row, before the segment of the first piece on the row whose start
/// column is nearest `target_col` (at the paragraph's start where the row has
/// no piece); below the last row, at the end of the last paragraph.
pub proof fn law_cursor_for_row_nearest(
    d: DocView,
    ls: Seq<Seq<Seq<PieceView>>>,
    target_row: nat,
    target_col: nat,
)
    requires
        ls.len() <= usize::MAX,
        d.fits_machine(),
        forall|p: int, r: int, j: int|
            0 <= p < ls.len() && 0 <= r < ls[p].len() && 0 <= j < ls[p][r].len() ==> (#[trigger] ls[p][r][j]).seg_idx
                <= usize::MAX,
    ensures
        ({
            let res = cursor_for_row(d, ls, target_row, target_col);
            &&& target_row < rows_before(ls, ls.len() as int) ==> {
                let p = res.0 as int;
                let r = target_row - rows_before(ls, p);
                &&& owns_row(ls, p, target_row)
                &&& (0 <= r < ls[p].len() && ls[p][r].len() > 0) ==> exists|j: int|
                    0 <= j < ls[p][r].len() && (#[trigger] ls[p][r][j]).seg_idx == res.1 && (forall|k: int|
                        0 <= k < ls[p][r].len() ==> dist(ls[p][r][j].col_start, target_col) <= dist(
                            #[trigger] ls[p][r][k].col_start,
                            target_col,
                        )) && (forall|k: int|
                        0 <= k < j ==> dist(ls[p][r][j].col_start, target_col) < dist(
                            #[trigger] ls[p][r][k].col_start,
                            target_col,
                        ))
                &&& !(0 <= r < ls[p].len() && ls[p][r].len() > 0) ==> res.1 == 0
            }
            &&& target_row >= rows_before(ls, ls.len() as int) && d.paras.len() > 0 ==> res == (
                (d.paras.len() - 1) as usize,
                d.paras.last().len() as usize,
            )
        }),
{
    if target_row < rows_before(ls, ls.len() as int) {
        lemma_row_owner_exists(ls, target_row, ls.len() as int);
        let p = choose|p: int| owns_row(ls, p, target_row);
        let r = target_row - rows_before(ls, p);
        if 0 <= r < ls[p].len() && ls[p][r].len() > 0 {
            let row = ls[p][r];
            lemma_closest_is_nearest(row, target_col, row.len() as int);
            let j = closest_index(row, target_col, row.len() as int);
            assert(row[j].seg_idx == cursor_for_row(d, ls, target_row, target_col).1);
        }
    }
}


/// The candidate popup lies within the document area's columns, starting at the
/// anchor's column where it fits and pushed left where it would not; it opens
/// upward exactly when the anchor is in the lower half of the screen. Opening
/// downward it starts on the row below the anchor and stays above the area's
/// bottom; opening upward it ends on the anchor's row where there is room.
/// It is at most two columns wider than the widest label and three rows taller
/// than the number of candidates.
pub proof fn law_popup_placement(doc: Area, anchor_row: u16, anchor_col: u16, rows_per_screen: usize, max_w: usize, n: usize)
    requires
        (max_w as u16) + 2 <= u16::MAX,
        (n as u16) + 3 <= u16::MAX,
        doc.x + min16(anchor_col, sat_sub16(doc.width, min16(((max_w as u16) + 2) as u16, doc.width))) <= u16::MAX,
        (anchor_row as nat) >= (rows_per_screen as nat) / 2 ==> doc.y + anchor_row <= u16::MAX,
        (anchor_row as nat) < (rows_per_screen as nat) / 2 ==> doc.y + anchor_row + 1 <= doc.y + doc.height <= u16::MAX,
    ensures
        ({
            let (a, up) = popup_rect(doc, anchor_row, anchor_col, rows_per_screen as nat, max_w, n);
            &&& up == ((anchor_row as nat) >= (rows_per_screen as nat) / 2)
            &&& a.width <= doc.width && a.width <= (max_w as u16) + 2
            &&& (a.width == doc.width || a.width == (max_w as u16) + 2)
            &&& doc.x <= a.x && a.x + a.width <= doc.x + doc.width
            &&& anchor_col + a.width <= doc.width ==> a.x == doc.x + anchor_col
            &&& a.height <= (n as u16) + 3
            &&& !up ==> a.y == doc.y + anchor_row + 1 && a.y + a.height <= doc.y + doc.height
            &&& up && doc.y + anchor_row >= a.height ==> a.y + a.height == doc.y + anchor_row
        }),
{
}


proof fn lemma_ceil_div_bounds(a: nat, b: nat)
    requires
        b > 0,
    ensures
        ceil_div(a, b) * b >= a,
        a > 0 ==> ceil_div(a, b) >= 1 && (ceil_div(a, b) - 1) * b < a,
{
    vstd::arithmetic::div_mod::lemma_fundamental_div_mod(a as int, b as int);
    let q = a / b;
    let r = a % b;
    assert(0 <= r < b);
    if r == 0 {
        assert(ceil_div(a, b) * b == a) by (nonlinear_arith)
            requires
                a == b * q + r,
                r == 0,
                ceil_div(a, b) == q,
        ;
        if a > 0 {
            assert(q >= 1) by (nonlinear_arith)
                requires
                    a == b * q,
                    a > 0,
                    b > 0,
                    q >= 0,
            ;
            assert((ceil_div(a, b) - 1) * b < a) by (nonlinear_arith)
                requires
                    a == b * q,
                    ceil_div(a, b) == q,
                    b > 0,
            ;
        }
    } else {
        assert(ceil_div(a, b) * b >= a && (ceil_div(a, b) - 1) * b < a) by (nonlinear_arith)
            requires
                a == b * q + r,
                0 < r < b,
                ceil_div(a, b) == q + 1,
        ;
    }
}

/// The scrollbar's thumb is at least one cell long and as long as the share of
/// the rows shown, rounded up: `len * (total + h) >= h * h`, one cell less
/// would fall short. Its offset grows with the scroll and, for a scroll within
/// the document, leaves the thumb inside the bar.
pub proof fn law_scrollbar_thumb(total: nat, h: nat, scroll: nat, scroll2: nat)
    requires
        total + h > 0,
    ensures
        thumb_len(total, h) >= 1,
        thumb_len(total, h) * (total + h) >= h * h,
        thumb_len(total, h) == 1 || (thumb_len(total, h) - 1) * (total + h) < h * h,
        scroll <= scroll2 ==> thumb_offset(total, h, scroll) <= thumb_offset(total, h, scroll2),
        scroll + 1 <= total && thumb_len(total, h) <= h ==> thumb_offset(total, h, scroll) + thumb_len(total, h) <= h,
{
    lemma_ceil_div_bounds(h * h, total + h);
    let t = ceil_div(h * h, total + h);
    if t == 0 {
        assert(h * h == 0) by (nonlinear_arith)
            requires
                t * (total + h) >= h * h,
                t == 0,
        ;
    }
    let room = if h >= thumb_len(total, h) { (h - thumb_len(total, h)) as nat } else { 0nat };
    let max_off = if total >= 2 { (total - 1) as nat } else { 1nat };
    if scroll <= scroll2 {
        assert(room * scroll <= room * scroll2) by (nonlinear_arith)
            requires
                scroll <= scroll2,
        ;
        vstd::arithmetic::div_mod::lemma_div_is_ordered((room * scroll) as int, (room * scroll2) as int, max_off as int);
    }
    if scroll + 1 <= total && thumb_len(total, h) <= h {
        assert(scroll <= max_off);
        assert(room * scroll <= room * max_off) by (nonlinear_arith)
            requires
                scroll <= max_off,
        ;
        vstd::arithmetic::div_mod::lemma_div_is_ordered((room * scroll) as int, (room * max_off) as int, max_off as int);
        vstd::arithmetic::div_mod::lemma_div_multiples_vanish(room as int, max_off as int);
        assert((room * max_off) / max_off == room) by (nonlinear_arith)
            requires
                (max_off * room) / max_off == room,
        ;
    }
}


/// Screen line `rows_before(p) + r` shows row `r` of paragraph `p`, and an empty
/// paragraph takes one line showing nothing: paragraphs follow each other, each
/// with its rows in order.
pub proof fn law_screen_lines_in_order(ls: Seq<Seq<Seq<PieceView>>>, n: int, p: int, r: int)
    requires
        0 <= p < n <= ls.len(),
        ls.len() <= usize::MAX,
        0 <= r,
        forall|q: int| 0 <= q < ls.len() ==> #[trigger] ls[q].len() <= usize::MAX,
    ensures
        lines_upto(ls, n).len() == rows_before(ls, n),
        r < ls[p].len() ==> lines_upto(ls, n)[rows_before(ls, p) + r] == (p as usize, Some(r as usize)),
        ls[p].len() == 0 ==> lines_upto(ls, n)[rows_before(ls, p) as int] == (p as usize, None::<usize>),
    decreases n,
{
    lemma_lines_len(ls, n);
    lemma_lines_len(ls, n - 1);
    if p < n - 1 {
        law_screen_lines_in_order(ls, n - 1, p, r);
        lemma_rows_before_monotone(ls, p + 1, n - 1);
        let a = lines_upto(ls, n - 1);
        if r < ls[p].len() {
            assert(lines_upto(ls, n)[rows_before(ls, p) + r] == a[rows_before(ls, p) + r]);
        }
        if ls[p].len() == 0 {
            assert(lines_upto(ls, n)[rows_before(ls, p) as int] == a[rows_before(ls, p) as int]);
        }
    }
}

} // verus!
