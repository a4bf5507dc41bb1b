//! The document: paragraphs of segments, a cursor, and at most one composition.

use vstd::prelude::*;
use crate::text::{char_string, chars_of, spec_str_width, str_width, string_pop, string_push};

verus! {

/// Atomic unit of text in the document.
#[derive(Debug)]
pub enum Segment {
    /// Committed text: a hanzi, a phrase, an ASCII run, a full-width blank or
    /// punctuation. Atomic for cursor navigation.
    Committed(String),
    /// Active composition: raw keystrokes the user has typed and not yet committed.
    Composing(String),
}

/// What a segment holds, as a mathematical value.
pub enum SegmentView {
    Committed(Seq<char>),
    Composing(Seq<char>),
}

impl SegmentView {
    pub open spec fn text(self) -> Seq<char> {
        match self {
            SegmentView::Committed(t) => t,
            SegmentView::Composing(t) => t,
        }
    }
}

impl View for Segment {
    type V = SegmentView;

    open spec fn view(&self) -> SegmentView {
        match self {
            Segment::Committed(s) => SegmentView::Committed(s@),
            Segment::Composing(s) => SegmentView::Composing(s@),
        }
    }
}

impl Segment {
    /// The segment's text, whichever kind it is.
    pub fn text(&self) -> (r: &str)
        ensures
            r@ == self@.text(),
    {
        match self {
            Segment::Committed(s) => s.as_str(),
            Segment::Composing(s) => s.as_str(),
        }
    }

    /// Display width of the segment's text, in terminal columns.
    pub fn width(&self) -> (r: usize)
        ensures
            r == spec_str_width(self@.text()),
    {
        str_width(self.text())
    }
}

/// The views of a row of segments.
pub open spec fn seg_views(v: Seq<Segment>) -> Seq<SegmentView> {
    v.map_values(|s: Segment| s@)
}

/// One committed segment per character of `t`, in order.
pub open spec fn committed_run(t: Seq<char>) -> Seq<SegmentView> {
    Seq::new(t.len(), |i: int| SegmentView::Committed(seq![t[i]]))
}

/// Whether `(p, s)` names a segment of `paras` that is a composition.
pub open spec fn is_composing_at(paras: Seq<Seq<SegmentView>>, p: int, s: int) -> bool {
    &&& 0 <= p < paras.len()
    &&& 0 <= s < paras[p].len()
    &&& paras[p][s] is Composing
}

/// `composing` names the one composition of `paras`, whose text is not empty,
/// or is `None` and `paras` holds no composition at all.
pub open spec fn composing_ok(paras: Seq<Seq<SegmentView>>, composing: Option<(usize, usize)>) -> bool {
    match composing {
        Some((p, s)) => {
            &&& is_composing_at(paras, p as int, s as int)
            &&& paras[p as int][s as int].text().len() > 0
            &&& forall|i: int, j: int| #[trigger] is_composing_at(paras, i, j) ==> i == p && j == s
        },
        None => forall|i: int, j: int| !#[trigger] is_composing_at(paras, i, j),
    }
}

/// The cursor names a paragraph and a position within it (possibly its end).
pub open spec fn cursor_ok(paras: Seq<Seq<SegmentView>>, cursor: (usize, usize)) -> bool {
    &&& cursor.0 < paras.len()
    &&& cursor.1 <= paras[cursor.0 as int].len()
}

/// Well-formedness of a document.
pub open spec fn doc_wf(
    paras: Seq<Seq<SegmentView>>,
    cursor: (usize, usize),
    composing: Option<(usize, usize)>,
) -> bool {
    &&& paras.len() >= 1
    &&& cursor_ok(paras, cursor)
    &&& composing_ok(paras, composing)
}

/// The paragraph views of a sequence of paragraph vectors.
pub open spec fn paras_of(pg: Seq<Vec<Segment>>) -> Seq<Seq<SegmentView>> {
    pg.map_values(|p: Vec<Segment>| seg_views(p@))
}

proof fn lemma_paras_set(pg: Seq<Vec<Segment>>, p: int, v: Vec<Segment>)
    requires
        0 <= p < pg.len(),
    ensures
        paras_of(pg.update(p, v)) == paras_of(pg).update(p, seg_views(v@)),
{
    assert(paras_of(pg.update(p, v)) =~= paras_of(pg).update(p, seg_views(v@)));
}

proof fn lemma_seg_views_insert(v: Seq<Segment>, i: int, x: Segment)
    requires
        0 <= i <= v.len(),
    ensures
        seg_views(v.insert(i, x)) == seg_views(v).insert(i, x@),
{
    assert(seg_views(v.insert(i, x)) =~= seg_views(v).insert(i, x@));
}

proof fn lemma_seg_views_update(v: Seq<Segment>, i: int, x: Segment)
    requires
        0 <= i < v.len(),
    ensures
        seg_views(v.update(i, x)) == seg_views(v).update(i, x@),
{
    assert(seg_views(v.update(i, x)) =~= seg_views(v).update(i, x@));
}

proof fn lemma_seg_views_remove(v: Seq<Segment>, i: int)
    requires
        0 <= i < v.len(),
    ensures
        seg_views(v.remove(i)) == seg_views(v).remove(i),
{
    assert(seg_views(v.remove(i)) =~= seg_views(v).remove(i));
}


/// Where the composition moves when `n` segments are inserted at `(p, s)`.
pub open spec fn shift_for_insert(
    c: Option<(usize, usize)>,
    p: usize,
    s: usize,
    n: nat,
) -> Option<(usize, usize)> {
    match c {
        Some((cp, cs)) => if cp == p && cs >= s {
            Some((cp, (cs + n) as usize))
        } else {
            c
        },
        None => None,
    }
}

/// Where the composition moves when the segment at `(p, s)` is deleted
/// (`None` where that segment was the composition itself).
pub open spec fn shift_for_delete(c: Option<(usize, usize)>, p: usize, s: usize) -> Option<(usize, usize)> {
    match c {
        Some((cp, cs)) => if cp == p && cs >= s {
            if cs == s {
                None
            } else {
                Some((cp, (cs - 1) as usize))
            }
        } else {
            c
        },
        None => None,
    }
}

/// Where the composition moves when paragraph `p + 1` is appended to paragraph `p`.
pub open spec fn shift_for_join(
    c: Option<(usize, usize)>,
    p: usize,
    prev_len: nat,
) -> Option<(usize, usize)> {
    match c {
        Some((cp, cs)) => if cp == p + 1 {
            Some((p, (cs + prev_len) as usize))
        } else if cp > p + 1 {
            Some(((cp - 1) as usize, cs))
        } else {
            c
        },
        None => None,
    }
}

/// Where the composition moves when paragraph `p` is split at segment `s`:
/// into the new paragraph where it lies after the split, one paragraph down
/// where it lies in a later paragraph. The second move is deliberate: left
/// where it was, the recorded position would name the wrong slot, and the next
/// keystroke would open a second composing segment, while a document holds at
/// most one.
pub open spec fn shift_for_break(c: Option<(usize, usize)>, p: usize, s: usize) -> Option<(usize, usize)> {
    match c {
        Some((cp, cs)) => if cp == p && cs >= s {
            Some(((p + 1) as usize, (cs - s) as usize))
        } else if cp > p {
            Some(((cp + 1) as usize, cs))
        } else {
            c
        },
        None => None,
    }
}

/// A document as a mathematical value.
#[verifier::ext_equal]
pub struct DocView {
    pub paras: Seq<Seq<SegmentView>>,
    pub cursor: (usize, usize),
    pub composing: Option<(usize, usize)>,
    pub scroll_offset: usize,
}

impl DocView {
    pub open spec fn wf(self) -> bool {
        doc_wf(self.paras, self.cursor, self.composing)
    }

    /// The cursor indexes a paragraph and a position up to its end.
    pub open spec fn cursor_in_range(self) -> bool {
        cursor_ok(self.paras, self.cursor)
    }

    /// Where a composition is recorded, it indexes an existing segment.
    pub open spec fn composing_in_range(self) -> bool {
        self.composing matches Some((p, s)) ==> p < self.paras.len() && s < self.paras[p as int].len()
    }

    /// The recorded composition position holds a composing segment.
    pub open spec fn has_live_composition(self) -> bool {
        &&& self.composing matches Some((p, s))
        &&& is_composing_at(self.paras, p as int, s as int)
    }

    /// The text of the segment at the recorded composition position.
    pub open spec fn composing_text(self) -> Seq<char> {
        let (p, s) = self.composing.unwrap();
        self.paras[p as int][s as int].text()
    }

    /// Inserting `n` segments at the cursor cannot overflow the composition's index:
    /// a composition after the cursor lies within its paragraph or has room to move.
    pub open spec fn insert_fits(self, n: nat) -> bool {
        self.composing matches Some((cp, cs)) ==> (cp == self.cursor.0 && cs >= self.cursor.1 ==> cs
            < self.paras[cp as int].len() || cs + n <= usize::MAX)
    }

    /// Joining the cursor's paragraph to the previous one cannot overflow the
    /// composition's index.
    pub open spec fn join_left_fits(self) -> bool {
        self.cursor.1 == 0 && self.cursor.0 > 0 ==> (self.composing matches Some((cp, cs)) ==> (cp
            == self.cursor.0 ==> cs < self.paras[cp as int].len() || cs + self.paras[self.cursor.0
            - 1].len() <= usize::MAX))
    }

    /// Joining the next paragraph to the cursor's cannot overflow the composition's index.
    pub open spec fn join_under_fits(self) -> bool {
        let (p, s) = self.cursor;
        s >= self.paras[p as int].len() && p + 1 < self.paras.len() ==> (self.composing matches Some((
            cp,
            cs,
        )) ==> (cp == p + 1 ==> (cs < self.paras[cp as int].len() && s == self.paras[p as int].len())
            || cs + s <= usize::MAX))
    }

    /// Every length fits in a `usize`, as it does for a document held in vectors.
    pub open spec fn fits_machine(self) -> bool {
        &&& self.paras.len() <= usize::MAX
        &&& forall|i: int| 0 <= i < self.paras.len() ==> #[trigger] self.paras[i].len() <= usize::MAX
    }

    /// The cursor is at the end of the last paragraph.
    pub open spec fn cursor_at_doc_end(self) -> bool {
        &&& self.cursor.0 + 1 == self.paras.len()
        &&& self.cursor.1 == self.paras[self.cursor.0 as int].len()
    }

    /// The cursor is at the start of the first paragraph.
    pub open spec fn cursor_at_doc_start(self) -> bool {
        self.cursor.0 == 0 && self.cursor.1 == 0
    }

    /// The paragraph `paras[p]` with `row` in its place.
    pub open spec fn with_row(self, p: usize, row: Seq<SegmentView>) -> DocView {
        DocView { paras: self.paras.update(p as int, row), ..self }
    }

    pub open spec fn open_or_extend_composition(self, c: char) -> DocView {
        if self.has_live_composition() {
            let (p, s) = self.composing.unwrap();
            self.with_row(
                p,
                self.paras[p as int].update(s as int, SegmentView::Composing(self.composing_text().push(c))),
            )
        } else {
            let (p, s) = self.cursor;
            DocView {
                composing: Some(self.cursor),
                ..self.with_row(p, self.paras[p as int].insert(s as int, SegmentView::Composing(seq![c])))
            }
        }
    }

    /// The cursor after the segment at `(p, s)` is removed: it keeps standing
    /// before the same segment.
    pub open spec fn cursor_after_removal(self, p: usize, s: usize) -> (usize, usize) {
        if self.cursor.0 == p && self.cursor.1 > s {
            (p, (self.cursor.1 - 1) as usize)
        } else {
            self.cursor
        }
    }

    pub open spec fn shrink_composition(self) -> DocView {
        if !self.has_live_composition() {
            self
        } else {
            let (p, s) = self.composing.unwrap();
            let t = self.composing_text();
            if t.len() <= 1 {
                DocView {
                    composing: None,
                    cursor: self.cursor_after_removal(p, s),
                    ..self.with_row(p, self.paras[p as int].remove(s as int))
                }
            } else {
                self.with_row(
                    p,
                    self.paras[p as int].update(s as int, SegmentView::Composing(t.drop_last())),
                )
            }
        }
    }

    pub open spec fn cancel_composition(self) -> DocView {
        match self.composing {
            Some((p, s)) => DocView {
                composing: None,
                cursor: self.cursor_after_removal(p, s),
                ..self.with_row(p, self.paras[p as int].remove(s as int))
            },
            None => self,
        }
    }

    pub open spec fn commit_composition(self, t: Seq<char>) -> DocView {
        match self.composing {
            Some((p, s)) => DocView {
                cursor: (p, (s + t.len()) as usize),
                composing: None,
                ..self.with_row(
                    p,
                    self.paras[p as int].take(s as int) + committed_run(t) + self.paras[p as int].skip(
                        s + 1,
                    ),
                )
            },
            None => self,
        }
    }

    pub open spec fn insert_committed(self, t: Seq<char>) -> DocView {
        let (p, s) = self.cursor;
        DocView {
            cursor: (p, (s + t.len()) as usize),
            composing: shift_for_insert(self.composing, p, s, t.len()),
            ..self.with_row(
                p,
                self.paras[p as int].take(s as int) + committed_run(t) + self.paras[p as int].skip(
                    s as int,
                ),
            )
        }
    }

    pub open spec fn break_line(self) -> DocView {
        let (p, s) = self.cursor;
        DocView {
            paras: self.paras.update(p as int, self.paras[p as int].take(s as int)).insert(
                p + 1,
                self.paras[p as int].skip(s as int),
            ),
            cursor: ((p + 1) as usize, 0),
            composing: shift_for_break(self.composing, p, s),
            ..self
        }
    }

    /// Paragraph `p + 1` appended to paragraph `p`, the composition following it.
    pub open spec fn join_with_next(self, p: usize) -> DocView {
        DocView {
            paras: self.paras.remove(p + 1).update(p as int, self.paras[p as int] + self.paras[p + 1]),
            composing: shift_for_join(self.composing, p, self.paras[p as int].len()),
            ..self
        }
    }

    pub open spec fn delete_segment_left(self) -> DocView {
        let (p, s) = self.cursor;
        if s > 0 {
            DocView {
                cursor: (p, (s - 1) as usize),
                composing: shift_for_delete(self.composing, p, (s - 1) as usize),
                ..self.with_row(p, self.paras[p as int].remove(s - 1))
            }
        } else if p > 0 {
            let prev = (p - 1) as usize;
            DocView {
                cursor: (prev, self.paras[prev as int].len() as usize),
                ..self.join_with_next(prev)
            }
        } else {
            self
        }
    }

    pub open spec fn delete_segment_under(self) -> DocView {
        let (p, s) = self.cursor;
        if s < self.paras[p as int].len() {
            DocView {
                composing: shift_for_delete(self.composing, p, s),
                ..self.with_row(p, self.paras[p as int].remove(s as int))
            }
        } else if p + 1 < self.paras.len() {
            DocView { composing: shift_for_join(self.composing, p, s as nat), ..self.join_with_next(p) }
        } else {
            self
        }
    }

    pub open spec fn move_cursor_left(self) -> DocView {
        let (p, s) = self.cursor;
        if s > 0 {
            DocView { cursor: (p, (s - 1) as usize), ..self }
        } else if p > 0 {
            DocView { cursor: ((p - 1) as usize, self.paras[p - 1].len() as usize), ..self }
        } else {
            self
        }
    }

    pub open spec fn move_cursor_right(self) -> DocView {
        let (p, s) = self.cursor;
        if s < self.paras[p as int].len() {
            DocView { cursor: (p, (s + 1) as usize), ..self }
        } else if p + 1 < self.paras.len() {
            DocView { cursor: ((p + 1) as usize, 0), ..self }
        } else {
            self
        }
    }

    pub open spec fn move_cursor_home(self) -> DocView {
        DocView { cursor: (self.cursor.0, 0), ..self }
    }

    pub open spec fn move_cursor_end(self) -> DocView {
        DocView { cursor: (self.cursor.0, self.paras[self.cursor.0 as int].len() as usize), ..self }
    }
}

/// The empty document: one empty paragraph, cursor at its start, no composition.
pub open spec fn empty_doc() -> DocView {
    DocView {
        paras: seq![Seq::<SegmentView>::empty()],
        cursor: (0, 0),
        composing: None,
        scroll_offset: 0,
    }
}

// ---------------------------------------------------------------------------
// Well-formedness is kept by every operation.

/// Opening a composition at a position of a document that has none.
proof fn lemma_open_fresh(paras: Seq<Seq<SegmentView>>, p: int, s: int, t: Seq<char>)
    requires
        composing_ok(paras, None),
        0 <= p < paras.len(),
        0 <= s <= paras[p].len(),
        t.len() > 0,
        s <= usize::MAX,
        p <= usize::MAX,
    ensures
        composing_ok(
            paras.update(p, paras[p].insert(s, SegmentView::Composing(t))),
            Some((p as usize, s as usize)),
        ),
{
    let np = paras.update(p, paras[p].insert(s, SegmentView::Composing(t)));
    assert forall|i: int, j: int| #[trigger] is_composing_at(np, i, j) implies i == p && j == s by {
        if i != p {
            assert(is_composing_at(paras, i, j));
        } else if j < s {
            assert(is_composing_at(paras, i, j));
        } else if j > s {
            assert(np[i][j] == paras[i][j - 1]);
            assert(is_composing_at(paras, i, j - 1));
        }
    }
}

/// Replacing the text of the composition keeps it the one composition.
proof fn lemma_retext_composition(paras: Seq<Seq<SegmentView>>, p: usize, s: usize, t: Seq<char>)
    requires
        composing_ok(paras, Some((p, s))),
        t.len() > 0,
    ensures
        composing_ok(
            paras.update(p as int, paras[p as int].update(s as int, SegmentView::Composing(t))),
            Some((p, s)),
        ),
{
    let np = paras.update(p as int, paras[p as int].update(s as int, SegmentView::Composing(t)));
    assert forall|i: int, j: int| #[trigger] is_composing_at(np, i, j) implies i == p && j == s by {
        if i != p || j != s {
            assert(is_composing_at(paras, i, j));
        }
    }
}

/// Removing the composition leaves a document without one.
proof fn lemma_remove_composition(paras: Seq<Seq<SegmentView>>, p: usize, s: usize)
    requires
        composing_ok(paras, Some((p, s))),
    ensures
        composing_ok(paras.update(p as int, paras[p as int].remove(s as int)), None),
{
    let np = paras.update(p as int, paras[p as int].remove(s as int));
    assert forall|i: int, j: int| !#[trigger] is_composing_at(np, i, j) by {
        if is_composing_at(np, i, j) {
            if i != p || j < s {
                assert(is_composing_at(paras, i, j));
            } else {
                assert(np[i][j] == paras[i][j + 1]);
                assert(is_composing_at(paras, i, j + 1));
            }
        }
    }
}

/// Replacing the composition by a run of committed segments.
proof fn lemma_replace_with_run(paras: Seq<Seq<SegmentView>>, p: usize, s: usize, t: Seq<char>)
    requires
        composing_ok(paras, Some((p, s))),
    ensures
        composing_ok(
            paras.update(
                p as int,
                paras[p as int].take(s as int) + committed_run(t) + paras[p as int].skip(s + 1),
            ),
            None,
        ),
{
    let row = paras[p as int];
    let nrow = row.take(s as int) + committed_run(t) + row.skip(s + 1);
    let np = paras.update(p as int, nrow);
    assert forall|i: int, j: int| !#[trigger] is_composing_at(np, i, j) by {
        if is_composing_at(np, i, j) {
            if i != p {
                assert(is_composing_at(paras, i, j));
            } else if j < s {
                assert(nrow[j] == row[j]);
                assert(is_composing_at(paras, i, j));
            } else if j < s + t.len() {
                assert(nrow[j] == committed_run(t)[j - s]);
            } else {
                assert(nrow[j] == row[j - t.len() + 1]);
                assert(is_composing_at(paras, i, j - t.len() + 1));
            }
        }
    }
}

/// Inserting a run of committed segments at `(p, s)`.
proof fn lemma_insert_run(
    paras: Seq<Seq<SegmentView>>,
    c: Option<(usize, usize)>,
    p: usize,
    s: usize,
    t: Seq<char>,
)
    requires
        composing_ok(paras, c),
        p < paras.len(),
        s <= paras[p as int].len(),
        c matches Some((cp, cs)) ==> (cp == p ==> cs + t.len() <= usize::MAX),
    ensures
        composing_ok(
            paras.update(
                p as int,
                paras[p as int].take(s as int) + committed_run(t) + paras[p as int].skip(s as int),
            ),
            shift_for_insert(c, p, s, t.len()),
        ),
{
    let row = paras[p as int];
    let nrow = row.take(s as int) + committed_run(t) + row.skip(s as int);
    let np = paras.update(p as int, nrow);
    let nc = shift_for_insert(c, p, s, t.len());
    assert forall|i: int, j: int| #[trigger] is_composing_at(np, i, j) implies (nc matches Some((
        a,
        b,
    )) && i == a && j == b) by {
        if i != p {
            assert(is_composing_at(paras, i, j));
        } else if j < s {
            assert(nrow[j] == row[j]);
            assert(is_composing_at(paras, i, j));
        } else if j < s + t.len() {
            assert(nrow[j] == committed_run(t)[j - s]);
        } else {
            assert(nrow[j] == row[j - t.len()]);
            assert(is_composing_at(paras, i, j - t.len()));
        }
    }
    if let Some((cp, cs)) = c {
        if cp == p && cs >= s {
            assert(nrow[cs + t.len()] == row[cs as int]);
        } else if cp == p {
            assert(nrow[cs as int] == row[cs as int]);
        }
    }
}

/// Splitting paragraph `p` at `s`, where no composition lies in a later paragraph.
proof fn lemma_break(paras: Seq<Seq<SegmentView>>, c: Option<(usize, usize)>, p: usize, s: usize)
    requires
        composing_ok(paras, c),
        p < paras.len(),
        s <= paras[p as int].len(),
        paras.len() < usize::MAX,
    ensures
        composing_ok(
            paras.update(p as int, paras[p as int].take(s as int)).insert(
                p + 1,
                paras[p as int].skip(s as int),
            ),
            shift_for_break(c, p, s),
        ),
{
    let row = paras[p as int];
    let np = paras.update(p as int, row.take(s as int)).insert(p + 1, row.skip(s as int));
    let nc = shift_for_break(c, p, s);
    assert forall|i: int, j: int| #[trigger] is_composing_at(np, i, j) implies (nc matches Some((
        a,
        b,
    )) && i == a && j == b) by {
        if i < p {
            assert(is_composing_at(paras, i, j));
        } else if i == p {
            assert(np[i][j] == row[j]);
            assert(is_composing_at(paras, i, j));
        } else if i == p + 1 {
            assert(np[i][j] == row[j + s]);
            assert(is_composing_at(paras, p as int, j + s));
        } else {
            assert(np[i] == paras[i - 1]);
            assert(is_composing_at(paras, i - 1, j));
        }
    }
    if let Some((cp, cs)) = c {
        if cp == p && cs >= s {
            assert(np[p + 1][cs - s] == row[cs as int]);
        } else if cp == p {
            assert(np[p as int][cs as int] == row[cs as int]);
        } else if cp > p {
            assert(np[cp + 1] == paras[cp as int]);
        } else {
            assert(np[cp as int] == paras[cp as int]);
        }
    }
}

/// Deleting the segment at `(p, s)`.
proof fn lemma_delete_segment(paras: Seq<Seq<SegmentView>>, c: Option<(usize, usize)>, p: usize, s: usize)
    requires
        composing_ok(paras, c),
        p < paras.len(),
        s < paras[p as int].len(),
    ensures
        composing_ok(
            paras.update(p as int, paras[p as int].remove(s as int)),
            shift_for_delete(c, p, s),
        ),
{
    let row = paras[p as int];
    let np = paras.update(p as int, row.remove(s as int));
    let nc = shift_for_delete(c, p, s);
    assert forall|i: int, j: int| #[trigger] is_composing_at(np, i, j) implies (nc matches Some((
        a,
        b,
    )) && i == a && j == b) by {
        if i != p || j < s {
            assert(is_composing_at(paras, i, j));
        } else {
            assert(np[i][j] == row[j + 1]);
            assert(is_composing_at(paras, i, j + 1));
        }
    }
    if let Some((cp, cs)) = c {
        if cp == p && cs > s {
            assert(np[p as int][cs - 1] == row[cs as int]);
        } else if cp == p && cs < s {
            assert(np[p as int][cs as int] == row[cs as int]);
        }
    }
}

/// Appending paragraph `p + 1` to paragraph `p`.
proof fn lemma_join(paras: Seq<Seq<SegmentView>>, c: Option<(usize, usize)>, p: usize)
    requires
        composing_ok(paras, c),
        p + 1 < paras.len(),
        c matches Some((cp, cs)) ==> (cp == p + 1 ==> cs + paras[p as int].len() <= usize::MAX),
    ensures
        composing_ok(
            paras.remove(p + 1).update(p as int, paras[p as int] + paras[p + 1]),
            shift_for_join(c, p, paras[p as int].len()),
        ),
{
    let a = paras[p as int];
    let b = paras[p + 1];
    let np = paras.remove(p + 1).update(p as int, a + b);
    let nc = shift_for_join(c, p, a.len());
    assert forall|i: int, j: int| #[trigger] is_composing_at(np, i, j) implies (nc matches Some((
        x,
        y,
    )) && i == x && j == y) by {
        if i < p {
            assert(is_composing_at(paras, i, j));
        } else if i == p {
            if j < a.len() {
                assert(np[i][j] == a[j]);
                assert(is_composing_at(paras, i, j));
            } else {
                assert(np[i][j] == b[j - a.len()]);
                assert(is_composing_at(paras, p + 1, j - a.len()));
            }
        } else {
            assert(np[i] == paras[i + 1]);
            assert(is_composing_at(paras, i + 1, j));
        }
    }
    if let Some((cp, cs)) = c {
        if cp == p + 1 {
            assert(np[p as int][cs + a.len()] == b[cs as int]);
        } else if cp > p + 1 {
            assert(np[cp - 1] == paras[cp as int]);
        } else if cp == p {
            assert(np[p as int][cs as int] == a[cs as int]);
        } else {
            assert(np[cp as int] == paras[cp as int]);
        }
    }
}

/// Opening or extending a composition keeps a document well-formed.
pub proof fn lemma_open_or_extend_keeps_wf(d: DocView, c: char)
    requires
        d.wf(),
    ensures
        d.open_or_extend_composition(c).wf(),
{
    if d.has_live_composition() {
        let (p, s) = d.composing.unwrap();
        lemma_retext_composition(d.paras, p, s, d.composing_text().push(c));
    } else {
        let (p, s) = d.cursor;
        lemma_open_fresh(d.paras, p as int, s as int, seq![c]);
    }
}

/// Shrinking keeps a document well-formed.
pub proof fn lemma_shrink_keeps_wf(d: DocView)
    requires
        d.wf(),
    ensures
        d.shrink_composition().wf(),
{
    if d.has_live_composition() {
        let (p, s) = d.composing.unwrap();
        let t = d.composing_text();
        if t.len() <= 1 {
            lemma_remove_composition(d.paras, p, s);
        } else {
            lemma_retext_composition(d.paras, p, s, t.drop_last());
        }
    }
}

/// Cancelling keeps a document well-formed.
pub proof fn lemma_cancel_keeps_wf(d: DocView)
    requires
        d.wf(),
    ensures
        d.cancel_composition().wf(),
{
    if let Some((p, s)) = d.composing {
        lemma_remove_composition(d.paras, p, s);
    }
}

/// Committing keeps a document well-formed.
pub proof fn lemma_commit_keeps_wf(d: DocView, t: Seq<char>)
    requires
        d.wf(),
        d.composing matches Some((p, s)) ==> d.paras[p as int].len() - 1 + t.len() <= usize::MAX,
    ensures
        d.commit_composition(t).wf(),
{
    if let Some((p, s)) = d.composing {
        lemma_replace_with_run(d.paras, p, s, t);
        let row = d.paras[p as int];
        assert((row.take(s as int) + committed_run(t) + row.skip(s + 1)).len() == row.len() - 1 + t.len());
    }
}

/// Inserting committed text keeps a document well-formed.
pub proof fn lemma_insert_keeps_wf(d: DocView, t: Seq<char>)
    requires
        d.wf(),
        d.paras[d.cursor.0 as int].len() + t.len() <= usize::MAX,
    ensures
        d.insert_committed(t).wf(),
{
    let (p, s) = d.cursor;
    if let Some((cp, cs)) = d.composing {
        assert(cs < d.paras[cp as int].len());
    }
    lemma_insert_run(d.paras, d.composing, p, s, t);
}

/// Breaking a line keeps a document well-formed.
pub proof fn lemma_break_keeps_wf(d: DocView)
    requires
        d.wf(),
        d.paras.len() < usize::MAX,
    ensures
        d.break_line().wf(),
{
    lemma_break(d.paras, d.composing, d.cursor.0, d.cursor.1);
}

/// Deleting left of the cursor keeps a document well-formed.
pub proof fn lemma_delete_left_keeps_wf(d: DocView)
    requires
        d.wf(),
        d.cursor.1 == 0 && d.cursor.0 > 0 ==> d.paras[d.cursor.0 - 1].len() + d.paras[d.cursor.0 as int].len() <= usize::MAX,
    ensures
        d.delete_segment_left().wf(),
{
    let (p, s) = d.cursor;
    if s > 0 {
        lemma_delete_segment(d.paras, d.composing, p, (s - 1) as usize);
    } else if p > 0 {
        if let Some((cp, cs)) = d.composing {
            assert(cs < d.paras[cp as int].len());
        }
        lemma_join(d.paras, d.composing, (p - 1) as usize);
    }
}

/// Deleting under the cursor keeps a document well-formed.
pub proof fn lemma_delete_under_keeps_wf(d: DocView)
    requires
        d.wf(),
        d.cursor.1 >= d.paras[d.cursor.0 as int].len() && d.cursor.0 + 1 < d.paras.len() ==> d.paras[d.cursor.0 as int].len()
            + d.paras[d.cursor.0 + 1].len() <= usize::MAX,
    ensures
        d.delete_segment_under().wf(),
{
    let (p, s) = d.cursor;
    if s < d.paras[p as int].len() {
        lemma_delete_segment(d.paras, d.composing, p, s);
    } else if p + 1 < d.paras.len() {
        if let Some((cp, cs)) = d.composing {
            assert(cs < d.paras[cp as int].len());
        }
        lemma_join(d.paras, d.composing, p);
    }
}

// ---------------------------------------------------------------------------
// Laws relating several operations.

/// Breaking a line and then deleting left of the new cursor gives back the document.
pub proof fn law_delete_left_undoes_break_line(d: DocView)
    requires
        d.cursor_in_range(),
        d.cursor.0 < usize::MAX,
        d.composing matches Some((cp, cs)) ==> cp < usize::MAX,
    ensures
        d.break_line().delete_segment_left() == d,
{
    let (p, s) = d.cursor;
    let b = d.break_line();
    let e = b.delete_segment_left();
    let row = d.paras[p as int];
    assert(b.paras[p as int] == row.take(s as int));
    assert(b.paras[p + 1] == row.skip(s as int));
    assert(row.take(s as int) + row.skip(s as int) =~= row);
    assert(e.paras =~= d.paras);
    if let Some((cp, cs)) = d.composing {
        if cp == p && cs >= s {
            assert(b.composing == Some(((p + 1) as usize, (cs - s) as usize)));
            assert(e.composing == d.composing);
        } else if cp > p {
            assert(b.composing == Some(((cp + 1) as usize, cs)));
            assert(e.composing == d.composing);
        } else {
            assert(e.composing == d.composing);
        }
    }
    assert(e == d);
}

/// Deleting the segment under the cursor removes exactly that segment and
/// leaves the cursor where it is, now before the segment that followed; at a
/// paragraph's end it joins the next paragraph, the cursor still in place.
pub proof fn law_delete_under_keeps_cursor(d: DocView)
    requires
        d.cursor_in_range(),
    ensures
        d.delete_segment_under().cursor == d.cursor,
        d.cursor.1 < d.paras[d.cursor.0 as int].len() ==> d.delete_segment_under().paras == d.paras.update(
            d.cursor.0 as int,
            d.paras[d.cursor.0 as int].remove(d.cursor.1 as int),
        ),
        d.cursor.1 == d.paras[d.cursor.0 as int].len() && d.cursor.0 + 1 < d.paras.len()
            ==> d.delete_segment_under().paras.len() + 1 == d.paras.len()
            && d.delete_segment_under().paras[d.cursor.0 as int] == d.paras[d.cursor.0 as int] + d.paras[d.cursor.0
            + 1],
{
}

/// Inserting `t` puts one committed one-character segment per character of `t`
/// at the cursor, in order, keeps the rest of the paragraph around them and the
/// other paragraphs as they were, moves the cursor past them, and moves a
/// composition that stood at or after the cursor along with the text.
pub proof fn law_insert_places_text(d: DocView, t: Seq<char>)
    requires
        d.cursor_in_range(),
        d.cursor.1 + t.len() <= usize::MAX,
        d.composing matches Some((cp, cs)) ==> cs + t.len() <= usize::MAX,
    ensures
        ({
            let (p, s) = d.cursor;
            let row = d.paras[p as int];
            let e = d.insert_committed(t);
            &&& e.cursor == (p, (s + t.len()) as usize)
            &&& e.paras.len() == d.paras.len()
            &&& e.paras[p as int].len() == row.len() + t.len()
            &&& forall|i: int| 0 <= i < s ==> e.paras[p as int][i] == row[i]
            &&& forall|i: int| 0 <= i < t.len() ==> e.paras[p as int][s + i] == SegmentView::Committed(seq![t[i]])
            &&& forall|i: int| s <= i < row.len() ==> e.paras[p as int][i + t.len()] == row[i]
            &&& forall|q: int| 0 <= q < d.paras.len() && q != p ==> e.paras[q] == d.paras[q]
            &&& e.composing == (match d.composing {
                Some((cp, cs)) => if cp == p && cs >= s {
                    Some((cp, (cs + t.len()) as usize))
                } else {
                    Some((cp, cs))
                },
                None => None,
            })
            &&& e.scroll_offset == d.scroll_offset
        }),
{
}

/// Breaking the line splits the cursor's paragraph at the cursor into two
/// paragraphs, shifts the later paragraphs down by one, and puts the cursor at
/// the start of the second half.
pub proof fn law_break_line_splits_paragraph(d: DocView)
    requires
        d.cursor_in_range(),
        d.cursor.0 < usize::MAX,
    ensures
        ({
            let (p, s) = d.cursor;
            let row = d.paras[p as int];
            let b = d.break_line();
            &&& b.cursor == ((p + 1) as usize, 0usize)
            &&& b.paras.len() == d.paras.len() + 1
            &&& b.paras[p as int] + b.paras[p + 1] == row
            &&& b.paras[p as int].len() == s
            &&& forall|q: int| 0 <= q < p ==> b.paras[q] == d.paras[q]
            &&& forall|q: int| p < q < d.paras.len() ==> b.paras[q + 1] == d.paras[q]
        }),
{
    let (p, s) = d.cursor;
    let row = d.paras[p as int];
    let b = d.break_line();
    assert(b.paras[p as int] + b.paras[p + 1] =~= row);
}

/// Deleting left of the cursor removes the segment just before it and moves the
/// cursor back by one; at a paragraph's start it joins the paragraph to the
/// previous one, the cursor between the two; at the document's start nothing
/// changes.
pub proof fn law_delete_left_removes_previous(d: DocView)
    requires
        d.cursor_in_range(),
        d.fits_machine(),
    ensures
        ({
            let (p, s) = d.cursor;
            let row = d.paras[p as int];
            let e = d.delete_segment_left();
            &&& s > 0 ==> e.cursor == (p, (s - 1) as usize) && e.paras.len() == d.paras.len() && e.paras[p as int]
                == row.remove(s - 1) && forall|q: int| 0 <= q < d.paras.len() && q != p ==> e.paras[q] == d.paras[q]
            &&& s == 0 && p > 0 ==> e.cursor == ((p - 1) as usize, d.paras[p - 1].len() as usize) && e.paras.len() + 1
                == d.paras.len() && e.paras[p - 1] == d.paras[p - 1] + row && forall|q: int|
                0 <= q < p - 1 ==> e.paras[q] == d.paras[q]
            &&& s == 0 && p == 0 ==> e == d
        }),
{
}

/// The cursor keys: left and right step one segment, crossing paragraph edges
/// and stopping at the document's ends; Home and End go to the paragraph's ends.
/// None of them changes the text or the composition.
pub proof fn law_cursor_keys_move_by_one(d: DocView)
    requires
        d.cursor_in_range(),
        d.fits_machine(),
    ensures
        ({
            let (p, s) = d.cursor;
            let len = d.paras[p as int].len();
            &&& d.move_cursor_left().cursor == (if s > 0 {
                (p, (s - 1) as usize)
            } else if p > 0 {
                ((p - 1) as usize, d.paras[p - 1].len() as usize)
            } else {
                (p, s)
            })
            &&& d.move_cursor_right().cursor == (if s < len {
                (p, (s + 1) as usize)
            } else if p + 1 < d.paras.len() {
                ((p + 1) as usize, 0usize)
            } else {
                (p, s)
            })
            &&& d.move_cursor_home().cursor == (p, 0usize)
            &&& d.move_cursor_end().cursor == (p, len as usize)
            &&& d.move_cursor_left().paras == d.paras && d.move_cursor_left().composing == d.composing
            &&& d.move_cursor_right().paras == d.paras && d.move_cursor_right().composing == d.composing
            &&& d.move_cursor_home().paras == d.paras && d.move_cursor_home().composing == d.composing
            &&& d.move_cursor_end().paras == d.paras && d.move_cursor_end().composing == d.composing
        }),
{
}

/// A keystroke opens a composition of that one character at the cursor where
/// there is none, the cursor staying before it, or appends the character to
/// the live composition.
pub proof fn law_keystroke_opens_or_extends(d: DocView, c: char)
    requires
        d.wf(),
    ensures
        ({
            let e = d.open_or_extend_composition(c);
            &&& e.cursor == d.cursor
            &&& d.composing is None ==> e.composing == Some(d.cursor) && e.paras[d.cursor.0 as int] == d.paras[d.cursor.0 as int].insert(
                d.cursor.1 as int,
                SegmentView::Composing(seq![c]),
            )
            &&& d.composing matches Some((p, s)) ==> e.composing == d.composing && e.paras[p as int][s as int]
                == SegmentView::Composing(d.paras[p as int][s as int].text().push(c)) && e.paras[p as int].len()
                == d.paras[p as int].len()
        }),
{
}

/// Backspace on a composition drops its last character, and the composition
/// itself once that was its only one; Esc removes it whole. Either way nothing
/// else in the paragraph changes.
pub proof fn law_shrink_and_cancel_remove_keystrokes(d: DocView)
    requires
        d.wf(),
        d.composing is Some,
    ensures
        ({
            let (p, s) = d.composing.unwrap();
            let row = d.paras[p as int];
            let t = row[s as int].text();
            let sh = d.shrink_composition();
            let ca = d.cancel_composition();
            &&& t.len() > 1 ==> sh.composing == d.composing && sh.paras[p as int] == row.update(
                s as int,
                SegmentView::Composing(t.drop_last()),
            )
            &&& t.len() == 1 ==> sh.composing is None && sh.paras[p as int] == row.remove(s as int)
            &&& ca.composing is None && ca.paras[p as int] == row.remove(s as int)
            &&& ca.paras.len() == d.paras.len() && sh.paras.len() == d.paras.len()
            &&& t.len() > 1 ==> sh.cursor == d.cursor
            &&& ca.cursor == (if d.cursor.0 == p && d.cursor.1 > s {
                (p, (d.cursor.1 - 1) as usize)
            } else {
                d.cursor
            })
            &&& t.len() == 1 ==> sh.cursor == ca.cursor
        }),
{
}

/// Committing replaces the composition by one committed one-character segment
/// per character of `t` and puts the cursor right after them.
pub proof fn law_commit_replaces_composition(d: DocView, t: Seq<char>)
    requires
        d.wf(),
        d.composing is Some,
        d.composing.unwrap().1 + t.len() <= usize::MAX,
    ensures
        ({
            let (p, s) = d.composing.unwrap();
            let row = d.paras[p as int];
            let e = d.commit_composition(t);
            &&& e.composing is None
            &&& e.cursor == (p, (s + t.len()) as usize)
            &&& e.paras[p as int].len() == row.len() - 1 + t.len()
            &&& forall|i: int| 0 <= i < s ==> e.paras[p as int][i] == row[i]
            &&& forall|i: int| 0 <= i < t.len() ==> e.paras[p as int][s + i] == SegmentView::Committed(seq![t[i]])
            &&& forall|i: int| s < i < row.len() ==> e.paras[p as int][i - 1 + t.len()] == row[i]
        }),
{
}

/// Shrinking the composition undoes opening or extending it.
pub proof fn law_shrink_undoes_open_or_extend(d: DocView, c: char)
    requires
        d.wf(),
    ensures
        d.open_or_extend_composition(c).shrink_composition() == d,
{
    let o = d.open_or_extend_composition(c);
    if d.has_live_composition() {
        let (p, s) = d.composing.unwrap();
        let t = d.composing_text();
        assert(o.composing_text() == t.push(c));
        assert(t.push(c).drop_last() =~= t);
        assert(d.paras[p as int][s as int] == SegmentView::Composing(t));
        assert(o.paras[p as int][s as int] == SegmentView::Composing(t.push(c)));
        assert(o.has_live_composition());
        assert(o.composing_text().len() > 1);
        assert(o.paras[p as int].update(s as int, SegmentView::Composing(t)) =~= d.paras[p as int]);
        assert(o.shrink_composition().paras == o.paras.update(p as int, d.paras[p as int]));
        assert(o.shrink_composition().paras =~= d.paras);
    } else {
        let (p, s) = d.cursor;
        assert(is_composing_at(o.paras, p as int, s as int));
        assert(o.composing_text() == seq![c]);
        assert(o.paras[p as int] == d.paras[p as int].insert(s as int, SegmentView::Composing(seq![c])));
        assert(d.paras[p as int].insert(s as int, SegmentView::Composing(seq![c])).remove(s as int)
            =~= d.paras[p as int]);
        assert(o.shrink_composition().paras == o.paras.update(p as int, d.paras[p as int]));
        assert(o.shrink_composition().paras =~= d.paras);
    }
}

/// Cancelling a composition just opened gives back the document.
pub proof fn law_cancel_undoes_open(d: DocView, c: char)
    requires
        d.wf(),
        d.composing is None,
    ensures
        d.open_or_extend_composition(c).cancel_composition() == d,
{
    let (p, s) = d.cursor;
    let o = d.open_or_extend_composition(c);
    assert(d.paras[p as int].insert(s as int, SegmentView::Composing(seq![c])).remove(s as int)
        =~= d.paras[p as int]);
    assert(o.cancel_composition().paras =~= d.paras);
}

/// Moving left undoes moving right, unless the cursor was at the end of the document.
pub proof fn law_left_undoes_right(d: DocView)
    requires
        d.wf(),
        d.fits_machine(),
        !d.cursor_at_doc_end(),
    ensures
        d.move_cursor_right().move_cursor_left() == d,
{
    assert(d.paras[d.cursor.0 as int].len() <= usize::MAX);
    assert(d.move_cursor_right().move_cursor_left() =~= d);
}

/// Moving right undoes moving left, unless the cursor was at the start of the document.
pub proof fn law_right_undoes_left(d: DocView)
    requires
        d.wf(),
        d.fits_machine(),
        !d.cursor_at_doc_start(),
    ensures
        d.move_cursor_left().move_cursor_right() == d,
{
    if d.cursor.1 == 0 {
        assert(d.paras[d.cursor.0 - 1].len() <= usize::MAX);
    }
    assert(d.move_cursor_left().move_cursor_right() =~= d);
}

/// Committing puts one committed segment per character of the text where the
/// composition was, and leaves every other paragraph as it was.
pub proof fn law_commit_is_one_segment_per_char(d: DocView, t: Seq<char>)
    requires
        d.wf(),
        d.composing is Some,
    ensures
        ({
            let (p, s) = d.composing.unwrap();
            let e = d.commit_composition(t);
            &&& forall|i: int| 0 <= i < t.len() ==> e.paras[p as int][s + i] == SegmentView::Committed(seq![t[i]])
            &&& forall|q: int| 0 <= q < d.paras.len() && q != p ==> e.paras[q] == d.paras[q]
            &&& e.composing is None
        }),
{
}

/// Inserting `a` and then `b` gives the same document as inserting `a + b` at once.
pub proof fn law_insert_in_two_steps(d: DocView, a: Seq<char>, b: Seq<char>)
    requires
        d.cursor_in_range(),
        d.cursor.1 + a.len() + b.len() <= usize::MAX,
        d.composing matches Some((cp, cs)) ==> cs + a.len() + b.len() <= usize::MAX,
    ensures
        d.insert_committed(a).insert_committed(b) == d.insert_committed(a + b),
{
    let (p, s) = d.cursor;
    let row = d.paras[p as int];
    let e1 = d.insert_committed(a);
    let e2 = e1.insert_committed(b);
    let f = d.insert_committed(a + b);
    let r1 = row.take(s as int) + committed_run(a) + row.skip(s as int);
    assert(e1.paras[p as int] == r1);
    assert(r1.take(s + a.len()) =~= row.take(s as int) + committed_run(a));
    assert(r1.skip(s + a.len()) =~= row.skip(s as int));
    assert(committed_run(a + b) =~= committed_run(a) + committed_run(b));
    assert(e2.paras[p as int] =~= f.paras[p as int]);
    assert(e2.paras =~= f.paras);
    assert(e2 =~= f);
}

/// `n` deletions left of the cursor, one after another.
pub open spec fn delete_left_times(d: DocView, n: nat) -> DocView
    decreases n,
{
    if n == 0 {
        d
    } else {
        delete_left_times(d, (n - 1) as nat).delete_segment_left()
    }
}

proof fn lemma_delete_last_inserted(d: DocView, u: Seq<char>)
    requires
        d.cursor_in_range(),
        u.len() > 0,
        d.cursor.1 + u.len() <= usize::MAX,
        d.composing matches Some((cp, cs)) ==> cs + u.len() <= usize::MAX,
    ensures
        d.insert_committed(u).delete_segment_left() == d.insert_committed(u.drop_last()),
{
    let (p, s) = d.cursor;
    let row = d.paras[p as int];
    let e = d.insert_committed(u);
    let f = d.insert_committed(u.drop_last());
    let g = e.delete_segment_left();
    assert(committed_run(u).drop_last() =~= committed_run(u.drop_last()));
    assert((row.take(s as int) + committed_run(u) + row.skip(s as int)).remove(s + u.len() - 1)
        =~= row.take(s as int) + committed_run(u.drop_last()) + row.skip(s as int));
    assert(g.paras =~= f.paras);
    assert(g.composing == f.composing);
    assert(g =~= f);
}

/// Inserting `t` and then deleting left of the cursor once per character of
/// `t` gives back the document.
pub proof fn law_delete_left_undoes_insert(d: DocView, t: Seq<char>)
    requires
        d.cursor_in_range(),
        d.cursor.1 + t.len() <= usize::MAX,
        d.composing matches Some((cp, cs)) ==> cs + t.len() <= usize::MAX,
    ensures
        delete_left_times(d.insert_committed(t), t.len()) == d,
{
    lemma_delete_left_times_inserted(d, t, t.len());
    assert(t.take(0) =~= Seq::<char>::empty());
    law_insert_nothing(d);
}

proof fn lemma_delete_left_times_inserted(d: DocView, t: Seq<char>, j: nat)
    requires
        d.cursor_in_range(),
        d.cursor.1 + t.len() <= usize::MAX,
        d.composing matches Some((cp, cs)) ==> cs + t.len() <= usize::MAX,
        j <= t.len(),
    ensures
        delete_left_times(d.insert_committed(t), j) == d.insert_committed(t.take(t.len() - j)),
    decreases j,
{
    if j == 0 {
        assert(t.take(t.len() as int) =~= t);
    } else {
        lemma_delete_left_times_inserted(d, t, (j - 1) as nat);
        let u = t.take(t.len() - (j - 1));
        lemma_delete_last_inserted(d, u);
        assert(u.drop_last() =~= t.take(t.len() - j));
    }
}

/// Inserting no text leaves the document as it was.
pub proof fn law_insert_nothing(d: DocView)
    requires
        d.cursor_in_range(),
    ensures
        d.insert_committed(Seq::empty()) == d,
{
    let (p, s) = d.cursor;
    let row = d.paras[p as int];
    assert(committed_run(Seq::<char>::empty()) =~= Seq::<SegmentView>::empty());
    assert(row.take(s as int) + committed_run(Seq::<char>::empty()) + row.skip(s as int) =~= row);
    assert(d.insert_committed(Seq::empty()).paras =~= d.paras);
    assert(d.insert_committed(Seq::empty()) =~= d);
}

// ---------------------------------------------------------------------------
// Views of vectors of segments under the vector operations.

proof fn lemma_paras_remove(pg: Seq<Vec<Segment>>, p: int)
    requires
        0 <= p < pg.len(),
    ensures
        paras_of(pg.remove(p)) == paras_of(pg).remove(p),
{
    assert(paras_of(pg.remove(p)) =~= paras_of(pg).remove(p));
}

proof fn lemma_paras_insert(pg: Seq<Vec<Segment>>, p: int, v: Vec<Segment>)
    requires
        0 <= p <= pg.len(),
    ensures
        paras_of(pg.insert(p, v)) == paras_of(pg).insert(p, seg_views(v@)),
{
    assert(paras_of(pg.insert(p, v)) =~= paras_of(pg).insert(p, seg_views(v@)));
}

proof fn lemma_seg_views_split(v: Seq<Segment>, i: int)
    requires
        0 <= i <= v.len(),
    ensures
        seg_views(v.subrange(0, i)) == seg_views(v).take(i),
        seg_views(v.subrange(i, v.len() as int)) == seg_views(v).skip(i),
{
    assert(seg_views(v.subrange(0, i)) =~= seg_views(v).take(i));
    assert(seg_views(v.subrange(i, v.len() as int)) =~= seg_views(v).skip(i));
}

proof fn lemma_seg_views_concat(a: Seq<Segment>, b: Seq<Segment>)
    ensures
        seg_views(a + b) == seg_views(a) + seg_views(b),
{
    assert(seg_views(a + b) =~= seg_views(a) + seg_views(b));
}

/// Document model: paragraphs separated by Enter, each a sequence of
/// segments. At most one composing segment exists at a time.
pub struct Doc {
    pub paragraphs: Vec<Vec<Segment>>,
    /// `(paragraph, segment-index-within-paragraph)`. The index points at the
    /// segment the cursor is *before*; new input lands here.
    pub cursor: (usize, usize),
    pub composing: Option<(usize, usize)>,
    pub scroll_offset: usize,
}

impl View for Doc {
    type V = DocView;

    open spec fn view(&self) -> DocView {
        DocView {
            paras: paras_of(self.paragraphs@),
            cursor: self.cursor,
            composing: self.composing,
            scroll_offset: self.scroll_offset,
        }
    }
}

impl Doc {
    pub fn new() -> (d: Self)
        ensures
            d@ == empty_doc(),
            d@.wf(),
    {
        let mut paragraphs: Vec<Vec<Segment>> = Vec::new();
        paragraphs.push(Vec::new());
        let d = Doc { paragraphs, cursor: (0, 0), composing: None, scroll_offset: 0 };
        assert(seg_views(d.paragraphs@[0]@) =~= Seq::<SegmentView>::empty());
        assert(d@.paras =~= seq![Seq::<SegmentView>::empty()]);
        d
    }

    pub fn clear(&mut self)
        ensures
            final(self)@ == empty_doc(),
    {
        *self = Self::new();
    }

    /// Whether the cursor indexes a paragraph and a position up to its end.
    pub fn cursor_is_valid(&self) -> (r: bool)
        ensures
            r == self@.cursor_in_range(),
    {
        let (p, s) = self.cursor;
        p < self.paragraphs.len() && s <= self.paragraphs[p].len()
    }

    /// Whether the recorded composition, if any, indexes an existing segment.
    pub fn composing_is_valid(&self) -> (r: bool)
        ensures
            r == self@.composing_in_range(),
    {
        match self.composing {
            Some((p, s)) => p < self.paragraphs.len() && s < self.paragraphs[p].len(),
            None => true,
        }
    }

    /// Whether the document is well formed: it has a paragraph, the cursor is in
    /// range, and the recorded composition is its one composition, not empty.
    pub fn is_well_formed(&self) -> (r: bool)
        ensures
            r == self@.wf(),
    {
        let ghost paras = self@.paras;
        if self.paragraphs.len() == 0 || !self.cursor_is_valid() {
            return false;
        }
        if let Some((p, s)) = self.composing {
            if !(p < self.paragraphs.len() && s < self.paragraphs[p].len()) {
                return false;
            }
            assert(paras[p as int][s as int] == self.paragraphs@[p as int]@[s as int]@);
            match &self.paragraphs[p][s] {
                Segment::Composing(t) => {
                    if t.as_str().is_empty() {
                        return false;
                    }
                },
                Segment::Committed(_) => {
                    return false;
                },
            }
        }
        let mut i: usize = 0;
        while i < self.paragraphs.len()
            invariant
                paras == self@.paras,
                i <= paras.len(),
                forall|a: int, b: int|
                    0 <= a < i && #[trigger] is_composing_at(paras, a, b) ==> self.composing == Some(
                        (a as usize, b as usize),
                    ),
            decreases paras.len() - i,
        {
            let row = &self.paragraphs[i];
            assert(paras[i as int] == seg_views(row@));
            let mut j: usize = 0;
            while j < row.len()
                invariant
                    paras == self@.paras,
                    i < paras.len(),
                    row == self.paragraphs@[i as int],
                    paras[i as int] == seg_views(row@),
                    j <= row@.len(),
                    forall|a: int, b: int|
                        (0 <= a < i || (a == i && 0 <= b < j)) && #[trigger] is_composing_at(paras, a, b)
                            ==> self.composing == Some((a as usize, b as usize)),
                decreases row@.len() - j,
            {
                assert(paras[i as int][j as int] == row@[j as int]@);
                if let Segment::Composing(_) = &row[j] {
                    let matches_recorded = match self.composing {
                        Some((cp, cs)) => cp == i && cs == j,
                        None => false,
                    };
                    if !matches_recorded {
                        assert(is_composing_at(paras, i as int, j as int));
                        return false;
                    }
                }
                j = j + 1;
            }
            i = i + 1;
        }
        true
    }

    /// Whether the cursor's paragraph exists.
    pub fn cursor_paragraph_is_valid(&self) -> (r: bool)
        ensures
            r == (self.cursor.0 < self@.paras.len()),
    {
        self.cursor.0 < self.paragraphs.len()
    }

    /// Whether moving the cursor left can look up the previous paragraph.
    pub fn can_move_left(&self) -> (r: bool)
        ensures
            r == (self.cursor.1 == 0 && self.cursor.0 > 0 ==> self.cursor.0 - 1 < self@.paras.len()),
    {
        !(self.cursor.1 == 0 && self.cursor.0 > 0) || self.cursor.0 - 1 < self.paragraphs.len()
    }

    /// Whether inserting `n` segments at the cursor keeps the composition's index in range.
    pub fn can_insert(&self, n: usize) -> (r: bool)
        requires
            self@.cursor_in_range(),
        ensures
            r == self@.insert_fits(n as nat),
    {
        match self.composing {
            Some((cp, cs)) => {
                if cp == self.cursor.0 && cs >= self.cursor.1 {
                    cs < self.paragraphs[cp].len() || cs <= usize::MAX - n
                } else {
                    true
                }
            },
            None => true,
        }
    }

    /// Whether joining the cursor's paragraph to the previous one keeps the
    /// composition's index in range.
    pub fn can_join_left(&self) -> (r: bool)
        requires
            self@.cursor_in_range(),
        ensures
            r == self@.join_left_fits(),
    {
        let (p, s) = self.cursor;
        if s == 0 && p > 0 {
            match self.composing {
                Some((cp, cs)) => {
                    if cp == p {
                        cs < self.paragraphs[cp].len() || cs <= usize::MAX - self.paragraphs[p - 1].len()
                    } else {
                        true
                    }
                },
                None => true,
            }
        } else {
            true
        }
    }

    /// Whether joining the next paragraph to the cursor's keeps the composition's
    /// index in range.
    pub fn can_join_under(&self) -> (r: bool)
        requires
            self.cursor.0 < self@.paras.len(),
        ensures
            r == self@.join_under_fits(),
    {
        let (p, s) = self.cursor;
        assert(self.paragraphs@.len() == self.paragraphs.len());
        if s >= self.paragraphs[p].len() && p + 1 < self.paragraphs.len() {
            match self.composing {
                Some((cp, cs)) => {
                    if cp == p + 1 {
                        (cs < self.paragraphs[cp].len() && s == self.paragraphs[p].len()) || cs <= usize::MAX - s
                    } else {
                        true
                    }
                },
                None => true,
            }
        } else {
            true
        }
    }

    pub fn open_or_extend_composition(&mut self, c: char)
        requires
            old(self)@.cursor_in_range(),
            old(self)@.composing_in_range(),
        ensures
            final(self)@ == old(self)@.open_or_extend_composition(c),
            old(self)@.wf() ==> final(self)@.wf(),
    {
        let ghost old_pg = self.paragraphs@;
        proof {
            if old(self)@.wf() {
                lemma_open_or_extend_keeps_wf(old(self)@, c);
            }
        }
        if let Some((p, s)) = self.composing {
            let live = match &self.paragraphs[p][s] {
                Segment::Composing(_) => true,
                Segment::Committed(_) => false,
            };
            if live {
                let ghost row = self.paragraphs@[p as int]@;
                let mut buf = String::new();
                if let Segment::Composing(b) = &self.paragraphs[p][s] {
                    buf = b.as_str().to_owned();
                }
                string_push(&mut buf, c);
                self.paragraphs[p].set(s, Segment::Composing(buf));
                proof {
                    lemma_seg_views_update(row, s as int, Segment::Composing(buf));
                    lemma_paras_set(old_pg, p as int, self.paragraphs@[p as int]);
                    assert(self.paragraphs@ == old_pg.update(p as int, self.paragraphs@[p as int]));
                    assert(self@ =~= old(self)@.open_or_extend_composition(c));
                }
                return;
            }
        }
        let (p, s) = self.cursor;
        let ghost row = self.paragraphs@[p as int]@;
        let seg = Segment::Composing(char_string(c));
        self.paragraphs[p].insert(s, seg);
        self.composing = Some((p, s));
        proof {
            lemma_seg_views_insert(row, s as int, seg);
            lemma_paras_set(old_pg, p as int, self.paragraphs@[p as int]);
            assert(self.paragraphs@ == old_pg.update(p as int, self.paragraphs@[p as int]));
            assert(self@ =~= old(self)@.open_or_extend_composition(c));
        }
    }

    /// Drops the last keystroke of the composition, and the composition itself once
    /// it is empty. Returns whether there was a composition to shrink.
    pub fn shrink_composition(&mut self) -> (r: bool)
        requires
            old(self)@.composing_in_range(),
        ensures
            r == old(self)@.has_live_composition(),
            final(self)@ == old(self)@.shrink_composition(),
            old(self)@.wf() ==> final(self)@.wf(),
    {
        proof {
            if old(self)@.wf() {
                lemma_shrink_keeps_wf(old(self)@);
            }
        }
        let ghost old_pg = self.paragraphs@;
        let Some((p, s)) = self.composing else {
            return false;
        };
        let mut buf = match &self.paragraphs[p][s] {
            Segment::Composing(b) => b.as_str().to_owned(),
            Segment::Committed(_) => {
                return false;
            },
        };
        let ghost row = self.paragraphs@[p as int]@;
        let _ = string_pop(&mut buf);
        if buf.as_str().is_empty() {
            let _ = self.paragraphs[p].remove(s);
            self.composing = None;
            if self.cursor.0 == p && self.cursor.1 > s {
                self.cursor.1 = self.cursor.1 - 1;
            }
            proof {
                lemma_seg_views_remove(row, s as int);
                lemma_paras_set(old_pg, p as int, self.paragraphs@[p as int]);
                assert(self.paragraphs@ == old_pg.update(p as int, self.paragraphs@[p as int]));
                assert(self@ =~= old(self)@.shrink_composition());
            }
        } else {
            self.paragraphs[p].set(s, Segment::Composing(buf));
            proof {
                lemma_seg_views_update(row, s as int, Segment::Composing(buf));
                lemma_paras_set(old_pg, p as int, self.paragraphs@[p as int]);
                assert(self.paragraphs@ == old_pg.update(p as int, self.paragraphs@[p as int]));
                assert(self@ =~= old(self)@.shrink_composition());
            }
        }
        true
    }

    /// Removes the composition, if any, from the document.
    pub fn cancel_composition(&mut self)
        requires
            old(self)@.composing_in_range(),
        ensures
            final(self)@ == old(self)@.cancel_composition(),
            old(self)@.wf() ==> final(self)@.wf(),
    {
        proof {
            if old(self)@.wf() {
                lemma_cancel_keeps_wf(old(self)@);
            }
        }
        let ghost old_pg = self.paragraphs@;
        if let Some((p, s)) = self.composing {
            self.composing = None;
            if self.cursor.0 == p && self.cursor.1 > s {
                self.cursor.1 = self.cursor.1 - 1;
            }
            let ghost row = self.paragraphs@[p as int]@;
            let _ = self.paragraphs[p].remove(s);
            proof {
                lemma_seg_views_remove(row, s as int);
                lemma_paras_set(old_pg, p as int, self.paragraphs@[p as int]);
                assert(self.paragraphs@ == old_pg.update(p as int, self.paragraphs@[p as int]));
                assert(self@ =~= old(self)@.cancel_composition());
            }
        }
    }

    /// Replaces the composition with `text`, one committed segment per character,
    /// and puts the cursor after it. Returns whether there was a composition.
    pub fn commit_composition(&mut self, text: String) -> (r: bool)
        requires
            old(self)@.composing_in_range(),
        ensures
            r == old(self)@.composing is Some,
            final(self)@ == old(self)@.commit_composition(text@),
            old(self)@.wf() ==> final(self)@.wf(),
    {
        let ghost old_pg = self.paragraphs@;
        let Some((p, s)) = self.composing else {
            return false;
        };
        self.composing = None;
        let chars = chars_of(text.as_str());
        let ghost row0 = self.paragraphs@[p as int]@;
        proof {
            lemma_seg_views_split(row0, s as int);
            lemma_seg_views_split(row0, s + 1);
        }
        if chars.len() == 0 {
            let _ = self.paragraphs[p].remove(s);
            self.cursor = (p, s);
            proof {
                lemma_seg_views_remove(row0, s as int);
                lemma_paras_set(old_pg, p as int, self.paragraphs@[p as int]);
                assert(self.paragraphs@ == old_pg.update(p as int, self.paragraphs@[p as int]));
                assert(seg_views(row0).remove(s as int) =~= seg_views(row0).take(s as int)
                    + committed_run(text@) + seg_views(row0).skip(s + 1));
                assert(self@ =~= old(self)@.commit_composition(text@));
                assert(old_pg[p as int]@.len() == old_pg[p as int].len());
                assert(seg_views(row0).len() == row0.len());
                if old(self)@.wf() {
                    lemma_commit_keeps_wf(old(self)@, text@);
                }
            }
            return true;
        }
        self.paragraphs[p].set(s, Segment::Committed(char_string(chars[0])));
        proof {
            lemma_seg_views_update(row0, s as int, self.paragraphs@[p as int]@[s as int]);
            assert(seg_views(self.paragraphs@[p as int]@) =~= seg_views(row0).take(s as int)
                + committed_run(chars@.take(1)) + seg_views(row0).skip(s + 1));
        }
        let mut count: usize = 1;
        while count < chars.len()
            invariant
                1 <= count <= chars.len(),
                chars@ == text@,
                p < old_pg.len(),
                s < row0.len(),
                row0 == old_pg[p as int]@,
                self.paragraphs@ == old_pg.update(p as int, self.paragraphs@[p as int]),
                self.composing is None,
                self.scroll_offset == old(self).scroll_offset,
                old(self).composing == Some((p, s)),
                seg_views(self.paragraphs@[p as int]@) == seg_views(row0).take(s as int)
                    + committed_run(chars@.take(count as int)) + seg_views(row0).skip(s + 1),
            decreases chars.len() - count,
        {
            let ghost row = self.paragraphs@[p as int]@;
            assert(seg_views(row).len() == row.len());
            assert(seg_views(row0).len() == row0.len());
            assert(row.len() == row0.len() - 1 + count);
            assert(self.paragraphs@[p as int]@.len() == self.paragraphs@[p as int].len());
            let seg = Segment::Committed(char_string(chars[count]));
            self.paragraphs[p].insert(s + count, seg);
            proof {
                lemma_seg_views_insert(row, s + count, seg);
                assert(committed_run(chars@.take(count + 1)) =~= committed_run(chars@.take(count as int)).push(
                    SegmentView::Committed(seq![chars@[count as int]]),
                ));
                assert(seg_views(self.paragraphs@[p as int]@) =~= seg_views(row0).take(s as int)
                    + committed_run(chars@.take(count + 1)) + seg_views(row0).skip(s + 1));
            }
            count = count + 1;
        }
        assert(self.paragraphs@[p as int]@.len() == self.paragraphs@[p as int].len());
        self.cursor = (p, s + count);
        proof {
            assert(chars@.take(count as int) =~= text@);
            lemma_paras_set(old_pg, p as int, self.paragraphs@[p as int]);
            assert(self@ =~= old(self)@.commit_composition(text@));
            if old(self)@.wf() {
                lemma_commit_keeps_wf(old(self)@, text@);
            }
        }
        true
    }

    /// Inserts `text` at the cursor, one committed segment per character, and moves
    /// the cursor (and a composition after it) past the inserted segments.
    pub fn insert_committed(&mut self, text: String)
        requires
            old(self)@.cursor_in_range(),
            old(self)@.insert_fits(text@.len()),
        ensures
            final(self)@ == old(self)@.insert_committed(text@),
            old(self)@.wf() ==> final(self)@.wf(),
    {
        let ghost old_pg = self.paragraphs@;
        let (p, s) = self.cursor;
        let chars = chars_of(text.as_str());
        let ghost row0 = self.paragraphs@[p as int]@;
        proof {
            lemma_seg_views_split(row0, s as int);
        }
        let mut count: usize = 0;
        while count < chars.len()
            invariant
                0 <= count <= chars.len(),
                chars@ == text@,
                p < old_pg.len(),
                s <= row0.len(),
                row0 == old_pg[p as int]@,
                (p, s) == old(self).cursor,
                self.cursor == old(self).cursor,
                self.composing == old(self).composing,
                self.scroll_offset == old(self).scroll_offset,
                self.paragraphs@ == old_pg.update(p as int, self.paragraphs@[p as int]),
                seg_views(self.paragraphs@[p as int]@) == seg_views(row0).take(s as int)
                    + committed_run(chars@.take(count as int)) + seg_views(row0).skip(s as int),
            decreases chars.len() - count,
        {
            let ghost row = self.paragraphs@[p as int]@;
            assert(seg_views(row).len() == row.len());
            assert(seg_views(row0).len() == row0.len());
            assert(row.len() == row0.len() + count);
            assert(self.paragraphs@[p as int]@.len() == self.paragraphs@[p as int].len());
            let seg = Segment::Committed(char_string(chars[count]));
            self.paragraphs[p].insert(s + count, seg);
            proof {
                lemma_seg_views_insert(row, s + count, seg);
                assert(committed_run(chars@.take(count + 1)) =~= committed_run(chars@.take(count as int)).push(
                    SegmentView::Committed(seq![chars@[count as int]]),
                ));
                assert(seg_views(self.paragraphs@[p as int]@) =~= seg_views(row0).take(s as int)
                    + committed_run(chars@.take(count + 1)) + seg_views(row0).skip(s as int));
            }
            count = count + 1;
        }
        assert(self.paragraphs@[p as int]@.len() == self.paragraphs@[p as int].len());
        assert(seg_views(self.paragraphs@[p as int]@).len() == self.paragraphs@[p as int]@.len());
        assert(seg_views(row0).len() == row0.len());
        self.cursor = (p, s + count);
        if let Some((cp, cs)) = self.composing {
            if cp == p && cs >= s {
                assert(cs < row0.len() ==> cs + count <= self.paragraphs@[p as int]@.len());
                self.composing = Some((cp, cs + count));
            }
        }
        proof {
            assert(chars@.take(count as int) =~= text@);
            lemma_paras_set(old_pg, p as int, self.paragraphs@[p as int]);
            assert(self@ =~= old(self)@.insert_committed(text@));
            if old(self)@.wf() {
                lemma_insert_keeps_wf(old(self)@, text@);
            }
        }
    }

    /// Splits the cursor's paragraph at the cursor; the cursor moves to the start
    /// of the new paragraph. The recorded composition follows its segment
    /// (see `shift_for_break`), also where it lies in a later paragraph.
    pub fn break_line(&mut self)
        requires
            old(self)@.cursor_in_range(),
            old(self).composing matches Some((cp, cs)) ==> cp < usize::MAX,
        ensures
            final(self)@ == old(self)@.break_line(),
            old(self)@.wf() ==> final(self)@.wf(),
    {
        let ghost old_pg = self.paragraphs@;
        let (p, s) = self.cursor;
        let ghost row0 = self.paragraphs@[p as int]@;
        let tail = self.paragraphs[p].split_off(s);
        let ghost mid = self.paragraphs@;
        assert(self.paragraphs@.len() == self.paragraphs.len());
        self.paragraphs.insert(p + 1, tail);
        assert(self.paragraphs@.len() == self.paragraphs.len());
        self.cursor = (p + 1, 0);
        if let Some((cp, cs)) = self.composing {
            if cp == p && cs >= s {
                self.composing = Some((p + 1, cs - s));
            } else if cp > p {
                self.composing = Some((cp + 1, cs));
            }
        }
        proof {
            lemma_seg_views_split(row0, s as int);
            lemma_paras_set(old_pg, p as int, mid[p as int]);
            assert(mid == old_pg.update(p as int, mid[p as int]));
            lemma_paras_insert(mid, p + 1, tail);
            assert(self@ =~= old(self)@.break_line());
            if old(self)@.wf() {
                lemma_break_keeps_wf(old(self)@);
            }
        }
    }

    /// Deletes the segment left of the cursor, or, at the start of a paragraph,
    /// joins the paragraph to the previous one.
    pub fn delete_segment_left(&mut self)
        requires
            old(self)@.cursor_in_range(),
            old(self)@.join_left_fits(),
        ensures
            final(self)@ == old(self)@.delete_segment_left(),
            old(self)@.wf() ==> final(self)@.wf(),
    {
        let ghost old_pg = self.paragraphs@;
        let (p, s) = self.cursor;
        if s > 0 {
            let ghost row0 = self.paragraphs@[p as int]@;
            let _ = self.paragraphs[p].remove(s - 1);
            self.cursor = (p, s - 1);
            self.shift_composing_for_delete(p, s - 1);
            proof {
                lemma_seg_views_remove(row0, s - 1);
                lemma_paras_set(old_pg, p as int, self.paragraphs@[p as int]);
                assert(self.paragraphs@ == old_pg.update(p as int, self.paragraphs@[p as int]));
                assert(self@ =~= old(self)@.delete_segment_left());
                if old(self)@.wf() {
                    lemma_delete_left_keeps_wf(old(self)@);
                }
            }
        } else if p > 0 {
            let mut tail = self.paragraphs.remove(p);
            let ghost mid = self.paragraphs@;
            let prev_len = self.paragraphs[p - 1].len();
            let ghost prev_row = self.paragraphs@[p - 1]@;
            self.paragraphs[p - 1].append(&mut tail);
            assert(self.paragraphs@[p - 1]@.len() == self.paragraphs@[p - 1].len());
            self.cursor = (p - 1, prev_len);
            if let Some((cp, cs)) = self.composing {
                if cp == p {
                    self.composing = Some((p - 1, cs + prev_len));
                } else if cp > p {
                    self.composing = Some((cp - 1, cs));
                }
            }
            proof {
                lemma_paras_remove(old_pg, p as int);
                lemma_seg_views_concat(prev_row, old_pg[p as int]@);
                lemma_paras_set(mid, p - 1, self.paragraphs@[p - 1]);
                assert(self.paragraphs@ == mid.update(p - 1, self.paragraphs@[p - 1]));
                assert(self@ =~= old(self)@.delete_segment_left());
                if old(self)@.wf() {
                    lemma_delete_left_keeps_wf(old(self)@);
                }
            }
        }
    }

    /// Deletes the segment under the cursor, or, at the end of a paragraph, joins
    /// the next paragraph to it.
    pub fn delete_segment_under(&mut self)
        requires
            old(self).cursor.0 < old(self)@.paras.len(),
            old(self)@.join_under_fits(),
        ensures
            final(self)@ == old(self)@.delete_segment_under(),
            old(self)@.wf() ==> final(self)@.wf(),
    {
        let ghost old_pg = self.paragraphs@;
        let (p, s) = self.cursor;
        assert(self.paragraphs@.len() == self.paragraphs.len());
        if s < self.paragraphs[p].len() {
            let ghost row0 = self.paragraphs@[p as int]@;
            let _ = self.paragraphs[p].remove(s);
            self.shift_composing_for_delete(p, s);
            proof {
                lemma_seg_views_remove(row0, s as int);
                lemma_paras_set(old_pg, p as int, self.paragraphs@[p as int]);
                assert(self.paragraphs@ == old_pg.update(p as int, self.paragraphs@[p as int]));
                assert(self@ =~= old(self)@.delete_segment_under());
                if old(self)@.wf() {
                    lemma_delete_under_keeps_wf(old(self)@);
                }
            }
        } else if p + 1 < self.paragraphs.len() {
            let mut tail = self.paragraphs.remove(p + 1);
            let ghost mid = self.paragraphs@;
            let ghost cur_row = self.paragraphs@[p as int]@;
            self.paragraphs[p].append(&mut tail);
            assert(self.paragraphs@[p as int]@.len() == self.paragraphs@[p as int].len());
            if let Some((cp, cs)) = self.composing {
                if cp == p + 1 {
                    self.composing = Some((p, cs + s));
                } else if cp > p + 1 {
                    self.composing = Some((cp - 1, cs));
                }
            }
            proof {
                lemma_paras_remove(old_pg, p + 1);
                lemma_seg_views_concat(cur_row, old_pg[p + 1]@);
                lemma_paras_set(mid, p as int, self.paragraphs@[p as int]);
                assert(self.paragraphs@ == mid.update(p as int, self.paragraphs@[p as int]));
                assert(self@ =~= old(self)@.delete_segment_under());
                if old(self)@.wf() {
                    lemma_delete_under_keeps_wf(old(self)@);
                }
            }
        }
    }

    fn shift_composing_for_delete(&mut self, p: usize, s: usize)
        ensures
            final(self).paragraphs == old(self).paragraphs,
            final(self).cursor == old(self).cursor,
            final(self).scroll_offset == old(self).scroll_offset,
            final(self).composing == shift_for_delete(old(self).composing, p, s),
    {
        if let Some((cp, cs)) = self.composing {
            if cp == p && cs >= s {
                if cs == s {
                    self.composing = None;
                } else {
                    self.composing = Some((cp, cs - 1));
                }
            }
        }
    }

    pub fn move_cursor_left(&mut self)
        requires
            old(self).cursor.1 == 0 && old(self).cursor.0 > 0 ==> old(self).cursor.0 - 1 < old(self)@.paras.len(),
        ensures
            final(self)@ == old(self)@.move_cursor_left(),
            old(self)@.wf() ==> final(self)@.wf(),
    {
        let (p, s) = self.cursor;
        if s > 0 {
            self.cursor.1 = s - 1;
        } else if p > 0 {
            self.cursor = (p - 1, self.paragraphs[p - 1].len());
        }
        assert(self@ =~= old(self)@.move_cursor_left());
    }

    pub fn move_cursor_right(&mut self)
        requires
            old(self).cursor.0 < old(self)@.paras.len(),
        ensures
            final(self)@ == old(self)@.move_cursor_right(),
            old(self)@.wf() ==> final(self)@.wf(),
    {
        let (p, s) = self.cursor;
        assert(self.paragraphs@.len() == self.paragraphs.len());
        if s < self.paragraphs[p].len() {
            self.cursor.1 = s + 1;
        } else if p + 1 < self.paragraphs.len() {
            self.cursor = (p + 1, 0);
        }
        assert(self@ =~= old(self)@.move_cursor_right());
    }

    pub fn move_cursor_home(&mut self)
        ensures
            final(self)@ == old(self)@.move_cursor_home(),
            old(self)@.wf() ==> final(self)@.wf(),
    {
        self.cursor.1 = 0;
        assert(self@ =~= old(self)@.move_cursor_home());
    }

    pub fn move_cursor_end(&mut self)
        requires
            old(self).cursor.0 < old(self)@.paras.len(),
        ensures
            final(self)@ == old(self)@.move_cursor_end(),
            old(self)@.wf() ==> final(self)@.wf(),
    {
        let p = self.cursor.0;
        self.cursor.1 = self.paragraphs[p].len();
        assert(self@ =~= old(self)@.move_cursor_end());
    }
}

} // verus!
