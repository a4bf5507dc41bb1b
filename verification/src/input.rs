//! Character classes, punctuation mapping, pasting and copying text.

use vstd::prelude::*;
use crate::doc::{law_insert_in_two_steps, law_insert_nothing, Doc, DocView, SegmentView};
use crate::text::{chars_of, string_pop, string_push};

verus! {

/// The ASCII punctuation that the input method maps to full-width forms.
pub open spec fn spec_is_ascii_punct(c: char) -> bool {
    c == ',' || c == '.' || c == '?' || c == '!' || c == ':' || c == ';' || c == '\'' || c == '"'
}

/// The full-width blank and punctuation the input method produces.
pub open spec fn spec_is_full_width_punct(c: char) -> bool {
    c == '\u{3000}' || c == '\u{FF0C}' || c == '\u{3002}' || c == '\u{FF1F}' || c == '\u{FF01}'
        || c == '\u{FF1A}' || c == '\u{FF1B}' || c == '\u{FF07}' || c == '\u{FF02}'
}

/// The full-width form of an ASCII punctuation mark or blank; other characters unchanged.
pub open spec fn spec_full_width_punct(c: char) -> char {
    if c == ',' {
        '\u{FF0C}'
    } else if c == '.' {
        '\u{3002}'
    } else if c == '?' {
        '\u{FF1F}'
    } else if c == '!' {
        '\u{FF01}'
    } else if c == ':' {
        '\u{FF1A}'
    } else if c == ';' {
        '\u{FF1B}'
    } else if c == '\'' {
        '\u{FF07}'
    } else if c == '"' {
        '\u{FF02}'
    } else if c == ' ' {
        '\u{3000}'
    } else {
        c
    }
}

pub open spec fn spec_is_ascii_alphanumeric(c: char) -> bool {
    ('0' <= c <= '9') || ('a' <= c <= 'z') || ('A' <= c <= 'Z')
}

/// A CJK unified ideograph (main block, extension A or extension B).
pub open spec fn spec_is_cjk(c: char) -> bool {
    (0x4E00 <= c as u32 <= 0x9FFF) || (0x3400 <= c as u32 <= 0x4DBF) || (0x20000 <= c as u32 <= 0x2A6DF)
}

#[derive(PartialEq, Eq, Structural, Clone, Copy, Debug)]
pub enum CharKind {
    Cjk,
    Latin,
    Punct,
    Other,
}

pub open spec fn spec_classify(c: char) -> CharKind {
    if spec_is_ascii_punct(c) || spec_is_full_width_punct(c) {
        CharKind::Punct
    } else if spec_is_ascii_alphanumeric(c) {
        CharKind::Latin
    } else if spec_is_cjk(c) {
        CharKind::Cjk
    } else {
        CharKind::Other
    }
}

pub fn is_ascii_punct(c: char) -> (r: bool)
    ensures
        r == spec_is_ascii_punct(c),
{
    c == ',' || c == '.' || c == '?' || c == '!' || c == ':' || c == ';' || c == '\'' || c == '"'
}

pub fn is_full_width_punct(c: char) -> (r: bool)
    ensures
        r == spec_is_full_width_punct(c),
{
    c == '\u{3000}' || c == '\u{FF0C}' || c == '\u{3002}' || c == '\u{FF1F}' || c == '\u{FF01}'
        || c == '\u{FF1A}' || c == '\u{FF1B}' || c == '\u{FF07}' || c == '\u{FF02}'
}

pub fn full_width_punct(c: char) -> (r: char)
    ensures
        r == spec_full_width_punct(c),
{
    match c {
        ',' => '\u{FF0C}',
        '.' => '\u{3002}',
        '?' => '\u{FF1F}',
        '!' => '\u{FF01}',
        ':' => '\u{FF1A}',
        ';' => '\u{FF1B}',
        '\'' => '\u{FF07}',
        '"' => '\u{FF02}',
        ' ' => '\u{3000}',
        _ => c,
    }
}

pub fn classify(c: char) -> (r: CharKind)
    ensures
        r == spec_classify(c),
{
    if is_ascii_punct(c) || is_full_width_punct(c) {
        CharKind::Punct
    } else if ('0' <= c && c <= '9') || ('a' <= c && c <= 'z') || ('A' <= c && c <= 'Z') {
        CharKind::Latin
    } else {
        let v = c as u32;
        if (0x4E00 <= v && v <= 0x9FFF) || (0x3400 <= v && v <= 0x4DBF) || (0x20000 <= v && v <= 0x2A6DF) {
            CharKind::Cjk
        } else {
            CharKind::Other
        }
    }
}

/// A pasted character: ASCII punctuation becomes full-width, the rest is kept.
pub open spec fn paste_char(c: char) -> char {
    if spec_is_ascii_punct(c) {
        spec_full_width_punct(c)
    } else {
        c
    }
}

/// The pending run inserted into the document, where it is not empty.
pub open spec fn flush(d: DocView, pending: Seq<char>) -> DocView {
    if pending.len() == 0 {
        d
    } else {
        d.insert_committed(pending)
    }
}

/// Pasting `t` into `d` with the run `pending` (of kind `kind`) not yet inserted:
/// a line break ends the run and breaks the line; a character of another kind
/// ends the run and starts a new one.
pub open spec fn paste_from(d: DocView, pending: Seq<char>, kind: Option<CharKind>, t: Seq<char>) -> DocView
    decreases t.len(),
{
    if t.len() == 0 {
        flush(d, pending)
    } else if t[0] == '\n' {
        paste_from(flush(d, pending).break_line(), seq![], None, t.drop_first())
    } else {
        let m = paste_char(t[0]);
        let k = spec_classify(m);
        if kind != Some(k) {
            paste_from(flush(d, pending), seq![m], Some(k), t.drop_first())
        } else {
            paste_from(d, pending.push(m), kind, t.drop_first())
        }
    }
}

/// The document after pasting `t`.
pub open spec fn pasted(d: DocView, t: Seq<char>) -> DocView {
    paste_from(d, seq![], None, t)
}

/// Inserts the pending run, if any, and forgets its kind.
pub fn flush_run(doc: &mut Doc, buf: &mut String, kind: &mut Option<CharKind>)
    requires
        old(doc)@.cursor_in_range(),
        old(doc)@.insert_fits(old(buf)@.len()),
    ensures
        final(doc)@ == flush(old(doc)@, old(buf)@),
        final(buf)@.len() == 0,
        *final(kind) is None,
        old(doc)@.wf() ==> final(doc)@.wf(),
{
    if !buf.as_str().is_empty() {
        let text = buf.as_str().to_owned();
        *buf = String::new();
        doc.insert_committed(text);
    }
    *kind = None;
}

fn differs(kind: Option<CharKind>, k: CharKind) -> (r: bool)
    ensures
        r == (kind != Some(k)),
{
    match kind {
        Some(prev) => prev != k,
        None => true,
    }
}

/// Pastes `text` into the document at the cursor: line breaks break the line,
/// ASCII punctuation is normalised to full-width, everything else is committed
/// verbatim, one segment per character.
pub fn paste_text(doc: &mut Doc, text: &str)
    requires
        old(doc)@.wf(),
    ensures
        final(doc)@ == pasted(old(doc)@, text@),
        final(doc)@.wf(),
{
    let chars = chars_of(text);
    let mut buf = String::new();
    let mut buf_kind: Option<CharKind> = None;
    let mut i: usize = 0;
    assert(chars@.skip(0) =~= text@);
    while i < chars.len()
        invariant
            chars@ == text@,
            i <= chars@.len(),
            doc@.wf(),
            paste_from(doc@, buf@, buf_kind, chars@.skip(i as int)) == pasted(old(doc)@, text@),
        decreases chars@.len() - i,
    {
        let ch = chars[i];
        let ghost d0 = doc@;
        let ghost b0 = buf@;
        let ghost k0 = buf_kind;
        assert(chars@.skip(i as int).drop_first() =~= chars@.skip(i + 1));
        assert(chars@.skip(i as int)[0] == ch);
        if ch == '\n' {
            flush_run(doc, &mut buf, &mut buf_kind);
            assert(doc.paragraphs@.len() == doc.paragraphs.len());
            assert(doc@.paras.len() == doc.paragraphs@.len());
            doc.break_line();
            assert(buf@ =~= Seq::<char>::empty());
        } else {
            let mapped = if is_ascii_punct(ch) {
                full_width_punct(ch)
            } else {
                ch
            };
            let kind = classify(mapped);
            if differs(buf_kind, kind) {
                flush_run(doc, &mut buf, &mut buf_kind);
                buf_kind = Some(kind);
                assert(buf@ =~= Seq::<char>::empty());
            }
            string_push(&mut buf, mapped);
        }
        i = i + 1;
    }
    assert(chars@.skip(i as int) =~= Seq::<char>::empty());
    flush_run(doc, &mut buf, &mut buf_kind);
}

/// The characters of `t` as pasting commits them.
pub open spec fn paste_map(t: Seq<char>) -> Seq<char> {
    t.map_values(|c: char| paste_char(c))
}

/// Room, after the cursor and after the composition, for `n` more segments.
pub open spec fn room_for(d: DocView, n: nat) -> bool {
    &&& d.cursor.1 + n <= usize::MAX
    &&& d.composing matches Some((cp, cs)) ==> cs + n <= usize::MAX
}

proof fn lemma_flush_twice(d: DocView, a: Seq<char>, b: Seq<char>)
    requires
        d.cursor_in_range(),
        room_for(d, a.len() + b.len()),
    ensures
        flush(flush(d, a), b) == flush(d, a + b),
        flush(d, a).cursor_in_range(),
        room_for(flush(d, a), b.len()),
{
    if a.len() == 0 {
        assert(a + b =~= b);
    } else {
        let (p, s) = d.cursor;
        let row = d.paras[p as int];
        assert((row.take(s as int) + crate::doc::committed_run(a) + row.skip(s as int)).len() == row.len() + a.len());
        if b.len() == 0 {
            assert(a + b =~= a);
        } else {
            law_insert_in_two_steps(d, a, b);
        }
    }
}

proof fn lemma_paste_line(d: DocView, pending: Seq<char>, kind: Option<CharKind>, t: Seq<char>)
    requires
        d.cursor_in_range(),
        !t.contains('\n'),
        room_for(d, pending.len() + t.len()),
    ensures
        paste_from(d, pending, kind, t) == flush(d, pending + paste_map(t)),
    decreases t.len(),
{
    if t.len() == 0 {
        assert(pending + paste_map(t) =~= pending);
    } else {
        let m = paste_char(t[0]);
        let k = spec_classify(m);
        let rest = t.drop_first();
        assert(t[0] != '\n') by {
            if t[0] == '\n' {
                assert(t.contains('\n'));
            }
        }
        assert(!rest.contains('\n')) by {
            if rest.contains('\n') {
                let j = choose|j: int| 0 <= j < rest.len() && rest[j] == '\n';
                assert(t[j + 1] == '\n');
            }
        }
        assert(paste_map(t) =~= seq![m] + paste_map(rest));
        if kind != Some(k) {
            lemma_flush_twice(d, pending, seq![m] + paste_map(rest));
            lemma_paste_line(flush(d, pending), seq![m], Some(k), rest);
            assert(pending + (seq![m] + paste_map(rest)) =~= pending + paste_map(t));
        } else {
            lemma_paste_line(d, pending.push(m), kind, rest);
            assert(pending.push(m) + paste_map(rest) =~= pending + paste_map(t));
        }
    }
}

/// Pasting a single line inserts it at the cursor, punctuation made full-width,
/// one committed segment per character, whatever runs of character kinds it holds.
pub proof fn law_paste_line_is_insert(d: DocView, t: Seq<char>)
    requires
        d.cursor_in_range(),
        !t.contains('\n'),
        room_for(d, t.len()),
    ensures
        pasted(d, t) == d.insert_committed(paste_map(t)),
{
    lemma_paste_line(d, seq![], None, t);
    assert(Seq::<char>::empty() + paste_map(t) =~= paste_map(t));
    if paste_map(t).len() == 0 {
        law_insert_nothing(d);
    }
}

/// Inserting `t` line by line: the characters of each line, punctuation made
/// full-width, inserted at once, and a line break between consecutive lines;
/// `line` holds the characters of the current line read so far.
pub open spec fn insert_lines(d: DocView, line: Seq<char>, t: Seq<char>) -> DocView
    decreases t.len(),
{
    if t.len() == 0 {
        d.insert_committed(line)
    } else if t[0] == '\n' {
        insert_lines(d.insert_committed(line).break_line(), seq![], t.drop_first())
    } else {
        insert_lines(d, line.push(paste_char(t[0])), t.drop_first())
    }
}

/// Flushing a pending run inserts it at the cursor; an empty run changes nothing.
pub proof fn lemma_flush_is_insert(d: DocView, a: Seq<char>)
    requires
        d.cursor_in_range(),
    ensures
        flush(d, a) == d.insert_committed(a),
{
    if a.len() == 0 {
        law_insert_nothing(d);
        assert(a =~= Seq::<char>::empty());
    }
}

proof fn lemma_insert_lines_shift(d: DocView, a: Seq<char>, b: Seq<char>, t: Seq<char>)
    requires
        d.cursor_in_range(),
        room_for(d, a.len() + b.len() + t.len()),
    ensures
        insert_lines(flush(d, a), b, t) == insert_lines(d, a + b, t),
    decreases t.len(),
{
    lemma_flush_is_insert(d, a);
    law_insert_in_two_steps(d, a, b);
    if t.len() > 0 && t[0] != '\n' {
        let m = paste_char(t[0]);
        lemma_insert_lines_shift(d, a, b.push(m), t.drop_first());
        assert(a + b.push(m) =~= (a + b).push(m));
    }
}

proof fn lemma_paste_from_lines(d: DocView, pending: Seq<char>, kind: Option<CharKind>, t: Seq<char>)
    requires
        d.cursor_in_range(),
        room_for(d, pending.len() + t.len()),
    ensures
        paste_from(d, pending, kind, t) == insert_lines(d, pending, t),
    decreases t.len(),
{
    lemma_flush_is_insert(d, pending);
    if t.len() == 0 {
    } else {
        let rest = t.drop_first();
        lemma_flush_twice(d, pending, t);
        let e = flush(d, pending);
        if t[0] == '\n' {
            let d2 = e.break_line();
            assert(d2.cursor_in_range());
            assert(room_for(d2, rest.len()));
            lemma_paste_from_lines(d2, seq![], None, rest);
        } else {
            let m = paste_char(t[0]);
            let k = spec_classify(m);
            if kind != Some(k) {
                lemma_paste_from_lines(e, seq![m], Some(k), rest);
                lemma_insert_lines_shift(d, pending, seq![m], rest);
                assert(pending + seq![m] =~= pending.push(m));
            } else {
                lemma_paste_from_lines(d, pending.push(m), kind, rest);
            }
        }
    }
}

/// Pasting text that spans several lines equals inserting each line, its
/// punctuation made full-width, with a line break between consecutive lines:
/// how the characters are grouped into runs does not change the result.
pub proof fn law_paste_is_line_by_line_insert(d: DocView, t: Seq<char>)
    requires
        d.cursor_in_range(),
        room_for(d, t.len()),
    ensures
        pasted(d, t) == insert_lines(d, seq![], t),
{
    lemma_paste_from_lines(d, seq![], None, t);
}

/// Pasting changes a character only where it is one of the eight ASCII
/// punctuation marks, which become their full-width forms; every other
/// character, the ASCII space included, is committed as it is.
pub proof fn law_paste_maps_only_punctuation(c: char)
    ensures
        !(c == ',' || c == '.' || c == '?' || c == '!' || c == ':' || c == ';' || c == '\'' || c == '"')
            ==> paste_char(c) == c,
        paste_char(' ') == ' ',
        paste_char(',') == '\u{FF0C}',
        paste_char('.') == '\u{3002}',
        paste_char('?') == '\u{FF1F}',
        paste_char('!') == '\u{FF01}',
        paste_char(':') == '\u{FF1A}',
        paste_char(';') == '\u{FF1B}',
        paste_char('\'') == '\u{FF07}',
        paste_char('"') == '\u{FF02}',
{
}

/// Pasting a single line without ASCII punctuation inserts it exactly as it is,
/// one committed segment per character, at the cursor.
pub proof fn law_paste_plain_line_verbatim(d: DocView, t: Seq<char>)
    requires
        d.cursor_in_range(),
        room_for(d, t.len()),
        forall|i: int|
            0 <= i < t.len() ==> #[trigger] t[i] != '\n' && t[i] != ',' && t[i] != '.' && t[i] != '?' && t[i] != '!'
                && t[i] != ':' && t[i] != ';' && t[i] != '\'' && t[i] != '"',
    ensures
        pasted(d, t) == d.insert_committed(t),
{
    assert(!t.contains('\n')) by {
        if t.contains('\n') {
            let j = choose|j: int| 0 <= j < t.len() && t[j] == '\n';
            assert(t[j] != '\n');
        }
    }
    law_paste_line_is_insert(d, t);
    assert forall|i: int| 0 <= i < t.len() implies paste_map(t)[i] == t[i] by {
        assert(t[i] != ',');
        law_paste_maps_only_punctuation(t[i]);
    }
    assert(paste_map(t) =~= t);
}

/// Which characters are punctuation: exactly the eight ASCII marks, and the
/// full-width blank and the eight full-width marks.
pub proof fn law_punctuation_sets(c: char)
    ensures
        spec_is_ascii_punct(c) <==> (c == ',' || c == '.' || c == '?' || c == '!' || c == ':' || c == ';' || c == '\''
            || c == '"'),
        spec_is_full_width_punct(c) <==> (c == '\u{3000}' || c == '\u{FF0C}' || c == '\u{3002}' || c == '\u{FF1F}'
            || c == '\u{FF01}' || c == '\u{FF1A}' || c == '\u{FF1B}' || c == '\u{FF07}' || c == '\u{FF02}'),
{
}

/// The full-width form: each ASCII mark and the space map to their full-width
/// counterparts, which are full-width punctuation; every other character is
/// left as it is.
pub proof fn law_full_width_forms(c: char)
    ensures
        spec_full_width_punct(' ') == '\u{3000}',
        spec_full_width_punct(',') == '\u{FF0C}',
        spec_full_width_punct('.') == '\u{3002}',
        spec_full_width_punct('?') == '\u{FF1F}',
        spec_full_width_punct('!') == '\u{FF01}',
        spec_full_width_punct(':') == '\u{FF1A}',
        spec_full_width_punct(';') == '\u{FF1B}',
        spec_full_width_punct('\'') == '\u{FF07}',
        spec_full_width_punct('"') == '\u{FF02}',
        !(c == ' ' || c == ',' || c == '.' || c == '?' || c == '!' || c == ':' || c == ';' || c == '\'' || c == '"')
            ==> spec_full_width_punct(c) == c,
        (c == ' ' || c == ',' || c == '.' || c == '?' || c == '!' || c == ':' || c == ';' || c == '\'' || c == '"')
            ==> spec_is_full_width_punct(spec_full_width_punct(c)),
{
}

/// The kind of a character, for grouping pasted runs: punctuation (ASCII or
/// full-width) first, then ASCII letters and digits, then CJK ideographs of
/// the main block and extensions A and B, and everything else.
pub proof fn law_classify_kinds(c: char)
    ensures
        spec_is_ascii_punct(c) || spec_is_full_width_punct(c) ==> spec_classify(c) == CharKind::Punct,
        ('0' <= c <= '9' || 'a' <= c <= 'z' || 'A' <= c <= 'Z') ==> spec_classify(c) == CharKind::Latin,
        ('\u{4E00}' <= c <= '\u{9FFF}' || '\u{3400}' <= c <= '\u{4DBF}' || '\u{20000}' <= c <= '\u{2A6DF}')
            ==> spec_classify(c) == CharKind::Cjk,
        spec_classify(c) == CharKind::Other <==> !(spec_is_ascii_punct(c) || spec_is_full_width_punct(c) || '0' <= c
            <= '9' || 'a' <= c <= 'z' || 'A' <= c <= 'Z' || '\u{4E00}' <= c <= '\u{9FFF}' || '\u{3400}' <= c
            <= '\u{4DBF}' || '\u{20000}' <= c <= '\u{2A6DF}'),
{
}

/// The copied text without trailing line breaks is what remains of `s` once the
/// line breaks at its end are cut off: a prefix of `s`, not ending in a line
/// break, followed in `s` by line breaks only.
pub proof fn law_trim_cuts_trailing_breaks(s: Seq<char>)
    ensures
        trim_trailing_newlines(s).len() <= s.len(),
        trim_trailing_newlines(s) == s.take(trim_trailing_newlines(s).len() as int),
        trim_trailing_newlines(s).len() == 0 || trim_trailing_newlines(s).last() != '\n',
        forall|i: int| trim_trailing_newlines(s).len() <= i < s.len() ==> s[i] == '\n',
    decreases s.len(),
{
    if s.len() > 0 && s.last() == '\n' {
        law_trim_cuts_trailing_breaks(s.drop_last());
        let t = trim_trailing_newlines(s.drop_last());
        assert(s.drop_last().take(t.len() as int) =~= s.take(t.len() as int));
        assert forall|i: int| t.len() <= i < s.len() implies s[i] == '\n' by {
            if i < s.len() - 1 {
                assert(s.drop_last()[i] == s[i]);
            }
        }
    } else {
        assert(s.take(s.len() as int) =~= s);
    }
}

/// The text of a paragraph: its segments' texts one after another.
pub open spec fn para_text(row: Seq<SegmentView>) -> Seq<char>
    decreases row.len(),
{
    if row.len() == 0 {
        seq![]
    } else {
        para_text(row.drop_last()) + row.last().text()
    }
}

/// The text of a document: its paragraphs' texts joined by line breaks.
pub open spec fn doc_text(paras: Seq<Seq<SegmentView>>) -> Seq<char>
    decreases paras.len(),
{
    if paras.len() == 0 {
        seq![]
    } else if paras.len() == 1 {
        para_text(paras[0])
    } else {
        doc_text(paras.drop_last()) + seq!['\n'] + para_text(paras.last())
    }
}

/// The copied text is built line by line: a paragraph's text is its segments'
/// texts in order, and each further paragraph adds a line break and its text.
pub proof fn law_text_joins_segments_and_lines(ps: Seq<Seq<SegmentView>>, r: Seq<SegmentView>, x: SegmentView)
    ensures
        para_text(Seq::<SegmentView>::empty()) == Seq::<char>::empty(),
        para_text(r.push(x)) == para_text(r) + x.text(),
        doc_text(Seq::<Seq<SegmentView>>::empty()) == Seq::<char>::empty(),
        doc_text(seq![r]) == para_text(r),
        ps.len() > 0 ==> doc_text(ps.push(r)) == doc_text(ps) + seq!['\n'] + para_text(r),
{
    assert(r.push(x).drop_last() =~= r);
    assert(ps.push(r).drop_last() =~= ps);
}

/// `s` without the line breaks at its end.
pub open spec fn trim_trailing_newlines(s: Seq<char>) -> Seq<char>
    decreases s.len(),
{
    if s.len() > 0 && s.last() == '\n' {
        trim_trailing_newlines(s.drop_last())
    } else {
        s
    }
}

/// The document as copied to the clipboard: paragraphs joined by line breaks,
/// without line breaks at the end.
pub fn document_text(doc: &Doc) -> (r: String)
    ensures
        r@ == trim_trailing_newlines(doc_text(doc@.paras)),
{
    let ghost paras = doc@.paras;
    let mut out = String::new();
    let mut i: usize = 0;
    while i < doc.paragraphs.len()
        invariant
            paras == doc@.paras,
            i <= paras.len(),
            out@ == doc_text(paras.take(i as int)),
        decreases paras.len() - i,
    {
        let ghost before = out@;
        if i > 0 {
            string_push(&mut out, '\n');
        }
        let paragraph = &doc.paragraphs[i];
        assert(paras[i as int] == doc.paragraphs@[i as int]@.map_values(|s: crate::doc::Segment| s@));
        let mut j: usize = 0;
        while j < paragraph.len()
            invariant
                paras == doc@.paras,
                i < paras.len(),
                paragraph == doc.paragraphs@[i as int],
                paras[i as int] == paragraph@.map_values(|s: crate::doc::Segment| s@),
                j <= paragraph@.len(),
                out@ == (if i > 0 { before + seq!['\n'] } else { before }) + para_text(paras[i as int].take(j as int)),
            decreases paragraph@.len() - j,
        {
            let ghost row = paras[i as int];
            assert(row.take(j + 1).drop_last() =~= row.take(j as int));
            assert(row.take(j + 1).last() == paragraph@[j as int]@);
            out.append(paragraph[j].text());
            assert(out@ =~= (if i > 0 { before + seq!['\n'] } else { before }) + para_text(row.take(j + 1)));
            j = j + 1;
        }
        proof {
            assert(paras[i as int].take(j as int) =~= paras[i as int]);
            assert(paras.take(i + 1).drop_last() =~= paras.take(i as int));
            if i == 0 {
                assert(before =~= Seq::<char>::empty());
                assert(out@ =~= doc_text(paras.take(i + 1)));
            } else {
                assert(out@ =~= doc_text(paras.take(i + 1)));
            }
        }
        i = i + 1;
    }
    assert(paras.take(i as int) =~= paras);
    loop
        invariant
            trim_trailing_newlines(out@) == trim_trailing_newlines(doc_text(paras)),
        ensures
            out@ == trim_trailing_newlines(doc_text(paras)),
        decreases out@.len(),
    {
        let ghost before = out@;
        match string_pop(&mut out) {
            Some(c) => {
                if c != '\n' {
                    string_push(&mut out, c);
                    assert(out@ =~= before);
                    break;
                }
            },
            None => {
                break;
            },
        }
    }
    out
}

/// Where the cursor sits in the document's text.
pub open spec fn text_offset(paras: Seq<Seq<SegmentView>>, cursor: (usize, usize)) -> nat {
    let (p, s) = cursor;
    doc_text(paras.take(p as int)).len() + (if p > 0 { 1nat } else { 0nat }) + para_text(
        paras[p as int].take(s as int),
    ).len()
}

pub proof fn lemma_para_text_concat(a: Seq<SegmentView>, b: Seq<SegmentView>)
    ensures
        para_text(a + b) == para_text(a) + para_text(b),
    decreases b.len(),
{
    if b.len() == 0 {
        assert(a + b =~= a);
        assert(para_text(b) =~= Seq::<char>::empty());
        assert(para_text(a) + para_text(b) =~= para_text(a));
    } else {
        assert((a + b).drop_last() =~= a + b.drop_last());
        assert((a + b).last() == b.last());
        lemma_para_text_concat(a, b.drop_last());
        assert(para_text(a + b) =~= para_text(a) + para_text(b));
    }
}

pub proof fn lemma_para_text_run(t: Seq<char>)
    ensures
        para_text(crate::doc::committed_run(t)) == t,
    decreases t.len(),
{
    let r = crate::doc::committed_run(t);
    if t.len() == 0 {
        assert(r.len() == 0);
        assert(para_text(r) =~= t);
    } else {
        assert(r.drop_last() =~= crate::doc::committed_run(t.drop_last()));
        lemma_para_text_run(t.drop_last());
        assert(r.last().text() =~= seq![t.last()]);
        assert(t.drop_last() + seq![t.last()] =~= t);
    }
}

/// The separator between two joined parts: a line break where both have paragraphs.
pub open spec fn join_sep(a: Seq<Seq<SegmentView>>, b: Seq<Seq<SegmentView>>) -> Seq<char> {
    if a.len() > 0 && b.len() > 0 {
        seq!['\n']
    } else {
        seq![]
    }
}

pub proof fn lemma_doc_text_concat(a: Seq<Seq<SegmentView>>, b: Seq<Seq<SegmentView>>)
    ensures
        doc_text(a + b) == doc_text(a) + join_sep(a, b) + doc_text(b),
    decreases b.len(),
{
    if b.len() == 0 {
        assert(a + b =~= a);
        assert(doc_text(a) + join_sep(a, b) + doc_text(b) =~= doc_text(a));
    } else if b.len() == 1 {
        if a.len() == 0 {
            assert(a + b =~= b);
            assert(doc_text(a) + join_sep(a, b) + doc_text(b) =~= doc_text(b));
        } else {
            assert((a + b).drop_last() =~= a);
            assert((a + b).last() == b[0]);
        }
    } else {
        assert((a + b).drop_last() =~= a + b.drop_last());
        assert((a + b).last() == b.last());
        lemma_doc_text_concat(a, b.drop_last());
        assert(doc_text(a + b) =~= doc_text(a) + join_sep(a, b) + doc_text(b));
    }
}

/// The document's text before paragraph `p`, with the line break that ends it.
spec fn text_before(paras: Seq<Seq<SegmentView>>, p: int) -> Seq<char> {
    doc_text(paras.take(p)) + (if p > 0 { seq!['\n'] } else { Seq::<char>::empty() })
}

/// The document's text after paragraph `p`, with the line break that starts it.
spec fn text_after(paras: Seq<Seq<SegmentView>>, p: int) -> Seq<char> {
    (if p + 1 < paras.len() { seq!['\n'] } else { Seq::<char>::empty() }) + doc_text(paras.skip(p + 1))
}

proof fn lemma_doc_text_around(paras: Seq<Seq<SegmentView>>, p: int)
    requires
        0 <= p < paras.len(),
    ensures
        doc_text(paras) == text_before(paras, p) + para_text(paras[p]) + text_after(paras, p),
{
    let a = paras.take(p);
    let x = seq![paras[p]];
    let b = paras.skip(p + 1);
    assert(paras =~= a + (x + b));
    lemma_doc_text_concat(a, x + b);
    lemma_doc_text_concat(x, b);
    assert(doc_text(x) == para_text(paras[p]));
    assert(doc_text(paras) =~= text_before(paras, p) + para_text(paras[p]) + text_after(paras, p));
}

proof fn lemma_doc_text_update(paras: Seq<Seq<SegmentView>>, p: int, row: Seq<SegmentView>)
    requires
        0 <= p < paras.len(),
    ensures
        doc_text(paras.update(p, row)) == text_before(paras, p) + para_text(row) + text_after(paras, p),
{
    let np = paras.update(p, row);
    lemma_doc_text_around(np, p);
    assert(np.take(p) =~= paras.take(p));
    assert(np.skip(p + 1) =~= paras.skip(p + 1));
}

proof fn lemma_take_skip_concat(x: Seq<char>, y: Seq<char>)
    ensures
        (x + y).take(x.len() as int) == x,
        (x + y).skip(x.len() as int) == y,
{
    assert((x + y).take(x.len() as int) =~= x);
    assert((x + y).skip(x.len() as int) =~= y);
}

/// Breaking the line puts a line break into the document's text at the cursor.
pub proof fn law_break_line_inserts_newline(d: DocView)
    requires
        d.cursor_in_range(),
    ensures
        doc_text(d.break_line().paras) == doc_text(d.paras).take(text_offset(d.paras, d.cursor) as int)
            + seq!['\n'] + doc_text(d.paras).skip(text_offset(d.paras, d.cursor) as int),
{
    let (p, s) = d.cursor;
    let ps = d.paras;
    let row = ps[p as int];
    let x1 = row.take(s as int);
    let x2 = row.skip(s as int);
    let np = d.break_line().paras;
    let rest = ps.skip(p + 1);
    lemma_doc_text_around(ps, p as int);
    lemma_doc_text_around(np, p as int);
    assert(np.take(p as int) =~= ps.take(p as int));
    assert(np[p as int] == x1);
    assert(np.skip(p + 1) =~= seq![x2] + rest);
    lemma_doc_text_concat(seq![x2], rest);
    assert(doc_text(seq![x2]) == para_text(x2));
    assert(row =~= x1 + x2);
    lemma_para_text_concat(x1, x2);
    let pa = text_before(ps, p as int) + para_text(x1);
    let pb = para_text(x2) + text_after(ps, p as int);
    assert(doc_text(ps) =~= pa + pb);
    lemma_take_skip_concat(pa, pb);
    assert(doc_text(np) =~= pa + seq!['\n'] + pb);
}

/// Inserting committed text puts it into the document's text at the cursor.
pub proof fn law_insert_text_at_cursor(d: DocView, t: Seq<char>)
    requires
        d.cursor_in_range(),
    ensures
        doc_text(d.insert_committed(t).paras) == doc_text(d.paras).take(text_offset(d.paras, d.cursor) as int)
            + t + doc_text(d.paras).skip(text_offset(d.paras, d.cursor) as int),
{
    let (p, s) = d.cursor;
    let ps = d.paras;
    let row = ps[p as int];
    let x1 = row.take(s as int);
    let x2 = row.skip(s as int);
    let run = crate::doc::committed_run(t);
    lemma_doc_text_around(ps, p as int);
    lemma_doc_text_update(ps, p as int, x1 + run + x2);
    assert(row =~= x1 + x2);
    lemma_para_text_concat(x1, x2);
    lemma_para_text_concat(x1 + run, x2);
    lemma_para_text_concat(x1, run);
    lemma_para_text_run(t);
    let pa = text_before(ps, p as int) + para_text(x1);
    let pb = para_text(x2) + text_after(ps, p as int);
    assert(doc_text(ps) =~= pa + pb);
    lemma_take_skip_concat(pa, pb);
    assert(doc_text(d.insert_committed(t).paras) =~= pa + t + pb);
}

/// Deleting left of the cursor removes, from the document's text, the text of the
/// segment before the cursor, or the line break before a paragraph's start.
pub proof fn law_delete_left_removes_text_before_cursor(d: DocView)
    requires
        d.cursor_in_range(),
        !d.cursor_at_doc_start(),
    ensures
        ({
            let (p, s) = d.cursor;
            let n: nat = if s > 0 { d.paras[p as int][s - 1].text().len() } else { 1 };
            let off = text_offset(d.paras, d.cursor);
            &&& n <= off
            &&& doc_text(d.delete_segment_left().paras) == doc_text(d.paras).take(off - n)
                + doc_text(d.paras).skip(off as int)
        }),
{
    let (p, s) = d.cursor;
    if s > 0 {
        lemma_delete_inside_paragraph(d.paras, p as int, s as int);
    } else {
        lemma_delete_paragraph_start(d.paras, p as int);
    }
}

proof fn lemma_para_text_remove(row: Seq<SegmentView>, i: int)
    requires
        0 <= i < row.len(),
    ensures
        para_text(row.take(i + 1)) == para_text(row.take(i)) + row[i].text(),
        para_text(row) == para_text(row.take(i)) + row[i].text() + para_text(row.skip(i + 1)),
        para_text(row.remove(i)) == para_text(row.take(i)) + para_text(row.skip(i + 1)),
{
    let x0 = row.take(i);
    let x1 = row.take(i + 1);
    let x2 = row.skip(i + 1);
    assert(x1.drop_last() =~= x0);
    assert(row =~= x1 + x2);
    assert(row.remove(i) =~= x0 + x2);
    lemma_para_text_concat(x1, x2);
    lemma_para_text_concat(x0, x2);
}

#[verifier::spinoff_prover]
#[verifier::rlimit(40)]
proof fn lemma_delete_inside_paragraph(ps: Seq<Seq<SegmentView>>, p: int, s: int)
    requires
        0 <= p < ps.len(),
        0 < s <= ps[p].len(),
    ensures
        ({
            let n = ps[p][s - 1].text().len();
            let off = text_before(ps, p).len() + para_text(ps[p].take(s)).len();
            &&& n <= off
            &&& doc_text(ps.update(p, ps[p].remove(s - 1))) == doc_text(ps).take(off - n) + doc_text(ps).skip(off as int)
        }),
{
    let row = ps[p];
    let t = row[s - 1].text();
    lemma_doc_text_around(ps, p);
    lemma_doc_text_update(ps, p, row.remove(s - 1));
    lemma_para_text_remove(row, s - 1);
    let pa = text_before(ps, p) + para_text(row.take(s - 1));
    let pb = para_text(row.skip(s)) + text_after(ps, p);
    let tt = doc_text(ps);
    assert(tt =~= pa + (t + pb));
    assert(tt =~= (pa + t) + pb);
    lemma_take_skip_concat(pa, t + pb);
    lemma_take_skip_concat(pa + t, pb);
    assert(doc_text(ps.update(p, row.remove(s - 1))) =~= pa + pb);
}

proof fn lemma_delete_paragraph_start(ps: Seq<Seq<SegmentView>>, p: int)
    requires
        0 < p < ps.len(),
    ensures
        ({
            let off = text_before(ps, p).len() + para_text(ps[p].take(0)).len();
            &&& 1 <= off
            &&& doc_text(ps.remove(p).update(p - 1, ps[p - 1] + ps[p])) == doc_text(ps).take(off - 1)
                + doc_text(ps).skip(off as int)
        }),
{
    let q = p - 1;
    let x = ps[q];
    let y = ps[p];
    let np = ps.remove(p).update(q, x + y);
    lemma_doc_text_around(ps, p);
    lemma_doc_text_around(np, q);
    assert(np.take(q) =~= ps.take(q));
    assert(np.skip(q + 1) =~= ps.skip(p + 1));
    assert(np[q] == x + y);
    assert(ps.take(p) =~= ps.take(q) + seq![x]);
    lemma_doc_text_concat(ps.take(q), seq![x]);
    assert(doc_text(seq![x]) == para_text(x));
    lemma_para_text_concat(x, y);
    assert(y.take(0) =~= Seq::<SegmentView>::empty());
    assert(para_text(Seq::<SegmentView>::empty()) =~= Seq::<char>::empty());
    let pa = text_before(ps, q) + para_text(x);
    let pb = para_text(y) + text_after(ps, p);
    let tt = doc_text(ps);
    assert(text_before(ps, p) =~= pa + seq!['\n']);
    assert(tt =~= pa + (seq!['\n'] + pb));
    assert(tt =~= (pa + seq!['\n']) + pb);
    lemma_take_skip_concat(pa, seq!['\n'] + pb);
    lemma_take_skip_concat(pa + seq!['\n'], pb);
    assert(doc_text(np) =~= pa + pb);
}

} // verus!
