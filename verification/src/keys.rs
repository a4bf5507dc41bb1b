//! What each key press asks for, decided from the key and the input state.

use vstd::prelude::*;
use crate::input::{full_width_punct, is_ascii_punct, spec_full_width_punct, spec_is_ascii_punct};
use crate::view::{popup_index_for_key, spec_popup_index};

verus! {

/// A key, as far as the decisions below tell keys apart.
#[derive(Clone, Copy, PartialEq, Eq, Debug)]
pub enum Key {
    Char(char),
    Enter,
    Esc,
    Backspace,
    Delete,
    Tab,
    BackTab,
    Left,
    Right,
    Up,
    Down,
    Home,
    End,
    Other,
}

/// The modifiers held with a key: exactly none, exactly Shift, exactly Control, or another set.
#[derive(Clone, Copy, PartialEq, Eq, Debug)]
pub enum Mods {
    Plain,
    Shift,
    Control,
    Other,
}

/// What a key press asks for.
#[derive(Clone, Copy, PartialEq, Eq, Debug)]
pub enum KeyAction {
    Quit,
    ClearDocument,
    CopyDocument,
    PasteClipboard,
    /// Commit the highlighted candidate into the document.
    CommitComposition,
    /// Insert one committed character at the cursor.
    InsertChar(char),
    /// Switch between Chinese and English mode, dropping the composition.
    ToggleMode,
    /// Commit the composition, if any, then break the line.
    NewLine,
    CancelComposition,
    ShrinkComposition,
    DeleteLeft,
    DeleteUnder,
    NextCandidate,
    PrevCandidate,
    PrevPage,
    NextPage,
    CursorLeft,
    CursorRight,
    CursorHome,
    CursorEnd,
    CursorUp,
    CursorDown,
    ScrollUp,
    ScrollDown,
    /// Commit the candidate at this index of the page.
    PickCandidate(usize),
    /// Commit the composition, if any, then insert the character.
    CommitThenInsert(char),
    /// Open or extend the composition with the letter, resetting the engine first where asked.
    Compose(char, bool),
    Nothing,
}

pub open spec fn spec_is_ascii_digit(c: char) -> bool {
    '0' <= c <= '9'
}

pub open spec fn spec_is_ascii_alphabetic(c: char) -> bool {
    ('a' <= c <= 'z') || ('A' <= c <= 'Z')
}

/// A control character: general category `Cc`.
pub open spec fn spec_is_control(c: char) -> bool {
    (c as u32) <= 0x1F || (0x7F <= (c as u32) <= 0x9F)
}

pub open spec fn spec_to_ascii_uppercase(c: char) -> char {
    if 'a' <= c <= 'z' {
        ((c as u32) - 32) as char
    } else {
        c
    }
}

pub fn is_ascii_digit(c: char) -> (r: bool)
    ensures
        r == spec_is_ascii_digit(c),
{
    '0' <= c && c <= '9'
}

pub fn is_ascii_alphabetic(c: char) -> (r: bool)
    ensures
        r == spec_is_ascii_alphabetic(c),
{
    ('a' <= c && c <= 'z') || ('A' <= c && c <= 'Z')
}

pub fn is_control(c: char) -> (r: bool)
    ensures
        r == spec_is_control(c),
{
    let v = c as u32;
    v <= 0x1F || (0x7F <= v && v <= 0x9F)
}

pub fn to_ascii_uppercase(c: char) -> (r: char)
    ensures
        r == spec_to_ascii_uppercase(c),
{
    if 'a' <= c && c <= 'z' {
        let v = (c as u32) as u8;
        (v - 32) as char
    } else {
        c
    }
}

/// The action for a key press, given whether the engine is composing, whether
/// English mode is on, and whether the document holds a composition.
pub open spec fn key_action(key: Key, mods: Mods, composing: bool, ascii: bool, doc_composing: bool) -> KeyAction {
    match (key, mods) {
        (Key::Char('q'), Mods::Control) => KeyAction::Quit,
        (Key::Char('n'), Mods::Control) => KeyAction::ClearDocument,
        (Key::Char('c'), Mods::Control) => KeyAction::CopyDocument,
        (Key::Char('v'), Mods::Control) => KeyAction::PasteClipboard,
        (Key::Char(' '), Mods::Plain) => if composing {
            KeyAction::CommitComposition
        } else if ascii {
            KeyAction::InsertChar(' ')
        } else {
            KeyAction::InsertChar('\u{3000}')
        },
        (Key::Char(' '), Mods::Control) => KeyAction::ToggleMode,
        (Key::Enter, Mods::Plain) => KeyAction::NewLine,
        (Key::Esc, _) => if composing {
            KeyAction::CancelComposition
        } else {
            KeyAction::Nothing
        },
        (Key::Backspace, Mods::Plain) => if composing {
            KeyAction::ShrinkComposition
        } else {
            KeyAction::DeleteLeft
        },
        (Key::Delete, Mods::Plain) => KeyAction::DeleteUnder,
        (Key::Tab, Mods::Plain) => KeyAction::NextCandidate,
        (Key::BackTab, _) => KeyAction::PrevCandidate,
        (Key::Left, Mods::Plain) => if composing {
            KeyAction::PrevPage
        } else {
            KeyAction::CursorLeft
        },
        (Key::Right, Mods::Plain) => if composing {
            KeyAction::NextPage
        } else {
            KeyAction::CursorRight
        },
        (Key::Home, Mods::Plain) => KeyAction::CursorHome,
        (Key::End, Mods::Plain) => KeyAction::CursorEnd,
        (Key::Up, Mods::Plain) => if composing {
            KeyAction::PrevCandidate
        } else {
            KeyAction::CursorUp
        },
        (Key::Down, Mods::Plain) => if composing {
            KeyAction::NextCandidate
        } else {
            KeyAction::CursorDown
        },
        (Key::Up, Mods::Control) => KeyAction::ScrollUp,
        (Key::Down, Mods::Control) => KeyAction::ScrollDown,
        (Key::Char(c), Mods::Plain) => if spec_is_ascii_digit(c) {
            if composing {
                match spec_popup_index(c) {
                    Some(i) => KeyAction::PickCandidate(i),
                    None => KeyAction::Nothing,
                }
            } else {
                KeyAction::InsertChar(c)
            }
        } else if spec_is_ascii_punct(c) {
            KeyAction::CommitThenInsert(if ascii { c } else { spec_full_width_punct(c) })
        } else if spec_is_ascii_alphabetic(c) {
            if ascii {
                KeyAction::InsertChar(c)
            } else {
                KeyAction::Compose(c, !doc_composing)
            }
        } else if !spec_is_control(c) && ((c as u32) < 0x80 || ascii) {
            KeyAction::CommitThenInsert(c)
        } else {
            KeyAction::Nothing
        },
        (Key::Char(c), Mods::Shift) => if spec_is_ascii_alphabetic(c) {
            KeyAction::CommitThenInsert(spec_to_ascii_uppercase(c))
        } else if !spec_is_control(c) && ((c as u32) < 0x80 || ascii) {
            KeyAction::CommitThenInsert(c)
        } else {
            KeyAction::Nothing
        },
        _ => KeyAction::Nothing,
    }
}

/// Esc, with any modifiers, cancels the composition while the engine composes,
/// and does nothing otherwise.
pub proof fn law_esc_cancels_composition(mods: Mods, composing: bool, ascii: bool, doc_composing: bool)
    ensures
        composing ==> key_action(Key::Esc, mods, composing, ascii, doc_composing) == KeyAction::CancelComposition,
        !composing ==> key_action(Key::Esc, mods, composing, ascii, doc_composing) == KeyAction::Nothing,
{
}

/// The control keys and the plain editing keys do what the key table says.
pub proof fn law_control_and_editing_keys(composing: bool, ascii: bool, dc: bool)
    ensures
        key_action(Key::Char('q'), Mods::Control, composing, ascii, dc) == KeyAction::Quit,
        key_action(Key::Char('n'), Mods::Control, composing, ascii, dc) == KeyAction::ClearDocument,
        key_action(Key::Char('c'), Mods::Control, composing, ascii, dc) == KeyAction::CopyDocument,
        key_action(Key::Char('v'), Mods::Control, composing, ascii, dc) == KeyAction::PasteClipboard,
        key_action(Key::Char(' '), Mods::Control, composing, ascii, dc) == KeyAction::ToggleMode,
        key_action(Key::Enter, Mods::Plain, composing, ascii, dc) == KeyAction::NewLine,
        key_action(Key::Delete, Mods::Plain, composing, ascii, dc) == KeyAction::DeleteUnder,
        key_action(Key::Tab, Mods::Plain, composing, ascii, dc) == KeyAction::NextCandidate,
        key_action(Key::Home, Mods::Plain, composing, ascii, dc) == KeyAction::CursorHome,
        key_action(Key::End, Mods::Plain, composing, ascii, dc) == KeyAction::CursorEnd,
        key_action(Key::Up, Mods::Control, composing, ascii, dc) == KeyAction::ScrollUp,
        key_action(Key::Down, Mods::Control, composing, ascii, dc) == KeyAction::ScrollDown,
        forall|m: Mods| key_action(Key::BackTab, m, composing, ascii, dc) == KeyAction::PrevCandidate,
        key_action(Key::Backspace, Mods::Plain, composing, ascii, dc) == (if composing {
            KeyAction::ShrinkComposition
        } else {
            KeyAction::DeleteLeft
        }),
        key_action(Key::Char(' '), Mods::Plain, composing, ascii, dc) == (if composing {
            KeyAction::CommitComposition
        } else if ascii {
            KeyAction::InsertChar(' ')
        } else {
            KeyAction::InsertChar('\u{3000}')
        }),
{
}

/// While composing, the arrows move through candidates and pages; otherwise
/// they move the document cursor.
pub proof fn law_arrow_keys(composing: bool, ascii: bool, dc: bool)
    ensures
        key_action(Key::Left, Mods::Plain, composing, ascii, dc) == (if composing {
            KeyAction::PrevPage
        } else {
            KeyAction::CursorLeft
        }),
        key_action(Key::Right, Mods::Plain, composing, ascii, dc) == (if composing {
            KeyAction::NextPage
        } else {
            KeyAction::CursorRight
        }),
        key_action(Key::Up, Mods::Plain, composing, ascii, dc) == (if composing {
            KeyAction::PrevCandidate
        } else {
            KeyAction::CursorUp
        }),
        key_action(Key::Down, Mods::Plain, composing, ascii, dc) == (if composing {
            KeyAction::NextCandidate
        } else {
            KeyAction::CursorDown
        }),
{
}

/// Letters compose in Chinese mode (resetting the engine where the document has
/// no composition) and are inserted in English mode; Shift with a letter
/// commits any composition and inserts the uppercase letter.
pub proof fn law_letter_keys(c: char, composing: bool, ascii: bool, dc: bool)
    requires
        'a' <= c <= 'z' || 'A' <= c <= 'Z',
    ensures
        key_action(Key::Char(c), Mods::Plain, composing, ascii, dc) == (if ascii {
            KeyAction::InsertChar(c)
        } else {
            KeyAction::Compose(c, !dc)
        }),
        'a' <= c <= 'z' ==> key_action(Key::Char(c), Mods::Shift, composing, ascii, dc) == KeyAction::CommitThenInsert(
            ((c as u32) - 32) as char,
        ),
        'A' <= c <= 'Z' ==> key_action(Key::Char(c), Mods::Shift, composing, ascii, dc) == KeyAction::CommitThenInsert(c),
{
}

/// Digits pick the candidate at their position on the page (`1` the first,
/// `0` the tenth) while composing, and are inserted otherwise.
pub proof fn law_digit_keys(c: char, ascii: bool, dc: bool)
    requires
        '0' <= c <= '9',
    ensures
        key_action(Key::Char(c), Mods::Plain, false, ascii, dc) == KeyAction::InsertChar(c),
        c != '0' ==> key_action(Key::Char(c), Mods::Plain, true, ascii, dc) == KeyAction::PickCandidate(
            ((c as u32) - ('1' as u32)) as usize,
        ),
        key_action(Key::Char('0'), Mods::Plain, true, ascii, dc) == KeyAction::PickCandidate(9),
{
}

/// The eight ASCII punctuation marks commit any composition and are inserted,
/// in their full-width form in Chinese mode and as typed in English mode.
pub proof fn law_punctuation_keys(composing: bool, dc: bool)
    ensures
        key_action(Key::Char(','), Mods::Plain, composing, false, dc) == KeyAction::CommitThenInsert('\u{FF0C}'),
        key_action(Key::Char('.'), Mods::Plain, composing, false, dc) == KeyAction::CommitThenInsert('\u{3002}'),
        key_action(Key::Char('?'), Mods::Plain, composing, false, dc) == KeyAction::CommitThenInsert('\u{FF1F}'),
        key_action(Key::Char('!'), Mods::Plain, composing, false, dc) == KeyAction::CommitThenInsert('\u{FF01}'),
        key_action(Key::Char(':'), Mods::Plain, composing, false, dc) == KeyAction::CommitThenInsert('\u{FF1A}'),
        key_action(Key::Char(';'), Mods::Plain, composing, false, dc) == KeyAction::CommitThenInsert('\u{FF1B}'),
        key_action(Key::Char('\''), Mods::Plain, composing, false, dc) == KeyAction::CommitThenInsert('\u{FF07}'),
        key_action(Key::Char('"'), Mods::Plain, composing, false, dc) == KeyAction::CommitThenInsert('\u{FF02}'),
        forall|c: char|
            (c == ',' || c == '.' || c == '?' || c == '!' || c == ':' || c == ';' || c == '\'' || c == '"')
                ==> #[trigger] key_action(Key::Char(c), Mods::Plain, composing, true, dc) == KeyAction::CommitThenInsert(c),
{
}

/// Decides what a key press asks for.
pub fn plan_key(key: Key, mods: Mods, composing: bool, ascii: bool, doc_composing: bool) -> (r: KeyAction)
    ensures
        r == key_action(key, mods, composing, ascii, doc_composing),
{
    match (key, mods) {
        (Key::Char('q'), Mods::Control) => KeyAction::Quit,
        (Key::Char('n'), Mods::Control) => KeyAction::ClearDocument,
        (Key::Char('c'), Mods::Control) => KeyAction::CopyDocument,
        (Key::Char('v'), Mods::Control) => KeyAction::PasteClipboard,
        (Key::Char(' '), Mods::Plain) => {
            if composing {
                KeyAction::CommitComposition
            } else if ascii {
                KeyAction::InsertChar(' ')
            } else {
                KeyAction::InsertChar('\u{3000}')
            }
        },
        (Key::Char(' '), Mods::Control) => KeyAction::ToggleMode,
        (Key::Enter, Mods::Plain) => KeyAction::NewLine,
        (Key::Esc, _) => {
            if composing {
                KeyAction::CancelComposition
            } else {
                KeyAction::Nothing
            }
        },
        (Key::Backspace, Mods::Plain) => {
            if composing {
                KeyAction::ShrinkComposition
            } else {
                KeyAction::DeleteLeft
            }
        },
        (Key::Delete, Mods::Plain) => KeyAction::DeleteUnder,
        (Key::Tab, Mods::Plain) => KeyAction::NextCandidate,
        (Key::BackTab, _) => KeyAction::PrevCandidate,
        (Key::Left, Mods::Plain) => {
            if composing {
                KeyAction::PrevPage
            } else {
                KeyAction::CursorLeft
            }
        },
        (Key::Right, Mods::Plain) => {
            if composing {
                KeyAction::NextPage
            } else {
                KeyAction::CursorRight
            }
        },
        (Key::Home, Mods::Plain) => KeyAction::CursorHome,
        (Key::End, Mods::Plain) => KeyAction::CursorEnd,
        (Key::Up, Mods::Plain) => {
            if composing {
                KeyAction::PrevCandidate
            } else {
                KeyAction::CursorUp
            }
        },
        (Key::Down, Mods::Plain) => {
            if composing {
                KeyAction::NextCandidate
            } else {
                KeyAction::CursorDown
            }
        },
        (Key::Up, Mods::Control) => KeyAction::ScrollUp,
        (Key::Down, Mods::Control) => KeyAction::ScrollDown,
        (Key::Char(c), Mods::Plain) => {
            if is_ascii_digit(c) {
                if composing {
                    match popup_index_for_key(c) {
                        Some(i) => KeyAction::PickCandidate(i),
                        None => KeyAction::Nothing,
                    }
                } else {
                    KeyAction::InsertChar(c)
                }
            } else if is_ascii_punct(c) {
                KeyAction::CommitThenInsert(
                    if ascii {
                        c
                    } else {
                        full_width_punct(c)
                    },
                )
            } else if is_ascii_alphabetic(c) {
                if ascii {
                    KeyAction::InsertChar(c)
                } else {
                    KeyAction::Compose(c, !doc_composing)
                }
            } else if !is_control(c) && ((c as u32) < 0x80 || ascii) {
                KeyAction::CommitThenInsert(c)
            } else {
                KeyAction::Nothing
            }
        },
        (Key::Char(c), Mods::Shift) => {
            if is_ascii_alphabetic(c) {
                KeyAction::CommitThenInsert(to_ascii_uppercase(c))
            } else if !is_control(c) && ((c as u32) < 0x80 || ascii) {
                KeyAction::CommitThenInsert(c)
            } else {
                KeyAction::Nothing
            }
        },
        _ => KeyAction::Nothing,
    }
}

/// How to reconcile the document's composition with the engine's after the
/// engine has been fed a key.
#[derive(Clone, Copy, PartialEq, Eq, Debug)]
pub enum SyncStep {
    /// The engine dropped its composition: drop the document's.
    CancelDocument,
    /// The document has no composition but the engine still has one: reset the engine.
    ResetEngine,
    Nothing,
}

pub fn plan_sync(engine_composing: bool, doc_composing: bool) -> (r: SyncStep)
    ensures
        !engine_composing && doc_composing ==> r == SyncStep::CancelDocument,
        engine_composing && !doc_composing ==> r == SyncStep::ResetEngine,
        engine_composing == doc_composing ==> r == SyncStep::Nothing,
{
    if !engine_composing && doc_composing {
        SyncStep::CancelDocument
    } else if engine_composing && !doc_composing {
        SyncStep::ResetEngine
    } else {
        SyncStep::Nothing
    }
}

} // verus!
