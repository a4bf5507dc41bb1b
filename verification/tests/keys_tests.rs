use zipin::keys::{plan_key, plan_sync, Key, KeyAction, Mods, SyncStep};

#[test]
fn control_keys() {
    assert_eq!(plan_key(Key::Char('q'), Mods::Control, false, false, false), KeyAction::Quit);
    assert_eq!(plan_key(Key::Char('n'), Mods::Control, true, false, true), KeyAction::ClearDocument);
    assert_eq!(plan_key(Key::Char('c'), Mods::Control, false, false, false), KeyAction::CopyDocument);
    assert_eq!(plan_key(Key::Char('v'), Mods::Control, false, false, false), KeyAction::PasteClipboard);
    assert_eq!(plan_key(Key::Char(' '), Mods::Control, false, false, false), KeyAction::ToggleMode);
    assert_eq!(plan_key(Key::Up, Mods::Control, true, false, true), KeyAction::ScrollUp);
    assert_eq!(plan_key(Key::Down, Mods::Control, false, false, false), KeyAction::ScrollDown);
    assert_eq!(plan_key(Key::Char('x'), Mods::Control, false, false, false), KeyAction::Nothing);
}

#[test]
fn space_depends_on_mode_and_composition() {
    assert_eq!(plan_key(Key::Char(' '), Mods::Plain, true, false, true), KeyAction::CommitComposition);
    assert_eq!(plan_key(Key::Char(' '), Mods::Plain, false, true, false), KeyAction::InsertChar(' '));
    assert_eq!(plan_key(Key::Char(' '), Mods::Plain, false, false, false), KeyAction::InsertChar('\u{3000}'));
}

#[test]
fn navigation_while_composing_pages_candidates() {
    assert_eq!(plan_key(Key::Left, Mods::Plain, true, false, true), KeyAction::PrevPage);
    assert_eq!(plan_key(Key::Right, Mods::Plain, true, false, true), KeyAction::NextPage);
    assert_eq!(plan_key(Key::Up, Mods::Plain, true, false, true), KeyAction::PrevCandidate);
    assert_eq!(plan_key(Key::Down, Mods::Plain, true, false, true), KeyAction::NextCandidate);
    assert_eq!(plan_key(Key::Left, Mods::Plain, false, false, false), KeyAction::CursorLeft);
    assert_eq!(plan_key(Key::Right, Mods::Plain, false, false, false), KeyAction::CursorRight);
    assert_eq!(plan_key(Key::Up, Mods::Plain, false, false, false), KeyAction::CursorUp);
    assert_eq!(plan_key(Key::Down, Mods::Plain, false, false, false), KeyAction::CursorDown);
    assert_eq!(plan_key(Key::Home, Mods::Plain, true, false, true), KeyAction::CursorHome);
    assert_eq!(plan_key(Key::End, Mods::Plain, false, false, false), KeyAction::CursorEnd);
    assert_eq!(plan_key(Key::Tab, Mods::Plain, false, false, false), KeyAction::NextCandidate);
    assert_eq!(plan_key(Key::BackTab, Mods::Shift, false, false, false), KeyAction::PrevCandidate);
    assert_eq!(plan_key(Key::BackTab, Mods::Plain, false, false, false), KeyAction::PrevCandidate);
}

#[test]
fn editing_keys() {
    assert_eq!(plan_key(Key::Enter, Mods::Plain, false, false, false), KeyAction::NewLine);
    assert_eq!(plan_key(Key::Enter, Mods::Shift, false, false, false), KeyAction::Nothing);
    assert_eq!(plan_key(Key::Esc, Mods::Shift, true, false, true), KeyAction::CancelComposition);
    assert_eq!(plan_key(Key::Esc, Mods::Plain, false, false, false), KeyAction::Nothing);
    assert_eq!(plan_key(Key::Backspace, Mods::Plain, true, false, true), KeyAction::ShrinkComposition);
    assert_eq!(plan_key(Key::Backspace, Mods::Plain, false, false, false), KeyAction::DeleteLeft);
    assert_eq!(plan_key(Key::Delete, Mods::Plain, true, false, true), KeyAction::DeleteUnder);
    assert_eq!(plan_key(Key::Other, Mods::Plain, false, false, false), KeyAction::Nothing);
}

#[test]
fn digits_pick_candidates_while_composing() {
    assert_eq!(plan_key(Key::Char('1'), Mods::Plain, true, false, true), KeyAction::PickCandidate(0));
    assert_eq!(plan_key(Key::Char('0'), Mods::Plain, true, false, true), KeyAction::PickCandidate(9));
    assert_eq!(plan_key(Key::Char('5'), Mods::Plain, false, false, false), KeyAction::InsertChar('5'));
}

#[test]
fn letters_compose_in_chinese_mode() {
    assert_eq!(plan_key(Key::Char('a'), Mods::Plain, false, false, false), KeyAction::Compose('a', true));
    assert_eq!(plan_key(Key::Char('b'), Mods::Plain, true, false, true), KeyAction::Compose('b', false));
    assert_eq!(plan_key(Key::Char('a'), Mods::Plain, false, true, false), KeyAction::InsertChar('a'));
    assert_eq!(plan_key(Key::Char('a'), Mods::Shift, true, false, true), KeyAction::CommitThenInsert('A'));
    assert_eq!(plan_key(Key::Char('Q'), Mods::Shift, false, false, false), KeyAction::CommitThenInsert('Q'));
}

#[test]
fn punctuation_and_other_characters() {
    assert_eq!(plan_key(Key::Char(','), Mods::Plain, true, false, true), KeyAction::CommitThenInsert('，'));
    assert_eq!(plan_key(Key::Char(','), Mods::Plain, false, true, false), KeyAction::CommitThenInsert(','));
    assert_eq!(plan_key(Key::Char('-'), Mods::Plain, false, false, false), KeyAction::CommitThenInsert('-'));
    assert_eq!(plan_key(Key::Char('('), Mods::Shift, false, false, false), KeyAction::CommitThenInsert('('));
    assert_eq!(plan_key(Key::Char('é'), Mods::Plain, false, false, false), KeyAction::Nothing);
    assert_eq!(plan_key(Key::Char('é'), Mods::Plain, false, true, false), KeyAction::CommitThenInsert('é'));
    assert_eq!(plan_key(Key::Char('\u{7}'), Mods::Plain, false, true, false), KeyAction::Nothing);
}

#[test]
fn sync_reconciles_compositions() {
    assert_eq!(plan_sync(false, true), SyncStep::CancelDocument);
    assert_eq!(plan_sync(true, false), SyncStep::ResetEngine);
    assert_eq!(plan_sync(true, true), SyncStep::Nothing);
    assert_eq!(plan_sync(false, false), SyncStep::Nothing);
}
