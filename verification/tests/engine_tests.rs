use zipin::engine::{Candidate, ContextSnapshot, EngineCall, EngineState};

fn cands(texts: &[&str]) -> Vec<Candidate> {
    texts.iter().map(|t| Candidate { text: t.to_string() }).collect()
}

fn ctx(texts: &[&str], page_no: usize, is_last_page: bool, highlighted: usize) -> ContextSnapshot {
    ContextSnapshot { composing: true, candidates: cands(texts), page_no, is_last_page, highlighted }
}

#[test]
fn initial_state() {
    let st = EngineState::new();
    assert!(!st.is_composing());
    assert!(!st.ascii_mode());
    assert!(st.current_page().is_none());
    assert_eq!(st.next_candidate(), None);
    assert_eq!(st.prev_candidate(), None);
    assert_eq!(st.commit_highlighted(), None);
    assert_eq!(st.next_page(), None);
    assert_eq!(st.prev_page(), None);
    assert_eq!(st.shrink(), None);
    assert_eq!(st.feed('a'), EngineCall::ProcessKey(97));
}

#[test]
fn refresh_records_context_and_commit() {
    let mut st = EngineState::new();
    st.refresh(None, Some(ctx(&["你", "呢"], 1, false, 1)));
    assert!(st.is_composing());
    let page = st.current_page().unwrap();
    assert_eq!(page.candidates.len(), 2);
    assert_eq!(page.candidates[1].text, "呢");
    assert!(page.has_prev);
    assert!(page.has_next);
    assert_eq!(page.highlighted, 1);
    assert_eq!(st.shrink(), Some(EngineCall::Backspace));
    st.refresh(Some("你".to_string()), None);
    assert!(!st.is_composing());
    assert!(st.current_page().is_none());
    st.refresh(Some("好".to_string()), None);
    assert_eq!(st.take_commit(), Some("你好".to_string()));
    assert_eq!(st.take_commit(), None);
}

#[test]
fn candidate_navigation_calls() {
    let mut st = EngineState::new();
    st.refresh(None, Some(ctx(&["a", "b", "c"], 0, false, 0)));
    assert_eq!(st.next_candidate(), Some(EngineCall::HighlightOnPage(1)));
    assert_eq!(st.prev_candidate(), None);
    assert_eq!(st.next_page(), Some(EngineCall::ChangePage(false)));
    assert_eq!(st.prev_page(), None);
    st.refresh(None, Some(ctx(&["a", "b", "c"], 2, false, 2)));
    assert_eq!(st.next_candidate(), Some(EngineCall::ChangePage(false)));
    st.refresh(None, Some(ctx(&["a", "b", "c"], 2, true, 2)));
    assert_eq!(st.next_candidate(), None);
    st.refresh(None, Some(ctx(&["a", "b", "c"], 2, true, 0)));
    assert_eq!(st.prev_candidate(), Some(EngineCall::ChangePage(true)));
    assert_eq!(st.highlight_last(), Some(EngineCall::HighlightOnPage(2)));
    assert_eq!(st.prev_page(), Some(EngineCall::ChangePage(true)));
    st.refresh(None, Some(ctx(&["a", "b", "c"], 2, true, 1)));
    assert_eq!(st.prev_candidate(), Some(EngineCall::HighlightOnPage(0)));
}

#[test]
fn commit_calls() {
    let mut st = EngineState::new();
    st.refresh(None, Some(ctx(&["a", "b"], 0, true, 1)));
    assert_eq!(st.commit_highlighted(), Some(EngineCall::SelectOnPage(1)));
    assert_eq!(st.commit_index_on_page(0), Some(EngineCall::SelectOnPage(0)));
    assert_eq!(st.commit_index_on_page(2), None);
}

#[test]
fn toggle_switches_mode_and_drops_composition() {
    let mut st = EngineState::new();
    st.refresh(Some("x".to_string()), Some(ctx(&["a"], 0, true, 0)));
    let calls = st.toggle_ascii();
    assert_eq!(calls, vec![EngineCall::SetAsciiMode(true), EngineCall::ClearComposition]);
    assert!(st.ascii_mode());
    assert!(!st.is_composing());
    assert!(st.current_page().is_none());
    assert_eq!(st.take_commit(), None);
    let calls2 = st.toggle_ascii();
    assert_eq!(calls2, vec![EngineCall::SetAsciiMode(false), EngineCall::ClearComposition]);
    assert!(!st.ascii_mode());
}

#[test]
fn reset_clears_state() {
    let mut st = EngineState::new();
    st.refresh(Some("x".to_string()), Some(ctx(&["a"], 3, false, 0)));
    assert_eq!(st.reset(), EngineCall::ClearComposition);
    assert!(!st.is_composing());
    assert!(st.current_page().is_none());
    assert_eq!(st.take_commit(), None);
    assert_eq!(st.prev_page(), None);
}

#[test]
fn backward_page_turn_is_followed_by_highlighting_the_last_candidate() {
    let mut st = EngineState::new();
    st.refresh(None, Some(ctx(&["a", "b"], 1, false, 0)));
    let first = st.prev_candidate().unwrap();
    assert_eq!(first, EngineCall::ChangePage(true));
    st.refresh(None, Some(ctx(&["c", "d", "e"], 0, false, 0)));
    assert_eq!(st.prev_candidate_follow_up(first), Some(EngineCall::HighlightOnPage(2)));
    assert_eq!(st.prev_candidate_follow_up(EngineCall::HighlightOnPage(0)), None);
    st.refresh(None, None);
    assert_eq!(st.prev_candidate_follow_up(first), None);
}
