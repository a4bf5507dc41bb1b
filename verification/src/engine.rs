//! The decisions of the input engine, as a state machine.
//!
//! The candidate engine itself is driven from outside: each operation here
//! updates the recorded state and says which engine call to make; after the
//! call, the engine's fresh context is handed back to `refresh`.

use vstd::prelude::*;

verus! {

/// One candidate offered for the current composition.
pub struct Candidate {
    pub text: String,
}

impl View for Candidate {
    type V = Seq<char>;

    open spec fn view(&self) -> Seq<char> {
        self.text@
    }
}

pub open spec fn candidates_view(v: Seq<Candidate>) -> Seq<Seq<char>> {
    v.map_values(|c: Candidate| c@)
}

/// A snapshot of the engine's composition context.
pub struct ContextSnapshot {
    pub composing: bool,
    pub candidates: Vec<Candidate>,
    pub page_no: usize,
    pub is_last_page: bool,
    pub highlighted: usize,
}

/// A call to make on the engine session.
#[derive(Clone, Copy, PartialEq, Eq, Debug)]
pub enum EngineCall {
    /// Feed a key, by its key code, with no modifiers.
    ProcessKey(i32),
    /// Feed the backspace key.
    Backspace,
    /// Drop the engine's composition.
    ClearComposition,
    /// Set the `ascii_mode` option.
    SetAsciiMode(bool),
    /// Highlight the candidate at this index of the current page.
    HighlightOnPage(usize),
    /// Turn the page: backward where `true`.
    ChangePage(bool),
    /// Select the candidate at this index of the current page.
    SelectOnPage(usize),
}

/// The state as a mathematical value.
#[verifier::ext_equal]
pub struct EngineView {
    pub candidates: Seq<Seq<char>>,
    pub page_no: usize,
    pub is_last_page: bool,
    pub highlighted: usize,
    pub composing: bool,
    pub pending_commit: Seq<char>,
    pub ascii_mode: bool,
}

/// What the input engine last reported, and text it committed that was not taken yet.
pub struct EngineState {
    candidates: Vec<Candidate>,
    page_no: usize,
    is_last_page: bool,
    highlighted: usize,
    composing: bool,
    pending_commit: String,
    ascii_mode: bool,
}

impl View for EngineState {
    type V = EngineView;

    closed spec fn view(&self) -> EngineView {
        EngineView {
            candidates: candidates_view(self.candidates@),
            page_no: self.page_no,
            is_last_page: self.is_last_page,
            highlighted: self.highlighted,
            composing: self.composing,
            pending_commit: self.pending_commit@,
            ascii_mode: self.ascii_mode,
        }
    }
}

/// The current page of candidates.
pub struct Page<'a> {
    pub candidates: &'a [Candidate],
    pub has_prev: bool,
    pub has_next: bool,
    pub highlighted: usize,
}

impl EngineView {
    /// No composition: no candidates, first and last page, nothing highlighted.
    pub open spec fn cleared(self) -> EngineView {
        EngineView {
            candidates: seq![],
            page_no: 0,
            is_last_page: true,
            highlighted: 0,
            composing: false,
            ..self
        }
    }

    /// Switched between Chinese and English mode, with no composition and no pending text.
    pub open spec fn toggled(self) -> EngineView {
        EngineView { ascii_mode: !self.ascii_mode, pending_commit: seq![], ..self.cleared() }
    }

    /// The state once the engine has reported an optional commit and an optional context.
    pub open spec fn refreshed(self, commit: Option<Seq<char>>, ctx: Option<ContextView>) -> EngineView {
        let pending = match commit {
            Some(t) => self.pending_commit + t,
            None => self.pending_commit,
        };
        match ctx {
            Some(c) => EngineView {
                candidates: c.candidates,
                page_no: c.page_no,
                is_last_page: c.is_last_page,
                highlighted: c.highlighted,
                composing: c.composing,
                pending_commit: pending,
                ..self
            },
            None => EngineView { pending_commit: pending, ..self.cleared() },
        }
    }

    pub open spec fn next_candidate_call(self) -> Option<EngineCall> {
        if self.candidates.len() == 0 {
            None
        } else if self.highlighted + 1 < self.candidates.len() {
            Some(EngineCall::HighlightOnPage((self.highlighted + 1) as usize))
        } else if !self.is_last_page {
            Some(EngineCall::ChangePage(false))
        } else {
            None
        }
    }

    pub open spec fn prev_candidate_call(self) -> Option<EngineCall> {
        if self.candidates.len() == 0 {
            None
        } else if self.highlighted > 0 {
            Some(EngineCall::HighlightOnPage((self.highlighted - 1) as usize))
        } else if self.page_no > 0 {
            Some(EngineCall::ChangePage(true))
        } else {
            None
        }
    }
}

/// A context snapshot as a mathematical value.
pub struct ContextView {
    pub composing: bool,
    pub candidates: Seq<Seq<char>>,
    pub page_no: usize,
    pub is_last_page: bool,
    pub highlighted: usize,
}

impl View for ContextSnapshot {
    type V = ContextView;

    open spec fn view(&self) -> ContextView {
        ContextView {
            composing: self.composing,
            candidates: candidates_view(self.candidates@),
            page_no: self.page_no,
            is_last_page: self.is_last_page,
            highlighted: self.highlighted,
        }
    }
}

pub open spec fn initial_engine_view() -> EngineView {
    EngineView {
        candidates: seq![],
        page_no: 0,
        is_last_page: true,
        highlighted: 0,
        composing: false,
        pending_commit: seq![],
        ascii_mode: false,
    }
}

/// Moving to the next candidate highlights the very next one while it is on the
/// current page; the page turns only once the page's last candidate is
/// highlighted, and never on the last page.
pub proof fn law_next_candidate_steps_by_one(v: EngineView)
    requires
        v.candidates.len() <= usize::MAX,
    ensures
        v.highlighted + 1 < v.candidates.len() ==> v.next_candidate_call() == Some(
            EngineCall::HighlightOnPage((v.highlighted + 1) as usize),
        ),
        v.next_candidate_call() == Some(EngineCall::ChangePage(false)) ==> v.candidates.len() > 0
            && v.highlighted + 1 >= v.candidates.len() && !v.is_last_page,
        v.next_candidate_call() is None <==> (v.candidates.len() == 0 || (v.highlighted + 1 >= v.candidates.len()
            && v.is_last_page)),
        forall|i: usize| v.next_candidate_call() == Some(EngineCall::HighlightOnPage(i)) ==> i == v.highlighted + 1,
{
}

/// Moving to the previous candidate highlights the very previous one while the
/// highlight is not at the page's start; the page turns back only from the
/// page's first candidate, and never on the first page.
pub proof fn law_prev_candidate_steps_by_one(v: EngineView)
    requires
        v.candidates.len() <= usize::MAX,
    ensures
        v.highlighted > 0 && v.candidates.len() > 0 ==> v.prev_candidate_call() == Some(
            EngineCall::HighlightOnPage((v.highlighted - 1) as usize),
        ),
        v.prev_candidate_call() == Some(EngineCall::ChangePage(true)) ==> v.candidates.len() > 0 && v.highlighted
            == 0 && v.page_no > 0,
        v.prev_candidate_call() is None <==> (v.candidates.len() == 0 || (v.highlighted == 0 && v.page_no == 0)),
        forall|i: usize| v.prev_candidate_call() == Some(EngineCall::HighlightOnPage(i)) ==> i + 1 == v.highlighted,
{
}

/// Toggling flips the mode and leaves no composition, no candidates and no
/// pending text; resetting does the same but keeps the mode.
pub proof fn law_toggle_and_reset_clear(v: EngineView)
    ensures
        v.toggled().ascii_mode == !v.ascii_mode,
        v.toggled().candidates.len() == 0 && !v.toggled().composing && v.toggled().pending_commit.len() == 0,
        v.toggled().page_no == 0 && v.toggled().highlighted == 0 && v.toggled().is_last_page,
        v.cleared().ascii_mode == v.ascii_mode && v.cleared().pending_commit == v.pending_commit,
        v.cleared().candidates.len() == 0 && !v.cleared().composing,
        v.cleared().page_no == 0 && v.cleared().highlighted == 0 && v.cleared().is_last_page,
{
}

/// Recording a report appends the committed text, if any, to the pending
/// text; takes the reported context as it is, or, with none, drops the
/// composition; and never changes the mode.
pub proof fn law_refresh_records_report(v: EngineView, commit: Option<Seq<char>>, ctx: Option<ContextView>)
    ensures
        v.refreshed(commit, ctx).ascii_mode == v.ascii_mode,
        v.refreshed(commit, ctx).pending_commit == (match commit {
            Some(t) => v.pending_commit + t,
            None => v.pending_commit,
        }),
        ctx matches Some(c) ==> {
            let r = v.refreshed(commit, ctx);
            &&& r.candidates == c.candidates
            &&& r.page_no == c.page_no
            &&& r.is_last_page == c.is_last_page
            &&& r.highlighted == c.highlighted
            &&& r.composing == c.composing
        },
        ctx is None ==> {
            let r = v.refreshed(commit, ctx);
            &&& r.candidates.len() == 0
            &&& !r.composing
            &&& r.page_no == 0
            &&& r.highlighted == 0
            &&& r.is_last_page
        },
{
}

/// Toggling the mode twice gives back the mode, with the composition dropped.
pub proof fn law_toggle_twice_restores_mode(v: EngineView)
    ensures
        v.toggled().toggled() == (EngineView { pending_commit: seq![], ..v.cleared() }),
{
    assert(v.toggled().toggled() =~= (EngineView { pending_commit: seq![], ..v.cleared() }));
}

impl EngineState {
    /// The state before the engine has reported anything: Chinese mode, no composition.
    pub fn new() -> (r: Self)
        ensures
            r@ == initial_engine_view(),
    {
        let r = EngineState {
            candidates: Vec::new(),
            page_no: 0,
            is_last_page: true,
            highlighted: 0,
            composing: false,
            pending_commit: String::new(),
            ascii_mode: false,
        };
        assert(r@.candidates =~= Seq::<Seq<char>>::empty());
        r
    }

    pub fn is_composing(&self) -> (r: bool)
        ensures
            r == self@.composing,
    {
        self.composing
    }

    pub fn ascii_mode(&self) -> (r: bool)
        ensures
            r == self@.ascii_mode,
    {
        self.ascii_mode
    }

    /// Switches between Chinese and English mode and drops any composition.
    /// Returns the engine calls to make, in order.
    pub fn toggle_ascii(&mut self) -> (calls: Vec<EngineCall>)
        ensures
            final(self)@ == old(self)@.toggled(),
            calls@ == seq![EngineCall::SetAsciiMode(!old(self)@.ascii_mode), EngineCall::ClearComposition],
    {
        self.ascii_mode = !self.ascii_mode;
        let mut calls: Vec<EngineCall> = Vec::new();
        calls.push(EngineCall::SetAsciiMode(self.ascii_mode));
        let reset = self.reset();
        calls.push(reset);
        assert(calls@ =~= seq![EngineCall::SetAsciiMode(!old(self)@.ascii_mode), EngineCall::ClearComposition]);
        calls
    }

    /// The call that feeds the character `c` as a key press.
    pub fn feed(&self, c: char) -> (call: EngineCall)
        ensures
            call == EngineCall::ProcessKey(c as i32),
    {
        EngineCall::ProcessKey(c as i32)
    }

    /// The call that shrinks the composition, where there is one.
    pub fn shrink(&self) -> (call: Option<EngineCall>)
        ensures
            call == (if self@.composing { Some(EngineCall::Backspace) } else { None }),
    {
        if !self.composing {
            return None;
        }
        Some(EngineCall::Backspace)
    }

    /// Drops the composition and any text committed but not taken.
    pub fn reset(&mut self) -> (call: EngineCall)
        ensures
            final(self)@ == (EngineView { pending_commit: seq![], ..old(self)@.cleared() }),
            call == EngineCall::ClearComposition,
    {
        self.clear_state();
        self.pending_commit = String::new();
        EngineCall::ClearComposition
    }

    fn clear_state(&mut self)
        ensures
            final(self)@ == old(self)@.cleared(),
    {
        self.candidates = Vec::new();
        self.page_no = 0;
        self.is_last_page = true;
        self.highlighted = 0;
        self.composing = false;
        assert(candidates_view(self.candidates@) =~= Seq::<Seq<char>>::empty());
        assert(self@ =~= old(self)@.cleared());
    }

    /// The candidates on the current page, where there are any.
    pub fn current_page(&self) -> (r: Option<Page<'_>>)
        ensures
            self@.candidates.len() == 0 <==> r is None,
            r matches Some(pg) ==> {
                &&& candidates_view(pg.candidates@) == self@.candidates
                &&& pg.has_prev == (self@.page_no > 0)
                &&& pg.has_next == !self@.is_last_page
                &&& pg.highlighted == self@.highlighted
            },
    {
        if self.candidates.len() == 0 {
            return None;
        }
        Some(
            Page {
                candidates: self.candidates.as_slice(),
                has_prev: self.page_no > 0,
                has_next: !self.is_last_page,
                highlighted: self.highlighted,
            },
        )
    }

    /// The call that moves the highlight to the next candidate, turning the page at its end.
    pub fn next_candidate(&self) -> (call: Option<EngineCall>)
        ensures
            call == self@.next_candidate_call(),
    {
        if self.candidates.len() == 0 {
            return None;
        }
        if self.highlighted < self.candidates.len() - 1 {
            Some(EngineCall::HighlightOnPage(self.highlighted + 1))
        } else if !self.is_last_page {
            Some(EngineCall::ChangePage(false))
        } else {
            None
        }
    }

    /// The call that moves the highlight to the previous candidate, turning the
    /// page back at its start (after which `highlight_last` gives the next call).
    pub fn prev_candidate(&self) -> (call: Option<EngineCall>)
        ensures
            call == self@.prev_candidate_call(),
    {
        if self.candidates.len() == 0 {
            return None;
        }
        if self.highlighted > 0 {
            Some(EngineCall::HighlightOnPage(self.highlighted - 1))
        } else if self.page_no > 0 {
            Some(EngineCall::ChangePage(true))
        } else {
            None
        }
    }

    /// The call that highlights the last candidate of the current page, where there is one.
    pub fn highlight_last(&self) -> (call: Option<EngineCall>)
        ensures
            call == (if self@.candidates.len() == 0 {
                None
            } else {
                Some(EngineCall::HighlightOnPage((self@.candidates.len() - 1) as usize))
            }),
    {
        if self.candidates.len() == 0 {
            None
        } else {
            Some(EngineCall::HighlightOnPage(self.candidates.len() - 1))
        }
    }

    /// The call to make after `first`, the call that `prev_candidate` gave, has
    /// been made and the engine's context recorded: after turning the page back,
    /// highlight the last candidate of the now-current page.
    pub fn prev_candidate_follow_up(&self, first: EngineCall) -> (call: Option<EngineCall>)
        ensures
            call == (if first == EngineCall::ChangePage(true) && self@.candidates.len() > 0 {
                Some(EngineCall::HighlightOnPage((self@.candidates.len() - 1) as usize))
            } else {
                None
            }),
    {
        match first {
            EngineCall::ChangePage(true) => self.highlight_last(),
            _ => None,
        }
    }

    pub fn next_page(&self) -> (call: Option<EngineCall>)
        ensures
            call == (if !self@.is_last_page { Some(EngineCall::ChangePage(false)) } else { None }),
    {
        if !self.is_last_page {
            Some(EngineCall::ChangePage(false))
        } else {
            None
        }
    }

    pub fn prev_page(&self) -> (call: Option<EngineCall>)
        ensures
            call == (if self@.page_no > 0 { Some(EngineCall::ChangePage(true)) } else { None }),
    {
        if self.page_no > 0 {
            Some(EngineCall::ChangePage(true))
        } else {
            None
        }
    }

    /// The call that selects the highlighted candidate, where there are candidates.
    pub fn commit_highlighted(&self) -> (call: Option<EngineCall>)
        ensures
            call == (if self@.candidates.len() == 0 {
                None
            } else {
                Some(EngineCall::SelectOnPage(self@.highlighted))
            }),
    {
        if self.candidates.len() == 0 {
            return None;
        }
        Some(EngineCall::SelectOnPage(self.highlighted))
    }

    /// The call that selects candidate `idx` of the page, where it exists.
    pub fn commit_index_on_page(&self, idx: usize) -> (call: Option<EngineCall>)
        ensures
            call == (if idx >= self@.candidates.len() { None } else { Some(EngineCall::SelectOnPage(idx)) }),
    {
        if idx >= self.candidates.len() {
            return None;
        }
        Some(EngineCall::SelectOnPage(idx))
    }

    /// Takes the text committed since the last take, if there is any.
    pub fn take_commit(&mut self) -> (r: Option<String>)
        ensures
            old(self)@.pending_commit.len() == 0 ==> r is None && final(self)@ == old(self)@,
            old(self)@.pending_commit.len() > 0 ==> (r matches Some(t) && t@ == old(self)@.pending_commit
                && final(self)@ == (EngineView { pending_commit: seq![], ..old(self)@ })),
    {
        if self.pending_commit.as_str().is_empty() {
            None
        } else {
            let out = self.pending_commit.as_str().to_owned();
            self.pending_commit = String::new();
            assert(self@ =~= (EngineView { pending_commit: seq![], ..old(self)@ }));
            Some(out)
        }
    }

    /// Records what the engine reported after a call: the text it committed, if
    /// any, and its composition context, if it has one.
    pub fn refresh(&mut self, commit: Option<String>, ctx: Option<ContextSnapshot>)
        ensures
            final(self)@ == old(self)@.refreshed(
                match commit {
                    Some(t) => Some(t@),
                    None => None,
                },
                match ctx {
                    Some(c) => Some(c@),
                    None => None,
                },
            ),
    {
        if let Some(text) = commit {
            self.pending_commit.append(text.as_str());
        }
        match ctx {
            Some(c) => {
                self.composing = c.composing;
                self.candidates = c.candidates;
                self.page_no = c.page_no;
                self.is_last_page = c.is_last_page;
                self.highlighted = c.highlighted;
            },
            None => self.clear_state(),
        }
        assert(self@ =~= old(self)@.refreshed(
            match commit {
                Some(t) => Some(t@),
                None => None,
            },
            match ctx {
                Some(c) => Some(c@),
                None => None,
            },
        ));
    }
}

} // verus!
