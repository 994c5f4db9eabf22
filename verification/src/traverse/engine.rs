//! The decisions of the interactive traversal: what each action does to
//! the state and what is to happen next. Reading input and printing are
//! left to the caller.

use vstd::prelude::*;
use crate::text::decimal;
use crate::resolve::types::TypeGraph;
use crate::analysis::callgraph::CallGraph;
use crate::traverse::actions::Action;
use crate::traverse::nav::{down_entries, up_entries};
use crate::traverse::state::{
    Judgment, TraversalState, TraversalView, HistoryView, entry_numbered, moved, dispatch_target, dispatch_action,
    upsert, judgment_name, traversal_start,
};

verus! {

/// What is to happen after an action.
#[derive(Debug, Clone, Copy, PartialEq, Eq, Structural)]
pub enum Step {
    /// Show the new state and ask again
    Continue,
    /// Ask for the evidence of this judgment, then complete it
    AskEvidence(Judgment),
    /// Show the history, then go on
    ShowHistory,
    /// The traversal is over: show the history
    Finished,
    /// The input was not understood
    Unknown,
}

/// The state after the current method is set aside.
pub open spec fn discarded(s: TraversalView) -> TraversalView {
    TraversalView {
        history: s.history.push(HistoryView { node: s.current, action: "d"@, insight: Seq::empty() }),
        ..s
    }
}

/// The state after the current class is judged.
pub open spec fn judged(s: TraversalView, j: Judgment, evidence: Seq<char>) -> TraversalView {
    TraversalView {
        judgments: upsert(s.judgments, s.current.class, j),
        evidence: upsert(s.evidence, s.current.class, evidence),
        history: s.history.push(HistoryView { node: s.current, action: "c "@ + judgment_name(j), insight: Seq::empty() }),
        ..s
    }
}

/// The state moved on to the next queued method (the queue must not be
/// empty).
pub open spec fn advanced(tg: TypeGraph, cg: CallGraph, s: TraversalView) -> TraversalView {
    TraversalView {
        current: s.queue[0],
        queue: s.queue.drop_first(),
        down: down_entries(tg, cg.calls@, s.queue[0]),
        up: up_entries(cg.calls@, s.queue[0]),
        ..s
    }
}

/// After a method is done: the next queued one, or the end.
pub open spec fn moved_on(tg: TypeGraph, cg: CallGraph, s: TraversalView) -> (TraversalView, Step) {
    if s.queue.len() > 0 {
        (advanced(tg, cg, s), Step::Continue)
    } else {
        (s, Step::Finished)
    }
}

/// The state after following entry `idx` of `es` (into implementation `sub`
/// when there is one), recorded with `arrow`.
pub open spec fn followed(
    tg: TypeGraph,
    cg: CallGraph,
    s: TraversalView,
    es: Seq<crate::traverse::nav::NavView>,
    arrow: Seq<char>,
    idx: usize,
    sub: Option<usize>,
) -> TraversalView {
    match entry_numbered(es, idx) {
        None => s,
        Some(e) => match sub {
            None => moved(tg, cg, s, e.target, arrow + decimal(idx as nat)),
            Some(k) => match dispatch_target(e, k) {
                Some(t) => moved(tg, cg, s, t, dispatch_action(arrow, idx, k)),
                None => s,
            },
        },
    }
}

/// What an action does: the state after it and what is to happen next.
pub open spec fn action_step(tg: TypeGraph, cg: CallGraph, s: TraversalView, a: Action) -> (TraversalView, Step) {
    match a {
        Action::Down(i) => (followed(tg, cg, s, s.down, "\u{2193}"@, i, None), Step::Continue),
        Action::DownDispatch(i, k) => (followed(tg, cg, s, s.down, "\u{2193}"@, i, Some(k)), Step::Continue),
        Action::Up(i) => (followed(tg, cg, s, s.up, "\u{2191}"@, i, None), Step::Continue),
        Action::UpDispatch(i, k) => (followed(tg, cg, s, s.up, "\u{2191}"@, i, Some(k)), Step::Continue),
        Action::Complete(j) => (s, Step::AskEvidence(j)),
        Action::Discard => moved_on(tg, cg, discarded(s)),
        Action::History => (s, Step::ShowHistory),
        Action::Quit => (s, Step::Finished),
        Action::Unknown => (s, Step::Unknown),
    }
}

/// The letter of a dispatch action names one of the first 159
/// implementations (those a byte can letter).
pub open spec fn action_fits(a: Action) -> bool {
    match a {
        Action::DownDispatch(_, k) => k < 159,
        Action::UpDispatch(_, k) => k < 159,
        _ => true,
    }
}

/// Applies an action to the traversal (see `action_step`).
pub fn apply_action(state: &mut TraversalState, action: Action, tg: &TypeGraph, cg: &CallGraph) -> (r: Step)
    requires
        tg.wf(),
        action_fits(action),
    ensures
        (final(state)@, r) == action_step(*tg, *cg, old(state)@, action),
{
    match action {
        Action::Down(i) => {
            state.navigate_down(i, tg, cg);
            Step::Continue
        },
        Action::DownDispatch(i, k) => {
            state.navigate_down_dispatch(i, k, tg, cg);
            Step::Continue
        },
        Action::Up(i) => {
            state.navigate_up(i, tg, cg);
            Step::Continue
        },
        Action::UpDispatch(i, k) => {
            state.navigate_up_dispatch(i, k, tg, cg);
            Step::Continue
        },
        Action::Complete(j) => Step::AskEvidence(j),
        Action::Discard => {
            state.discard();
            if state.next_in_queue(tg, cg) {
                Step::Continue
            } else {
                Step::Finished
            }
        },
        Action::History => Step::ShowHistory,
        Action::Quit => Step::Finished,
        Action::Unknown => Step::Unknown,
    }
}

/// Records a judgment with its evidence, then moves on to the next queued
/// method (`Continue`) or ends (`Finished`).
pub fn complete_with_evidence(
    state: &mut TraversalState,
    judgment: Judgment,
    evidence: String,
    tg: &TypeGraph,
    cg: &CallGraph,
) -> (r: Step)
    requires
        tg.wf(),
    ensures
        (final(state)@, r) == moved_on(*tg, *cg, judged(old(state)@, judgment, evidence@)),
{
    state.complete(judgment, evidence);
    if state.next_in_queue(tg, cg) {
        Step::Continue
    } else {
        Step::Finished
    }
}

/// The message when a traversal cannot start.
pub open spec fn cannot_start(class: Seq<char>) -> Seq<char> {
    "Class '"@ + class + "' not found or has no methods"@
}

/// Starts the traversal of the class named like `class` in a loaded
/// project: the first state, or the message that it cannot start.
pub fn handle_traverse(tg: &TypeGraph, cg: &CallGraph, class: &str, context: Option<&str>) -> (r: Result<
    TraversalState,
    String,
>)
    requires
        tg.wf(),
    ensures
        match traversal_start(
            *tg,
            *cg,
            class@,
            match context {
                Some(c) => Some(c@),
                None => None,
            },
        ) {
            Ok(s) => r matches Ok(t) && t@ == s,
            Err(_) => r matches Err(m) && m@ == cannot_start(class@),
        },
{
    let ctx = match context {
        Some(c) => Some(String::from_str(c)),
        None => None,
    };
    match TraversalState::init(tg, cg, class, ctx) {
        Ok(s) => Ok(s),
        Err(_) => {
            let mut m = String::from_str("Class '");
            m.append(class);
            m.append("' not found or has no methods");
            Err(m)
        },
    }
}

} // verus!
