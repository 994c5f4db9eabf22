//! The state of a traversal: the method in view, the methods still to
//! visit, where one can move from here, and what was judged on the way.

use vstd::prelude::*;
use crate::text::{str_eq, string_views, starts_with, is_prefix, decimal, decimal_string, joined, join, to_lower, lowercase, push_char};
use crate::resolve::types::{TypeGraph, ClassInfo, MethodDescriptor};
use crate::analysis::callgraph::CallGraph;
use crate::detect::common::method_names;
use crate::cli::callgraph_report::{matching_classes, matching_classes_exec};
use crate::traverse::nav::{NodeRef, NodeView, NavEntry, NavView, EdgeKind, EdgeView, nav_views, down_entries, up_entries, resolve_down, resolve_up};

verus! {

/// The verdict on a class reached in a traversal.
#[derive(Debug, Clone, Copy, PartialEq, Eq, Structural)]
pub enum Judgment {
    Primary,
    Symptom,
    Unrelated,
}

/// One step of a traversal: where it was taken and what it was.
#[derive(Debug)]
pub struct HistoryEntry {
    pub node: NodeRef,
    pub action: String,
    pub insight: String,
}

/// A history step, as characters.
pub struct HistoryView {
    pub node: NodeView,
    pub action: Seq<char>,
    pub insight: Seq<char>,
}

impl View for HistoryEntry {
    type V = HistoryView;

    open spec fn view(&self) -> HistoryView {
        HistoryView { node: self.node@, action: self.action@, insight: self.insight@ }
    }
}

/// A traversal in progress.
#[derive(Debug)]
pub struct TraversalState {
    pub current: NodeRef,
    pub queue: Vec<NodeRef>,
    pub history: Vec<HistoryEntry>,
    /// The judgment of each class, one entry per class
    pub judgments: Vec<(String, Judgment)>,
    /// The evidence given with each class's judgment, one entry per class
    pub evidence: Vec<(String, String)>,
    pub incident_context: Option<String>,
    pub down: Vec<NavEntry>,
    pub up: Vec<NavEntry>,
}

/// A traversal, as characters.
pub struct TraversalView {
    pub current: NodeView,
    pub queue: Seq<NodeView>,
    pub history: Seq<HistoryView>,
    pub judgments: Seq<(Seq<char>, Judgment)>,
    pub evidence: Seq<(Seq<char>, Seq<char>)>,
    pub context: Option<Seq<char>>,
    pub down: Seq<NavView>,
    pub up: Seq<NavView>,
}

/// The views of a list of methods.
pub open spec fn node_views(s: Seq<NodeRef>) -> Seq<NodeView> {
    s.map_values(|n: NodeRef| n@)
}

/// The views of a history.
pub open spec fn history_views(s: Seq<HistoryEntry>) -> Seq<HistoryView> {
    s.map_values(|h: HistoryEntry| h@)
}

/// The views of the judgments.
pub open spec fn judgment_views(s: Seq<(String, Judgment)>) -> Seq<(Seq<char>, Judgment)> {
    s.map_values(|e: (String, Judgment)| (e.0@, e.1))
}

/// The views of the evidence.
pub open spec fn evidence_views(s: Seq<(String, String)>) -> Seq<(Seq<char>, Seq<char>)> {
    s.map_values(|e: (String, String)| (e.0@, e.1@))
}

impl View for TraversalState {
    type V = TraversalView;

    open spec fn view(&self) -> TraversalView {
        TraversalView {
            current: self.current@,
            queue: node_views(self.queue@),
            history: history_views(self.history@),
            judgments: judgment_views(self.judgments@),
            evidence: evidence_views(self.evidence@),
            context: match self.incident_context {
                Some(c) => Some(c@),
                None => None,
            },
            down: nav_views(self.down@),
            up: nav_views(self.up@),
        }
    }
}

/// The position of the first entry of `s` keyed `k`.
pub open spec fn key_position<V>(s: Seq<(Seq<char>, V)>, k: Seq<char>) -> Option<int>
    decreases s.len(),
{
    if s.len() == 0 {
        None
    } else {
        match key_position(s.drop_last(), k) {
            Some(p) => Some(p),
            None => if s.last().0 == k {
                Some(s.len() - 1)
            } else {
                None
            },
        }
    }
}

/// `s` with the value under `k` set to `v`: the entry replaced in place
/// when there is one, else added at the end.
pub open spec fn upsert<V>(s: Seq<(Seq<char>, V)>, k: Seq<char>, v: V) -> Seq<(Seq<char>, V)> {
    match key_position(s, k) {
        Some(p) => s.update(p, (k, v)),
        None => s.push((k, v)),
    }
}

/// Each ASCII letter folded to lower case (as a code point).
pub open spec fn ascii_fold(c: char) -> u32 {
    if 'A' <= c && c <= 'Z' {
        ((c as u32) + 32) as u32
    } else {
        c as u32
    }
}

/// `a` and `b` are equal up to the case of ASCII letters.
pub open spec fn eq_ignore_ascii_case(a: Seq<char>, b: Seq<char>) -> bool {
    a.len() == b.len() && forall|i: int| 0 <= i < a.len() ==> ascii_fold(#[trigger] a[i]) == ascii_fold(b[i])
}

/// The first class of `cs` whose name equals `q` up to ASCII case.
pub open spec fn first_case_match(cs: Seq<ClassInfo>, q: Seq<char>) -> Option<Seq<char>>
    decreases cs.len(),
{
    if cs.len() == 0 {
        None
    } else if eq_ignore_ascii_case(cs[0].name@, q) {
        Some(cs[0].name@)
    } else {
        first_case_match(cs.drop_first(), q)
    }
}

/// The class a traversal of `q` starts in: one named `q` up to ASCII case,
/// else the only one whose name contains `q` ignoring case; otherwise why
/// there is none.
pub open spec fn traversal_class(tg: TypeGraph, q: Seq<char>) -> Result<Seq<char>, Seq<char>> {
    match first_case_match(tg.classes@, q) {
        Some(n) => Ok(n),
        None => {
            let ms = matching_classes(tg, q);
            if ms.len() == 1 {
                Ok(ms[0])
            } else if ms.len() == 0 {
                Err("Class '"@ + q + "' not found"@)
            } else {
                Err("'"@ + q + "' matches multiple classes:\n  "@ + joined(ms, "\n  "@) + "\nUse an exact class name."@)
            }
        },
    }
}

/// A method worth visiting in class `class`: not a constructor, not an
/// accessor of a property or an event.
pub open spec fn traversable(n: Seq<char>, class: Seq<char>) -> bool {
    n != ".ctor"@ && n != class && !is_prefix("get_"@, n) && !is_prefix("set_"@, n) && !is_prefix("add_"@, n)
        && !is_prefix("remove_"@, n)
}

/// The methods of class `class` worth visiting, in order.
pub open spec fn traversable_methods(ms: Seq<MethodDescriptor>, class: Seq<char>) -> Seq<Seq<char>> {
    method_names(ms.filter(|m: MethodDescriptor| traversable(m.method@, class)))
}

/// A traversal of class `class` at its method `first`, with the methods
/// `rest` queued.
pub open spec fn started(
    tg: TypeGraph,
    cg: CallGraph,
    class: Seq<char>,
    first: Seq<char>,
    rest: Seq<Seq<char>>,
    context: Option<Seq<char>>,
) -> TraversalView {
    let current = NodeView { class, method: first };
    TraversalView {
        current,
        queue: rest.map_values(|m: Seq<char>| NodeView { class, method: m }),
        history: Seq::empty(),
        judgments: Seq::empty(),
        evidence: Seq::empty(),
        context,
        down: down_entries(tg, cg.calls@, current),
        up: up_entries(cg.calls@, current),
    }
}

/// The traversal of `q`, or why it cannot start: the class is not found
/// or ambiguous, or has no method worth visiting.
pub open spec fn traversal_start(tg: TypeGraph, cg: CallGraph, q: Seq<char>, context: Option<Seq<char>>) -> Result<
    TraversalView,
    Seq<char>,
> {
    match traversal_class(tg, q) {
        Err(e) => Err(e),
        Ok(name) => match tg.lookup_class(name) {
            None => Err("Class '"@ + name + "' not found"@),
            Some(c) => {
                let ms = traversable_methods(c.methods@, name);
                if ms.len() == 0 {
                    Err("Class '"@ + name + "' has no methods to traverse"@)
                } else {
                    Ok(started(tg, cg, name, ms[0], ms.drop_first(), context))
                }
            },
        },
    }
}

/// The state after moving to `target` by `action`: the step recorded, the
/// navigation recomputed.
pub open spec fn moved(tg: TypeGraph, cg: CallGraph, s: TraversalView, target: NodeView, action: Seq<char>) -> TraversalView {
    TraversalView {
        current: target,
        history: s.history.push(HistoryView { node: s.current, action, insight: Seq::empty() }),
        down: down_entries(tg, cg.calls@, target),
        up: up_entries(cg.calls@, target),
        ..s
    }
}

/// The first entry of `es` numbered `idx`.
pub open spec fn entry_numbered(es: Seq<NavView>, idx: usize) -> Option<NavView>
    decreases es.len(),
{
    if es.len() == 0 {
        None
    } else if es[0].idx == idx {
        Some(es[0])
    } else {
        entry_numbered(es.drop_first(), idx)
    }
}

/// The implementation numbered `sub` (from 0) of a dispatch entry: the
/// callee in that class.
pub open spec fn dispatch_target(e: NavView, sub: usize) -> Option<NodeView> {
    match e.kind {
        EdgeView::Interface { implementations, .. } => if sub < implementations.len() {
            Some(NodeView { class: implementations[sub as int].0, method: e.callee })
        } else {
            None
        },
        EdgeView::Virtual { overrides, .. } => if sub < overrides.len() {
            Some(NodeView { class: overrides[sub as int].0, method: e.callee })
        } else {
            None
        },
        _ => None,
    }
}

/// How a move to implementation `sub` of entry `idx` is recorded: the
/// arrow, the number, and the letter (`a` for the first).
pub open spec fn dispatch_action(arrow: Seq<char>, idx: usize, sub: usize) -> Seq<char> {
    arrow + decimal(idx as nat) + seq![(97 + sub) as char]
}

/// The name of a judgment as the history records it.
pub open spec fn judgment_name(j: Judgment) -> Seq<char> {
    match j {
        Judgment::Primary => "Primary"@,
        Judgment::Symptom => "Symptom"@,
        Judgment::Unrelated => "Unrelated"@,
    }
}

pub(crate) proof fn lemma_key_position<V>(s: Seq<(Seq<char>, V)>, k: Seq<char>, p: int)
    requires
        0 <= p <= s.len(),
        forall|j: int| 0 <= j < p ==> (#[trigger] s[j]).0 != k,
        p < s.len() ==> s[p].0 == k,
    ensures
        key_position(s, k) == if p < s.len() {
            Some(p)
        } else {
            None::<int>
        },
    decreases s.len(),
{
    if s.len() > 0 {
        if p < s.len() - 1 {
            lemma_key_position(s.drop_last(), k, p);
        } else {
            assert forall|j: int| 0 <= j < s.drop_last().len() implies (#[trigger] s.drop_last()[j]).0 != k by {
                assert(s.drop_last()[j] == s[j]);
            }
            lemma_key_position(s.drop_last(), k, s.len() - 1);
        }
    }
}

/// Sets the judgment of class `k` (replacing an earlier one).
fn upsert_judgment(s: &mut Vec<(String, Judgment)>, k: &str, v: Judgment)
    ensures
        judgment_views(final(s)@) == upsert(judgment_views(old(s)@), k@, v),
{
    let ghost sv = judgment_views(s@);
    let mut p: usize = 0;
    while p < s.len() && !str_eq(s[p].0.as_str(), k)
        invariant
            sv == judgment_views(s@),
            p <= s@.len(),
            forall|j: int| 0 <= j < p ==> (#[trigger] sv[j]).0 != k@,
        decreases s.len() - p,
    {
        p = p + 1;
    }
    proof {
        lemma_key_position(sv, k@, p as int);
    }
    if p < s.len() {
        s.set(p, (String::from_str(k), v));
        assert(judgment_views(s@) =~= sv.update(p as int, (k@, v)));
    } else {
        s.push((String::from_str(k), v));
        assert(judgment_views(s@) =~= sv.push((k@, v)));
    }
}

/// Sets the evidence of class `k` (replacing an earlier one).
fn upsert_evidence(s: &mut Vec<(String, String)>, k: &str, v: String)
    ensures
        evidence_views(final(s)@) == upsert(evidence_views(old(s)@), k@, v@),
{
    let ghost sv = evidence_views(s@);
    let mut p: usize = 0;
    while p < s.len() && !str_eq(s[p].0.as_str(), k)
        invariant
            sv == evidence_views(s@),
            p <= s@.len(),
            forall|j: int| 0 <= j < p ==> (#[trigger] sv[j]).0 != k@,
        decreases s.len() - p,
    {
        p = p + 1;
    }
    proof {
        lemma_key_position(sv, k@, p as int);
    }
    let ghost vv = v@;
    if p < s.len() {
        s.set(p, (String::from_str(k), v));
        assert(evidence_views(s@) =~= sv.update(p as int, (k@, vv)));
    } else {
        s.push((String::from_str(k), v));
        assert(evidence_views(s@) =~= sv.push((k@, vv)));
    }
}

/// Whether `a` and `b` are equal up to the case of ASCII letters.
pub fn eq_ignore_case(a: &str, b: &str) -> (r: bool)
    ensures
        r == eq_ignore_ascii_case(a@, b@),
{
    let n = a.unicode_len();
    if n != b.unicode_len() {
        return false;
    }
    let mut i: usize = 0;
    while i < n
        invariant
            n == a@.len(),
            n == b@.len(),
            i <= n,
            forall|j: int| 0 <= j < i ==> ascii_fold(#[trigger] a@[j]) == ascii_fold(b@[j]),
        decreases n - i,
    {
        let x = a.get_char(i);
        let y = b.get_char(i);
        let fx: u32 = if 'A' <= x && x <= 'Z' {
            (x as u32) + 32
        } else {
            x as u32
        };
        let fy: u32 = if 'A' <= y && y <= 'Z' {
            (y as u32) + 32
        } else {
            y as u32
        };
        if fx != fy {
            return false;
        }
        i = i + 1;
    }
    true
}

/// The first class whose name equals `q` up to ASCII case.
fn first_case_match_exec(tg: &TypeGraph, q: &str) -> (r: Option<String>)
    ensures
        match r {
            Some(n) => first_case_match(tg.classes@, q@) == Some(n@),
            None => first_case_match(tg.classes@, q@) is None,
        },
{
    let mut i: usize = 0;
    assert(tg.classes@.subrange(0, tg.classes@.len() as int) =~= tg.classes@);
    while i < tg.classes.len()
        invariant
            i <= tg.classes@.len(),
            first_case_match(tg.classes@, q@) == first_case_match(
                tg.classes@.subrange(i as int, tg.classes@.len() as int),
                q@,
            ),
        decreases tg.classes.len() - i,
    {
        let ghost rest = tg.classes@.subrange(i as int, tg.classes@.len() as int);
        assert(rest[0] == tg.classes@[i as int]);
        assert(rest.drop_first() =~= tg.classes@.subrange(i + 1, tg.classes@.len() as int));
        if eq_ignore_case(tg.classes[i].name.as_str(), q) {
            return Some(tg.classes[i].name.clone());
        }
        i = i + 1;
    }
    None
}

/// The class a traversal of `q` starts in, or why there is none.
pub fn traversal_class_exec(tg: &TypeGraph, q: &str) -> (r: Result<String, String>)
    ensures
        match r {
            Ok(n) => traversal_class(*tg, q@) == Ok::<Seq<char>, Seq<char>>(n@),
            Err(e) => traversal_class(*tg, q@) == Err::<Seq<char>, Seq<char>>(e@),
        },
{
    match first_case_match_exec(tg, q) {
        Some(n) => Ok(n),
        None => {
            let ms = matching_classes_exec(tg, q);
            if ms.len() == 1 {
                Ok(ms[0].clone())
            } else if ms.len() == 0 {
                let mut e = String::from_str("Class '");
                e.append(q);
                e.append("' not found");
                Err(e)
            } else {
                let mut e = String::from_str("'");
                e.append(q);
                e.append("' matches multiple classes:\n  ");
                let j = join(&ms, "\n  ");
                e.append(j.as_str());
                e.append("\nUse an exact class name.");
                Err(e)
            }
        },
    }
}

/// Whether method `n` of class `class` is worth visiting.
fn traversable_exec(n: &str, class: &str) -> (r: bool)
    ensures
        r == traversable(n@, class@),
{
    !str_eq(n, ".ctor") && !str_eq(n, class) && !starts_with(n, "get_") && !starts_with(n, "set_") && !starts_with(
        n,
        "add_",
    ) && !starts_with(n, "remove_")
}

/// The methods of class `class` worth visiting.
fn traversable_methods_exec(ms: &Vec<MethodDescriptor>, class: &str) -> (r: Vec<String>)
    ensures
        string_views(r@) == traversable_methods(ms@, class@),
{
    let mut r: Vec<String> = Vec::new();
    let mut i: usize = 0;
    while i < ms.len()
        invariant
            i <= ms@.len(),
            string_views(r@) == traversable_methods(ms@.subrange(0, i as int), class@),
        decreases ms.len() - i,
    {
        let ghost pre = ms@.subrange(0, i + 1);
        assert(pre.drop_last() =~= ms@.subrange(0, i as int));
        reveal(Seq::filter);
        let ghost before = string_views(r@);
        if traversable_exec(ms[i].method.as_str(), class) {
            r.push(ms[i].method.clone());
            assert(string_views(r@) =~= before.push(ms@[i as int].method@));
        }
        i = i + 1;
    }
    assert(ms@.subrange(0, ms@.len() as int) =~= ms@);
    r
}

impl TraversalState {
    /// Starts a traversal of the class named like `class` at its first
    /// method worth visiting, the others queued.
    pub fn init(tg: &TypeGraph, cg: &CallGraph, class: &str, context: Option<String>) -> (r: Result<Self, String>)
        requires
            tg.wf(),
        ensures
            match r {
                Ok(s) => traversal_start(
                    *tg,
                    *cg,
                    class@,
                    match context {
                        Some(c) => Some(c@),
                        None => None,
                    },
                ) == Ok::<TraversalView, Seq<char>>(s@),
                Err(e) => traversal_start(
                    *tg,
                    *cg,
                    class@,
                    match context {
                        Some(c) => Some(c@),
                        None => None,
                    },
                ) == Err::<TraversalView, Seq<char>>(e@),
            },
    {
        let name = match traversal_class_exec(tg, class) {
            Ok(n) => n,
            Err(e) => return Err(e),
        };
        let info = match tg.get_class(name.as_str()) {
            Some(c) => c,
            None => {
                let mut e = String::from_str("Class '");
                e.append(name.as_str());
                e.append("' not found");
                return Err(e);
            },
        };
        let methods = traversable_methods_exec(&info.methods, name.as_str());
        let ghost mv = string_views(methods@);
        if methods.len() == 0 {
            let mut e = String::from_str("Class '");
            e.append(name.as_str());
            e.append("' has no methods to traverse");
            return Err(e);
        }
        let mut queue: Vec<NodeRef> = Vec::new();
        let mut i: usize = 1;
        while i < methods.len()
            invariant
                mv == string_views(methods@),
                1 <= i <= methods@.len(),
                node_views(queue@) == mv.subrange(1, i as int).map_values(|m: Seq<char>| NodeView { class: name@, method: m }),
            decreases methods.len() - i,
        {
            let ghost q0 = node_views(queue@);
            queue.push(NodeRef { class: name.clone(), method: methods[i].clone() });
            assert(node_views(queue@) =~= q0.push(NodeView { class: name@, method: mv[i as int] }));
            assert(mv.subrange(1, i + 1).map_values(|m: Seq<char>| NodeView { class: name@, method: m }) =~= mv.subrange(
                1,
                i as int,
            ).map_values(|m: Seq<char>| NodeView { class: name@, method: m }).push(NodeView { class: name@, method: mv[i as int] }));
            i = i + 1;
        }
        assert(mv.subrange(1, mv.len() as int) =~= mv.drop_first());
        let current = NodeRef { class: name.clone(), method: methods[0].clone() };
        let down = resolve_down(cg, tg, &current);
        let up = resolve_up(cg, &current);
        let s = TraversalState {
            current,
            queue,
            history: Vec::new(),
            judgments: Vec::new(),
            evidence: Vec::new(),
            incident_context: context,
            down,
            up,
        };
        assert(s@.history =~= Seq::<HistoryView>::empty());
        assert(s@.judgments =~= Seq::<(Seq<char>, Judgment)>::empty());
        assert(s@.evidence =~= Seq::<(Seq<char>, Seq<char>)>::empty());
        Ok(s)
    }
}

/// The first entry of `es` numbered `idx`.
fn entry_numbered_exec(es: &Vec<NavEntry>, idx: usize) -> (r: Option<usize>)
    ensures
        match r {
            Some(p) => p < es@.len() && entry_numbered(nav_views(es@), idx) == Some(nav_views(es@)[p as int]),
            None => entry_numbered(nav_views(es@), idx) is None,
        },
{
    let ghost ev = nav_views(es@);
    let mut i: usize = 0;
    assert(ev.subrange(0, ev.len() as int) =~= ev);
    while i < es.len()
        invariant
            ev == nav_views(es@),
            i <= es@.len(),
            entry_numbered(ev, idx) == entry_numbered(ev.subrange(i as int, ev.len() as int), idx),
        decreases es.len() - i,
    {
        let ghost rest = ev.subrange(i as int, ev.len() as int);
        assert(rest[0] == ev[i as int]);
        assert(rest.drop_first() =~= ev.subrange(i + 1, ev.len() as int));
        if es[i].idx == idx {
            return Some(i);
        }
        i = i + 1;
    }
    None
}

/// `s` followed by the decimal form of `n`.
fn with_number(s: &str, n: usize) -> (r: String)
    ensures
        r@ == s@ + decimal(n as nat),
{
    let mut r = String::from_str(s);
    let d = decimal_string(n);
    r.append(d.as_str());
    r
}

impl TraversalState {
    /// Moves to the entry `target` by `action`.
    fn move_to(&mut self, target: NodeRef, action: String, tg: &TypeGraph, cg: &CallGraph)
        requires
            tg.wf(),
        ensures
            final(self)@ == moved(*tg, *cg, old(self)@, target@, action@),
    {
        let ghost h0 = history_views(self.history@);
        let node = self.current.clone();
        self.history.push(HistoryEntry { node, action, insight: String::new() });
        assert(history_views(self.history@) =~= h0.push(HistoryView { node: old(self)@.current, action: action@, insight: Seq::empty() }));
        self.current = target;
        self.down = resolve_down(cg, tg, &self.current);
        self.up = resolve_up(cg, &self.current);
    }

    /// Follows the call numbered `idx` down to its callee; nothing happens
    /// when no call has that number.
    pub fn navigate_down(&mut self, idx: usize, tg: &TypeGraph, cg: &CallGraph)
        requires
            tg.wf(),
        ensures
            match entry_numbered(old(self)@.down, idx) {
                Some(e) => final(self)@ == moved(*tg, *cg, old(self)@, e.target, "\u{2193}"@ + decimal(idx as nat)),
                None => final(self)@ == old(self)@,
            },
    {
        match entry_numbered_exec(&self.down, idx) {
            Some(p) => {
                let target = self.down[p].target.clone();
                let action = with_number("\u{2193}", idx);
                self.move_to(target, action, tg, cg);
            },
            None => {},
        }
    }

    /// Follows the caller numbered `idx` up to its method; nothing happens
    /// when no caller has that number.
    pub fn navigate_up(&mut self, idx: usize, tg: &TypeGraph, cg: &CallGraph)
        requires
            tg.wf(),
        ensures
            match entry_numbered(old(self)@.up, idx) {
                Some(e) => final(self)@ == moved(*tg, *cg, old(self)@, e.target, "\u{2191}"@ + decimal(idx as nat)),
                None => final(self)@ == old(self)@,
            },
    {
        match entry_numbered_exec(&self.up, idx) {
            Some(p) => {
                let target = self.up[p].target.clone();
                let action = with_number("\u{2191}", idx);
                self.move_to(target, action, tg, cg);
            },
            None => {},
        }
    }

    /// Records the judgment of the current class, with its evidence, and
    /// the step.
    pub fn complete(&mut self, judgment: Judgment, evidence: String)
        ensures
            final(self)@ == (TraversalView {
                judgments: upsert(old(self)@.judgments, old(self)@.current.class, judgment),
                evidence: upsert(old(self)@.evidence, old(self)@.current.class, evidence@),
                history: old(self)@.history.push(
                    HistoryView {
                        node: old(self)@.current,
                        action: "c "@ + judgment_name(judgment),
                        insight: Seq::empty(),
                    },
                ),
                ..old(self)@
            }),
    {
        upsert_judgment(&mut self.judgments, self.current.class.as_str(), judgment);
        upsert_evidence(&mut self.evidence, self.current.class.as_str(), evidence);
        let mut action = String::from_str("c ");
        match judgment {
            Judgment::Primary => action.append("Primary"),
            Judgment::Symptom => action.append("Symptom"),
            Judgment::Unrelated => action.append("Unrelated"),
        }
        let ghost h0 = history_views(self.history@);
        let node = self.current.clone();
        let ghost av = action@;
        self.history.push(HistoryEntry { node, action, insight: String::new() });
        assert(history_views(self.history@) =~= h0.push(HistoryView { node: old(self)@.current, action: av, insight: Seq::empty() }));
    }

    /// Records that the current method was set aside.
    pub fn discard(&mut self)
        ensures
            final(self)@ == (TraversalView {
                history: old(self)@.history.push(
                    HistoryView { node: old(self)@.current, action: "d"@, insight: Seq::empty() },
                ),
                ..old(self)@
            }),
    {
        let ghost h0 = history_views(self.history@);
        let node = self.current.clone();
        self.history.push(HistoryEntry { node, action: String::from_str("d"), insight: String::new() });
        assert(history_views(self.history@) =~= h0.push(HistoryView { node: old(self)@.current, action: "d"@, insight: Seq::empty() }));
    }

    /// Moves to the next queued method, if any, without recording a step.
    pub fn next_in_queue(&mut self, tg: &TypeGraph, cg: &CallGraph) -> (r: bool)
        requires
            tg.wf(),
        ensures
            r == (old(self)@.queue.len() > 0),
            r ==> final(self)@ == (TraversalView {
                current: old(self)@.queue[0],
                queue: old(self)@.queue.drop_first(),
                down: down_entries(*tg, cg.calls@, old(self)@.queue[0]),
                up: up_entries(cg.calls@, old(self)@.queue[0]),
                ..old(self)@
            }),
            !r ==> final(self)@ == old(self)@,
    {
        if self.queue.len() == 0 {
            return false;
        }
        let ghost q0 = self.queue@;
        let next = self.queue.remove(0);
        assert(node_views(self.queue@) =~= node_views(q0).drop_first());
        self.current = next;
        self.down = resolve_down(cg, tg, &self.current);
        self.up = resolve_up(cg, &self.current);
        true
    }

    /// The implementation numbered `sub` of the dispatch entry at `p`.
    fn dispatch_exec(e: &NavEntry, sub: usize) -> (r: Option<NodeRef>)
        ensures
            match r {
                Some(t) => dispatch_target(e@, sub) == Some(t@),
                None => dispatch_target(e@, sub) is None,
            },
    {
        match &e.kind {
            EdgeKind::Interface { implementations, .. } => {
                if sub < implementations.len() {
                    Some(NodeRef { class: implementations[sub].0.clone(), method: e.callee.clone() })
                } else {
                    None
                }
            },
            EdgeKind::Virtual { overrides, .. } => {
                if sub < overrides.len() {
                    Some(NodeRef { class: overrides[sub].0.clone(), method: e.callee.clone() })
                } else {
                    None
                }
            },
            _ => None,
        }
    }

    /// Follows the call numbered `idx` down into its implementation
    /// numbered `sub` (`a` is 0); nothing happens when there is no such
    /// call or implementation.
    pub fn navigate_down_dispatch(&mut self, idx: usize, sub: usize, tg: &TypeGraph, cg: &CallGraph)
        requires
            tg.wf(),
            sub < 159,
        ensures
            match entry_numbered(old(self)@.down, idx) {
                Some(e) => match dispatch_target(e, sub) {
                    Some(t) => final(self)@ == moved(*tg, *cg, old(self)@, t, dispatch_action("\u{2193}"@, idx, sub)),
                    None => final(self)@ == old(self)@,
                },
                None => final(self)@ == old(self)@,
            },
    {
        match entry_numbered_exec(&self.down, idx) {
            Some(p) => {
                assert(nav_views(self.down@)[p as int] == self.down@[p as int]@);
                match Self::dispatch_exec(&self.down[p], sub) {
                    Some(target) => {
                        let mut action = with_number("\u{2193}", idx);
                        let c: char = (97u8 + (sub as u8)) as char;
                        push_char(&mut action, c);
                        assert(action@ =~= dispatch_action("\u{2193}"@, idx, sub));
                        self.move_to(target, action, tg, cg);
                    },
                    None => {},
                }
            },
            None => {},
        }
    }

    /// Follows the caller numbered `idx` up into its implementation
    /// numbered `sub`; callers lead to one method each, so this moves only
    /// where an entry has such a choice.
    pub fn navigate_up_dispatch(&mut self, idx: usize, sub: usize, tg: &TypeGraph, cg: &CallGraph)
        requires
            tg.wf(),
            sub < 159,
        ensures
            match entry_numbered(old(self)@.up, idx) {
                Some(e) => match dispatch_target(e, sub) {
                    Some(t) => final(self)@ == moved(*tg, *cg, old(self)@, t, dispatch_action("\u{2191}"@, idx, sub)),
                    None => final(self)@ == old(self)@,
                },
                None => final(self)@ == old(self)@,
            },
    {
        match entry_numbered_exec(&self.up, idx) {
            Some(p) => {
                assert(nav_views(self.up@)[p as int] == self.up@[p as int]@);
                match Self::dispatch_exec(&self.up[p], sub) {
                    Some(target) => {
                        let mut action = with_number("\u{2191}", idx);
                        let c: char = (97u8 + (sub as u8)) as char;
                        push_char(&mut action, c);
                        assert(action@ =~= dispatch_action("\u{2191}"@, idx, sub));
                        self.move_to(target, action, tg, cg);
                    },
                    None => {},
                }
            },
            None => {},
        }
    }
}


/// After setting the value under `k`, looking `k` up gives that value, and
/// every other key keeps its place and value.
pub proof fn law_upsert_lookup<V>(s: Seq<(Seq<char>, V)>, k: Seq<char>, v: V, k2: Seq<char>)
    ensures
        key_position(upsert(s, k, v), k) matches Some(p) && upsert(s, k, v)[p] == (k, v),
        k2 != k ==> key_position(upsert(s, k, v), k2) == key_position(s, k2),
        k2 != k ==> (key_position(s, k2) matches Some(p) ==> upsert(s, k, v)[p] == s[p]),
{
    lemma_key_position_props(s, k);
    lemma_key_position_props(s, k2);
    let u = upsert(s, k, v);
    match key_position(s, k) {
        Some(p) => {
            assert forall|j: int| 0 <= j < p implies (#[trigger] u[j]).0 != k by {
                assert(u[j] == s[j]);
            }
            lemma_key_position(u, k, p);
            if k2 != k {
                match key_position(s, k2) {
                    Some(q) => {
                        assert forall|j: int| 0 <= j < q implies (#[trigger] u[j]).0 != k2 by {
                            if j != p {
                                assert(u[j] == s[j]);
                            }
                        }
                        assert(u[q] == s[q]);
                        lemma_key_position(u, k2, q);
                    },
                    None => {
                        assert forall|j: int| 0 <= j < u.len() implies (#[trigger] u[j]).0 != k2 by {
                            if j != p {
                                assert(u[j] == s[j]);
                            }
                        }
                        lemma_key_position(u, k2, u.len() as int);
                    },
                }
            }
        },
        None => {
            assert forall|j: int| 0 <= j < s.len() implies (#[trigger] u[j]).0 != k by {
                assert(u[j] == s[j]);
            }
            lemma_key_position(u, k, s.len() as int);
            if k2 != k {
                match key_position(s, k2) {
                    Some(q) => {
                        assert forall|j: int| 0 <= j < q implies (#[trigger] u[j]).0 != k2 by {
                            assert(u[j] == s[j]);
                        }
                        lemma_key_position(u, k2, q);
                    },
                    None => {
                        assert forall|j: int| 0 <= j < u.len() implies (#[trigger] u[j]).0 != k2 by {
                            if j < s.len() {
                                assert(u[j] == s[j]);
                            }
                        }
                        lemma_key_position(u, k2, u.len() as int);
                    },
                }
            }
        },
    }
}

/// Where the first entry keyed `k` is: before it no entry has that key.
proof fn lemma_key_position_props<V>(s: Seq<(Seq<char>, V)>, k: Seq<char>)
    ensures
        match key_position(s, k) {
            Some(p) => 0 <= p < s.len() && s[p].0 == k && forall|j: int| 0 <= j < p ==> (#[trigger] s[j]).0 != k,
            None => forall|j: int| 0 <= j < s.len() ==> (#[trigger] s[j]).0 != k,
        },
    decreases s.len(),
{
    if s.len() > 0 {
        lemma_key_position_props(s.drop_last(), k);
        assert forall|j: int| 0 <= j < s.len() - 1 implies s.drop_last()[j] == s[j] by {}
    }
}

} // verus!
