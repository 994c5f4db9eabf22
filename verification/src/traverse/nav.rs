//! Navigation entries of a traversal: what a method calls (down) and what
//! calls it (up).

use vstd::prelude::*;
use crate::text::{str_eq, string_views};
use crate::order::{sorted_set, sorted_unique, same_names};
use crate::resolve::types::{TypeGraph, ClassInfo, has_method_named, any_method_named};
use crate::analysis::callgraph::{CallGraph, CallSite};
use crate::detect::common::{class_names, class_names_of};
use crate::cli::resolve_report::callee_names;
use crate::cli::call_tree::{
    calls_from, calls_to, resolved_class, calls_from_exec, calls_to_exec, callee_names_of, lemma_calls_to_nonempty,
    resolved_class_exec,
};
use crate::cli::callgraph_report::{calls_by, caller_names, calls_by_exec, caller_names_of};

verus! {

/// A method of a class.
#[derive(Debug)]
pub struct NodeRef {
    pub class: String,
    pub method: String,
}

/// A method of a class, as characters.
pub struct NodeView {
    pub class: Seq<char>,
    pub method: Seq<char>,
}

impl View for NodeRef {
    type V = NodeView;

    open spec fn view(&self) -> NodeView {
        NodeView { class: self.class@, method: self.method@ }
    }
}

impl Clone for NodeRef {
    fn clone(&self) -> (r: Self)
        ensures
            r@ == self@,
    {
        NodeRef { class: self.class.clone(), method: self.method.clone() }
    }
}

/// How a call reaches its callee. Confidences are in hundredths.
#[derive(Debug)]
pub enum EdgeKind {
    Direct,
    Interface { interface: String, implementations: Vec<(String, u32)> },
    Virtual { base_class: String, overrides: Vec<(String, u32)> },
    External,
}

/// An edge kind with its strings as characters.
pub enum EdgeView {
    Direct,
    Interface { interface: Seq<char>, implementations: Seq<(Seq<char>, u32)> },
    Virtual { base_class: Seq<char>, overrides: Seq<(Seq<char>, u32)> },
    External,
}

/// The views of weighted class names.
pub open spec fn weighted_views(s: Seq<(String, u32)>) -> Seq<(Seq<char>, u32)> {
    s.map_values(|e: (String, u32)| (e.0@, e.1))
}

impl View for EdgeKind {
    type V = EdgeView;

    open spec fn view(&self) -> EdgeView {
        match self {
            EdgeKind::Direct => EdgeView::Direct,
            EdgeKind::Interface { interface, implementations } => EdgeView::Interface {
                interface: interface@,
                implementations: weighted_views(implementations@),
            },
            EdgeKind::Virtual { base_class, overrides } => EdgeView::Virtual {
                base_class: base_class@,
                overrides: weighted_views(overrides@),
            },
            EdgeKind::External => EdgeView::External,
        }
    }
}

/// A numbered way to move from the current method.
#[derive(Debug)]
pub struct NavEntry {
    pub idx: usize,
    pub callee: String,
    pub via: String,
    pub target: NodeRef,
    pub kind: EdgeKind,
}

/// A navigation entry, as characters.
pub struct NavView {
    pub idx: usize,
    pub callee: Seq<char>,
    pub via: Seq<char>,
    pub target: NodeView,
    pub kind: EdgeView,
}

impl View for NavEntry {
    type V = NavView;

    open spec fn view(&self) -> NavView {
        NavView { idx: self.idx, callee: self.callee@, via: self.via@, target: self.target@, kind: self.kind@ }
    }
}

/// The views of a list of navigation entries.
pub open spec fn nav_views(s: Seq<NavEntry>) -> Seq<NavView> {
    s.map_values(|e: NavEntry| e@)
}

/// The method a call from class `caller` to `callee` through `target`
/// leads to: in the class it resolves to, else in the caller's class.
pub open spec fn callee_node(tg: TypeGraph, caller: Seq<char>, callee: Seq<char>, target: Seq<char>) -> NodeView {
    match resolved_class(tg, callee, target) {
        Some(c) => NodeView { class: c, method: callee },
        None => NodeView { class: caller, method: callee },
    }
}

/// The first interface, from the `j`th on, that declares `callee` and has
/// implementing classes.
pub open spec fn dispatch_interface(tg: TypeGraph, callee: Seq<char>, j: int) -> Option<Seq<char>>
    decreases tg.interfaces@.len() - j,
    when 0 <= j
{
    if j >= tg.interfaces@.len() {
        None
    } else if has_method_named(tg.interfaces@[j].methods@, callee) && tg.spec_concrete_subclasses(
        tg.interfaces@[j].name@,
    ).len() > 0 {
        Some(tg.interfaces@[j].name@)
    } else {
        dispatch_interface(tg, callee, j + 1)
    }
}

/// The kind of a call to `callee`: through the first interface declaring
/// it that has implementing classes (each weighted 70), else direct.
pub open spec fn edge_of(tg: TypeGraph, callee: Seq<char>) -> EdgeView {
    match dispatch_interface(tg, callee, 0) {
        Some(i) => EdgeView::Interface {
            interface: i,
            implementations: class_names(tg.spec_concrete_subclasses(i)).map_values(|n: Seq<char>| (n, 70u32)),
        },
        None => EdgeView::Direct,
    }
}

/// What `node` calls: one entry per callee, in increasing order of name,
/// numbered from 1, with the first call's target and where it leads.
pub open spec fn down_entries(tg: TypeGraph, calls: Seq<CallSite>, node: NodeView) -> Seq<NavView> {
    let cs = calls_from(calls, node.class, node.method);
    sorted_set(callee_names(cs)).map(
        |i: int, callee: Seq<char>|
            NavView {
                idx: (i + 1) as usize,
                callee,
                via: calls_to(cs, callee)[0].target_expr@,
                target: callee_node(tg, node.class, callee, calls_to(cs, callee)[0].target_expr@),
                kind: edge_of(tg, callee),
            },
    )
}

/// What calls `node`'s method: one entry per calling class, in increasing
/// order of name, numbered from 1, leading to the method of its first
/// call.
pub open spec fn up_entries(calls: Seq<CallSite>, node: NodeView) -> Seq<NavView> {
    let cs = calls_to(calls, node.method);
    sorted_set(caller_names(cs)).map(
        |i: int, caller: Seq<char>|
            NavView {
                idx: (i + 1) as usize,
                callee: calls_by(cs, caller)[0].caller_method@,
                via: Seq::empty(),
                target: NodeView { class: caller, method: calls_by(cs, caller)[0].caller_method@ },
                kind: EdgeView::Direct,
            },
    )
}

proof fn lemma_calls_by_nonempty(cs: Seq<CallSite>, name: Seq<char>, k: int)
    requires
        0 <= k < cs.len(),
        cs[k].caller_class@ == name,
    ensures
        calls_by(cs, name).len() > 0,
    decreases cs.len(),
{
    reveal(Seq::filter);
    if k < cs.len() - 1 {
        assert(cs.drop_last()[k] == cs[k]);
        lemma_calls_by_nonempty(cs.drop_last(), name, k);
    }
}

/// The method a call from class `caller` to `callee` through `target`
/// leads to.
pub fn find_callee_node(tg: &TypeGraph, caller: &str, callee: &str, target: &str) -> (r: NodeRef)
    ensures
        r@ == callee_node(*tg, caller@, callee@, target@),
{
    match resolved_class_exec(tg, callee, target) {
        Some(c) => NodeRef { class: c, method: String::from_str(callee) },
        None => NodeRef { class: String::from_str(caller), method: String::from_str(callee) },
    }
}

/// The kind of a call to `callee`.
pub fn classify_edge(tg: &TypeGraph, callee: &str) -> (r: EdgeKind)
    requires
        tg.wf(),
    ensures
        r@ == edge_of(*tg, callee@),
{
    let mut j: usize = 0;
    while j < tg.interfaces.len()
        invariant
            tg.wf(),
            j <= tg.interfaces@.len(),
            dispatch_interface(*tg, callee@, 0) == dispatch_interface(*tg, callee@, j as int),
        decreases tg.interfaces.len() - j,
    {
        let it = &tg.interfaces[j];
        if any_method_named(&it.methods, callee) {
            let impls = tg.concrete_subclasses(it.name.as_str());
            if impls.len() > 0 {
                let names = class_names_of(&impls);
                let ghost nv = string_views(names@);
                let mut weighted: Vec<(String, u32)> = Vec::new();
                let mut k: usize = 0;
                while k < names.len()
                    invariant
                        nv == string_views(names@),
                        k <= names@.len(),
                        weighted_views(weighted@) == nv.subrange(0, k as int).map_values(|n: Seq<char>| (n, 70u32)),
                    decreases names.len() - k,
                {
                    let ghost w0 = weighted_views(weighted@);
                    weighted.push((names[k].clone(), 70));
                    assert(weighted_views(weighted@) =~= w0.push((nv[k as int], 70u32)));
                    assert(nv.subrange(0, k + 1).map_values(|n: Seq<char>| (n, 70u32)) =~= nv.subrange(0, k as int).map_values(
                        |n: Seq<char>| (n, 70u32),
                    ).push((nv[k as int], 70u32)));
                    k = k + 1;
                }
                assert(nv.subrange(0, nv.len() as int) =~= nv);
                return EdgeKind::Interface { interface: it.name.clone(), implementations: weighted };
            }
        }
        j = j + 1;
    }
    EdgeKind::Direct
}

/// What `node` calls, numbered from 1 in increasing order of callee name.
pub fn resolve_down(cg: &CallGraph, tg: &TypeGraph, node: &NodeRef) -> (r: Vec<NavEntry>)
    requires
        tg.wf(),
    ensures
        nav_views(r@) == down_entries(*tg, cg.calls@, node@),
{
    let cs = calls_from_exec(&cg.calls, node.class.as_str(), node.method.as_str());
    let ghost cv = cs@.map_values(|c: &CallSite| *c);
    let names0 = callee_names_of(&cs);
    let names = sorted_unique(&names0);
    let ghost nv = string_views(names@);
    let ghost goal = down_entries(*tg, cg.calls@, node@);
    assert(goal.len() == nv.len());
    let mut r: Vec<NavEntry> = Vec::new();
    let mut i: usize = 0;
    while i < names.len()
        invariant
            tg.wf(),
            cv == cs@.map_values(|c: &CallSite| *c),
            cv == calls_from(cg.calls@, node@.class, node@.method),
            nv == string_views(names@),
            nv == sorted_set(callee_names(cv)),
            same_names(nv, callee_names(cv)),
            goal == down_entries(*tg, cg.calls@, node@),
            goal.len() == nv.len(),
            i <= names@.len(),
            nav_views(r@) == goal.subrange(0, i as int),
        decreases names.len() - i,
    {
        let callee = names[i].as_str();
        proof {
            assert(nv[i as int] == callee@);
            assert(nv.contains(callee@));
            assert(callee_names(cv).contains(callee@));
            let k = choose|k: int| 0 <= k < callee_names(cv).len() && callee_names(cv)[k] == callee@;
            lemma_calls_to_nonempty(cv, callee@, k);
        }
        let sites = calls_to_exec(&cs, callee);
        let ghost sv = sites@.map_values(|c: &CallSite| *c);
        assert(sv[0] == *sites@[0]);
        let target = sites[0].target_expr.as_str();
        let entry = NavEntry {
            idx: i + 1,
            callee: String::from_str(callee),
            via: String::from_str(target),
            target: find_callee_node(tg, node.class.as_str(), callee, target),
            kind: classify_edge(tg, callee),
        };
        let ghost r0 = nav_views(r@);
        assert(sv == calls_to(cv, callee@));
        assert(entry@ == goal[i as int]);
        r.push(entry);
        assert(nav_views(r@) =~= r0.push(goal[i as int]));
        assert(goal.subrange(0, i + 1) =~= goal.subrange(0, i as int).push(goal[i as int]));
        i = i + 1;
    }
    assert(goal.subrange(0, goal.len() as int) =~= goal);
    r
}

/// What calls `node`'s method, numbered from 1 in increasing order of
/// calling class.
pub fn resolve_up(cg: &CallGraph, node: &NodeRef) -> (r: Vec<NavEntry>)
    ensures
        nav_views(r@) == up_entries(cg.calls@, node@),
{
    let refs = crate::cli::callgraph_report::call_refs(&cg.calls);
    let cs = calls_to_exec(&refs, node.method.as_str());
    let ghost cv = cs@.map_values(|c: &CallSite| *c);
    let names0 = caller_names_of(&cs);
    let names = sorted_unique(&names0);
    let ghost nv = string_views(names@);
    let ghost goal = up_entries(cg.calls@, node@);
    assert(goal.len() == nv.len());
    let mut r: Vec<NavEntry> = Vec::new();
    let mut i: usize = 0;
    while i < names.len()
        invariant
            cv == cs@.map_values(|c: &CallSite| *c),
            cv == calls_to(cg.calls@, node@.method),
            nv == string_views(names@),
            nv == sorted_set(caller_names(cv)),
            same_names(nv, caller_names(cv)),
            goal == up_entries(cg.calls@, node@),
            goal.len() == nv.len(),
            i <= names@.len(),
            nav_views(r@) == goal.subrange(0, i as int),
        decreases names.len() - i,
    {
        let caller = names[i].as_str();
        proof {
            assert(nv[i as int] == caller@);
            assert(nv.contains(caller@));
            assert(caller_names(cv).contains(caller@));
            let k = choose|k: int| 0 <= k < caller_names(cv).len() && caller_names(cv)[k] == caller@;
            lemma_calls_by_nonempty(cv, caller@, k);
        }
        let mine = calls_by_exec(&cs, caller);
        let ghost mv = mine@.map_values(|c: &CallSite| *c);
        assert(mv[0] == *mine@[0]);
        let m = mine[0].caller_method.clone();
        let entry = NavEntry {
            idx: i + 1,
            callee: m.clone(),
            via: String::new(),
            target: NodeRef { class: String::from_str(caller), method: m },
            kind: EdgeKind::Direct,
        };
        let ghost r0 = nav_views(r@);
        assert(mv == calls_by(cv, caller@));
        proof {
            reveal_strlit("");
        }
        assert(entry@ == goal[i as int]);
        r.push(entry);
        assert(nav_views(r@) =~= r0.push(goal[i as int]));
        assert(goal.subrange(0, i + 1) =~= goal.subrange(0, i as int).push(goal[i as int]));
        i = i + 1;
    }
    assert(goal.subrange(0, goal.len() as int) =~= goal);
    r
}

} // verus!
