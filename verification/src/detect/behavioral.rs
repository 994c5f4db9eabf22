//! Behavioral patterns: Strategy, Command, State, Observer, Mediator, .NET
//! mediator, Chain of Responsibility, Handler, Template Method, Visitor,
//! Iterator, Memento, Interpreter.

use vstd::prelude::*;
use crate::text::{str_eq, string_views, decimal, decimal_string, has_substring, contains, joined, join};
use crate::resolve::types::{TypeGraph, ClassInfo, InterfaceInfo, MethodDescriptor, names_contain, vec_contains_str};
use crate::analysis::callgraph::CallGraph;
use crate::analysis::namemap::NameMap;
use crate::detect::types::{DetectionContext, PatternKind, PatternMatch, MatchView, match_views};
use crate::detect::common::{
    return_type_spec, return_type_of, method_names, names_of, one_name, two_names, non_accessors,
    non_accessor_methods, is_accessor, accessor_name, param_section, param_section_of, params_ordered,
    signatures_ordered, class_names, class_names_of, all_names,
};
use crate::detect::creational::push_match;

verus! {

/// An implementor calls the method on itself.
pub open spec fn self_call_by(cg: CallGraph, impls: Seq<ClassInfo>, m: Seq<char>) -> bool {
    exists|a: int, i: int|
        #![trigger impls[a], cg.calls@[i]]
        0 <= a < impls.len() && 0 <= i < cg.calls@.len() && cg.calls@[i].caller_class@ == impls[a].name@
            && cg.calls@[i].callee@ == m && cg.calls@[i].is_self_call
}

/// An implementor's own methods call the method.
pub open spec fn internal_call_by(cg: CallGraph, impls: Seq<ClassInfo>, m: Seq<char>) -> bool {
    exists|a: int|
        0 <= a < impls.len() && names_contain(cg.class_callees.values((#[trigger] impls[a]).name@), m)
}

/// Some other class creates an implementor.
pub open spec fn external_creator(cg: CallGraph, impls: Seq<ClassInfo>) -> bool {
    exists|a: int, e: int|
        #![trigger impls[a], cg.class_creations.entries@[e]]
        0 <= a < impls.len() && 0 <= e < cg.class_creations.entries@.len()
            && cg.class_creations.entries@[e].0@ != impls[a].name@ && names_contain(
            cg.class_creations.entries@[e].1@,
            impls[a].name@,
        )
}

/// Some other class creates an implementor and calls the method.
pub open spec fn invoker(cg: CallGraph, impls: Seq<ClassInfo>, m: Seq<char>) -> bool {
    exists|a: int, e: int|
        #![trigger impls[a], cg.class_creations.entries@[e]]
        0 <= a < impls.len() && 0 <= e < cg.class_creations.entries@.len()
            && cg.class_creations.entries@[e].0@ != impls[a].name@ && names_contain(
            cg.class_creations.entries@[e].1@,
            impls[a].name@,
        ) && names_contain(cg.class_callees.values(cg.class_creations.entries@[e].0@), m)
}

/// Some class other than an implementor calls the method.
pub open spec fn context_caller(cg: CallGraph, impls: Seq<ClassInfo>, m: Seq<char>) -> bool {
    exists|a: int, e: int|
        #![trigger impls[a], cg.class_callees.entries@[e]]
        0 <= a < impls.len() && 0 <= e < cg.class_callees.entries@.len() && cg.class_callees.entries@[e].0@
            != impls[a].name@ && names_contain(cg.class_callees.entries@[e].1@, m)
}

/// The parameters of `sig` mention `iface`.
pub open spec fn mentions_in_params(sig: Seq<char>, iface: Seq<char>) -> bool {
    match param_section(sig) {
        Some(p) => has_substring(p, iface),
        None => false,
    }
}

/// A class that is not an implementor has a method whose parameters
/// mention the interface.
pub open spec fn param_context(tg: TypeGraph, impls: Seq<ClassInfo>, iface: Seq<char>) -> bool {
    exists|k: int, j: int|
        #![trigger tg.classes@[k].methods@[j]]
        0 <= k < tg.classes@.len() && !class_names(impls).contains(tg.classes@[k].name@) && 0 <= j
            < tg.classes@[k].methods@.len() && mentions_in_params(tg.classes@[k].methods@[j].signature@, iface)
}

/// Method names that suggest a command.
pub open spec fn is_command_name(m: Seq<char>) -> bool {
    m == "Execute"@ || m == "Run"@ || m == "Handle"@
}

/// The verdict for a single-method interface: pattern, confidence, evidence.
pub open spec fn scs_verdict(
    cg: Option<CallGraph>,
    tg: TypeGraph,
    iface: Seq<char>,
    impls: Seq<ClassInfo>,
    m: Seq<char>,
) -> (PatternKind, u32, Seq<Seq<char>>) {
    let has_param_context = param_context(tg, impls, iface);
    match cg {
        Some(g) => {
            let self_call = self_call_by(g, impls, m);
            let internal = internal_call_by(g, impls, m);
            let creator = external_creator(g, impls);
            let inv = invoker(g, impls, m);
            let caller = context_caller(g, impls, m);
            if self_call || internal {
                (
                    PatternKind::State,
                    75,
                    if self_call {
                        seq!["self-call by implementor"@, "self-call"@]
                    } else {
                        seq!["self-call by implementor"@]
                    },
                )
            } else if inv {
                (PatternKind::Command, 80, seq!["invoker creates implementors"@, "creates+calls"@])
            } else if is_command_name(m) && caller {
                (PatternKind::Command, 75, seq!["command name + caller"@])
            } else if is_command_name(m) {
                (PatternKind::Command, 55, seq!["command name"@])
            } else if has_param_context && caller && !creator {
                (PatternKind::Strategy, 85, seq!["context param + call"@])
            } else if has_param_context {
                (PatternKind::Strategy, 70, seq!["context param"@])
            } else if caller && !creator {
                (PatternKind::Strategy, 75, seq!["context caller"@])
            } else if creator {
                (PatternKind::Command, 60, seq!["external creation"@])
            } else {
                (PatternKind::Strategy, 90, seq!["default"@])
            }
        },
        None => {
            if is_command_name(m) {
                (PatternKind::Command, 55, seq!["command name"@])
            } else if has_param_context {
                (PatternKind::Strategy, 70, seq!["context param"@])
            } else {
                (PatternKind::Strategy, 90, seq!["no callgraph"@])
            }
        },
    }
}

/// Strategy, Command or State: an interface with one method (not counting
/// accessors) and two or more concrete implementations; the call graph (or
/// the signatures alone) decides which.
pub open spec fn scs_matches(cg: Option<CallGraph>, tg: TypeGraph, is: Seq<InterfaceInfo>) -> Seq<MatchView>
    decreases is.len(),
{
    if is.len() == 0 {
        Seq::empty()
    } else {
        let rest = scs_matches(cg, tg, is.drop_last());
        let i = is.last();
        let na = non_accessors(i.methods@);
        let impls = tg.spec_concrete_subclasses(i.name@);
        if na.len() == 1 && impls.len() >= 2 {
            let m = na[0].method@;
            let v = scs_verdict(cg, tg, i.name@, impls, m);
            rest.push(
                MatchView {
                    pattern: v.0,
                    class: i.name@,
                    description: "Interface '"@ + i.name@ + "' has single method '"@ + m + "' with "@
                        + decimal(impls.len()) + " implementations"@,
                    confidence: v.1,
                    participants: seq![i.name@] + class_names(impls),
                    evidence: v.2,
                },
            )
        } else {
            rest
        }
    }
}

fn self_call_exec(cg: &CallGraph, impls: &Vec<&ClassInfo>, m: &str) -> (r: bool)
    ensures
        r == self_call_by(*cg, impls@.map_values(|c: &ClassInfo| *c), m@),
{
    let ghost iv = impls@.map_values(|c: &ClassInfo| *c);
    let mut a: usize = 0;
    while a < impls.len()
        invariant
            iv == impls@.map_values(|c: &ClassInfo| *c),
            a <= impls@.len(),
            forall|x: int, i: int|
                #![trigger iv[x], cg.calls@[i]]
                0 <= x < a && 0 <= i < cg.calls@.len() ==> !(cg.calls@[i].caller_class@ == iv[x].name@
                    && cg.calls@[i].callee@ == m@ && cg.calls@[i].is_self_call),
        decreases impls.len() - a,
    {
        let mut i: usize = 0;
        while i < cg.calls.len()
            invariant
                iv == impls@.map_values(|c: &ClassInfo| *c),
                a < impls@.len(),
                i <= cg.calls@.len(),
                forall|x: int, k: int|
                    #![trigger iv[x], cg.calls@[k]]
                    0 <= x < a && 0 <= k < cg.calls@.len() ==> !(cg.calls@[k].caller_class@ == iv[x].name@
                        && cg.calls@[k].callee@ == m@ && cg.calls@[k].is_self_call),
                forall|k: int|
                    0 <= k < i ==> !((#[trigger] cg.calls@[k]).caller_class@ == iv[a as int].name@
                        && cg.calls@[k].callee@ == m@ && cg.calls@[k].is_self_call),
            decreases cg.calls.len() - i,
        {
            let c = &cg.calls[i];
            if str_eq(c.caller_class.as_str(), impls[a].name.as_str()) && str_eq(c.callee.as_str(), m)
                && c.is_self_call {
                assert(iv[a as int] == *impls@[a as int]);
                return true;
            }
            i = i + 1;
        }
        a = a + 1;
    }
    false
}

fn internal_call_exec(cg: &CallGraph, impls: &Vec<&ClassInfo>, m: &str) -> (r: bool)
    ensures
        r == internal_call_by(*cg, impls@.map_values(|c: &ClassInfo| *c), m@),
{
    let ghost iv = impls@.map_values(|c: &ClassInfo| *c);
    let mut a: usize = 0;
    while a < impls.len()
        invariant
            iv == impls@.map_values(|c: &ClassInfo| *c),
            a <= impls@.len(),
            forall|x: int| 0 <= x < a ==> !names_contain(cg.class_callees.values((#[trigger] iv[x]).name@), m@),
        decreases impls.len() - a,
    {
        if cg.class_callees.contains(impls[a].name.as_str(), m) {
            assert(iv[a as int] == *impls@[a as int]);
            return true;
        }
        a = a + 1;
    }
    false
}

/// Whether the names under entry `e` of `nm` contain `x`, with the entry's
/// key different from `not_key`.
fn entry_has(nm: &NameMap, e: usize, not_key: &str, x: &str) -> (r: bool)
    requires
        e < nm.entries@.len(),
    ensures
        r == (nm.entries@[e as int].0@ != not_key@ && names_contain(nm.entries@[e as int].1@, x@)),
{
    !str_eq(nm.entries[e].0.as_str(), not_key) && vec_contains_str(&nm.entries[e].1, x)
}

fn external_creator_exec(cg: &CallGraph, impls: &Vec<&ClassInfo>) -> (r: bool)
    ensures
        r == external_creator(*cg, impls@.map_values(|c: &ClassInfo| *c)),
{
    let ghost iv = impls@.map_values(|c: &ClassInfo| *c);
    let ents = &cg.class_creations.entries;
    let mut a: usize = 0;
    while a < impls.len()
        invariant
            iv == impls@.map_values(|c: &ClassInfo| *c),
            ents@ == cg.class_creations.entries@,
            a <= impls@.len(),
            forall|x: int, e: int|
                #![trigger iv[x], ents@[e]]
                0 <= x < a && 0 <= e < ents@.len() ==> !(ents@[e].0@ != iv[x].name@ && names_contain(
                    ents@[e].1@,
                    iv[x].name@,
                )),
        decreases impls.len() - a,
    {
        let mut e: usize = 0;
        while e < ents.len()
            invariant
                iv == impls@.map_values(|c: &ClassInfo| *c),
                ents@ == cg.class_creations.entries@,
                a < impls@.len(),
                e <= ents@.len(),
                forall|x: int, f: int|
                    #![trigger iv[x], ents@[f]]
                    0 <= x < a && 0 <= f < ents@.len() ==> !(ents@[f].0@ != iv[x].name@ && names_contain(
                        ents@[f].1@,
                        iv[x].name@,
                    )),
                forall|f: int|
                    0 <= f < e ==> !((#[trigger] ents@[f]).0@ != iv[a as int].name@ && names_contain(
                        ents@[f].1@,
                        iv[a as int].name@,
                    )),
            decreases ents.len() - e,
        {
            assert(iv[a as int] == *impls@[a as int]);
            if entry_has(&cg.class_creations, e, impls[a].name.as_str(), impls[a].name.as_str()) {
                return true;
            }
            e = e + 1;
        }
        a = a + 1;
    }
    false
}

fn invoker_exec(cg: &CallGraph, impls: &Vec<&ClassInfo>, m: &str) -> (r: bool)
    ensures
        r == invoker(*cg, impls@.map_values(|c: &ClassInfo| *c), m@),
{
    let ghost iv = impls@.map_values(|c: &ClassInfo| *c);
    let ents = &cg.class_creations.entries;
    let mut a: usize = 0;
    while a < impls.len()
        invariant
            iv == impls@.map_values(|c: &ClassInfo| *c),
            ents@ == cg.class_creations.entries@,
            a <= impls@.len(),
            forall|x: int, e: int|
                #![trigger iv[x], ents@[e]]
                0 <= x < a && 0 <= e < ents@.len() ==> !(ents@[e].0@ != iv[x].name@ && names_contain(
                    ents@[e].1@,
                    iv[x].name@,
                ) && names_contain(cg.class_callees.values(ents@[e].0@), m@)),
        decreases impls.len() - a,
    {
        let mut e: usize = 0;
        while e < ents.len()
            invariant
                iv == impls@.map_values(|c: &ClassInfo| *c),
                ents@ == cg.class_creations.entries@,
                a < impls@.len(),
                e <= ents@.len(),
                forall|x: int, f: int|
                    #![trigger iv[x], ents@[f]]
                    0 <= x < a && 0 <= f < ents@.len() ==> !(ents@[f].0@ != iv[x].name@ && names_contain(
                        ents@[f].1@,
                        iv[x].name@,
                    ) && names_contain(cg.class_callees.values(ents@[f].0@), m@)),
                forall|f: int|
                    0 <= f < e ==> !((#[trigger] ents@[f]).0@ != iv[a as int].name@ && names_contain(
                        ents@[f].1@,
                        iv[a as int].name@,
                    ) && names_contain(cg.class_callees.values(ents@[f].0@), m@)),
            decreases ents.len() - e,
        {
            assert(iv[a as int] == *impls@[a as int]);
            if entry_has(&cg.class_creations, e, impls[a].name.as_str(), impls[a].name.as_str())
                && cg.class_callees.contains(ents[e].0.as_str(), m) {
                return true;
            }
            e = e + 1;
        }
        a = a + 1;
    }
    false
}

fn context_caller_exec(cg: &CallGraph, impls: &Vec<&ClassInfo>, m: &str) -> (r: bool)
    ensures
        r == context_caller(*cg, impls@.map_values(|c: &ClassInfo| *c), m@),
{
    let ghost iv = impls@.map_values(|c: &ClassInfo| *c);
    let ents = &cg.class_callees.entries;
    let mut a: usize = 0;
    while a < impls.len()
        invariant
            iv == impls@.map_values(|c: &ClassInfo| *c),
            ents@ == cg.class_callees.entries@,
            a <= impls@.len(),
            forall|x: int, e: int|
                #![trigger iv[x], ents@[e]]
                0 <= x < a && 0 <= e < ents@.len() ==> !(ents@[e].0@ != iv[x].name@ && names_contain(
                    ents@[e].1@,
                    m@,
                )),
        decreases impls.len() - a,
    {
        let mut e: usize = 0;
        while e < ents.len()
            invariant
                iv == impls@.map_values(|c: &ClassInfo| *c),
                ents@ == cg.class_callees.entries@,
                a < impls@.len(),
                e <= ents@.len(),
                forall|x: int, f: int|
                    #![trigger iv[x], ents@[f]]
                    0 <= x < a && 0 <= f < ents@.len() ==> !(ents@[f].0@ != iv[x].name@ && names_contain(
                        ents@[f].1@,
                        m@,
                    )),
                forall|f: int|
                    0 <= f < e ==> !((#[trigger] ents@[f]).0@ != iv[a as int].name@ && names_contain(
                        ents@[f].1@,
                        m@,
                    )),
            decreases ents.len() - e,
        {
            assert(iv[a as int] == *impls@[a as int]);
            if entry_has(&cg.class_callees, e, impls[a].name.as_str(), m) {
                return true;
            }
            e = e + 1;
        }
        a = a + 1;
    }
    false
}

/// Whether `name` is among the classes.
fn among_classes(cs: &Vec<&ClassInfo>, name: &str) -> (r: bool)
    ensures
        r == class_names(cs@.map_values(|c: &ClassInfo| *c)).contains(name@),
{
    let ghost v = class_names(cs@.map_values(|c: &ClassInfo| *c));
    let mut i: usize = 0;
    while i < cs.len()
        invariant
            v == class_names(cs@.map_values(|c: &ClassInfo| *c)),
            i <= cs@.len(),
            forall|k: int| 0 <= k < i ==> v[k] != name@,
        decreases cs.len() - i,
    {
        if str_eq(cs[i].name.as_str(), name) {
            assert(v[i as int] == name@);
            return true;
        }
        i = i + 1;
    }
    false
}

/// Whether the parameters of `sig` mention `iface`.
fn mentions_in_params_exec(sig: &str, iface: &str) -> (r: bool)
    requires
        params_ordered(sig@),
    ensures
        r == mentions_in_params(sig@, iface@),
{
    match param_section_of(sig) {
        Some(p) => contains(p.as_str(), iface),
        None => false,
    }
}

fn param_context_exec(tg: &TypeGraph, impls: &Vec<&ClassInfo>, iface: &str) -> (r: bool)
    requires
        signatures_ordered(*tg),
    ensures
        r == param_context(*tg, impls@.map_values(|c: &ClassInfo| *c), iface@),
{
    let ghost iv = impls@.map_values(|c: &ClassInfo| *c);
    let mut k: usize = 0;
    while k < tg.classes.len()
        invariant
            iv == impls@.map_values(|c: &ClassInfo| *c),
            signatures_ordered(*tg),
            k <= tg.classes@.len(),
            forall|x: int, j: int|
                #![trigger tg.classes@[x].methods@[j]]
                0 <= x < k && !class_names(iv).contains(tg.classes@[x].name@) && 0 <= j
                    < tg.classes@[x].methods@.len() ==> !mentions_in_params(
                    tg.classes@[x].methods@[j].signature@,
                    iface@,
                ),
        decreases tg.classes.len() - k,
    {
        let c = &tg.classes[k];
        if !among_classes(impls, c.name.as_str()) {
            let mut j: usize = 0;
            while j < c.methods.len()
                invariant
                    iv == impls@.map_values(|c: &ClassInfo| *c),
                    signatures_ordered(*tg),
                    k < tg.classes@.len(),
                    *c == tg.classes@[k as int],
                    !class_names(iv).contains(c.name@),
                    j <= c.methods@.len(),
                    forall|x: int, b: int|
                        #![trigger tg.classes@[x].methods@[b]]
                        0 <= x < k && !class_names(iv).contains(tg.classes@[x].name@) && 0 <= b
                            < tg.classes@[x].methods@.len() ==> !mentions_in_params(
                            tg.classes@[x].methods@[b].signature@,
                            iface@,
                        ),
                    forall|b: int| 0 <= b < j ==> !mentions_in_params((#[trigger] c.methods@[b]).signature@, iface@),
                decreases c.methods.len() - j,
            {
                assert(params_ordered(tg.classes@[k as int].methods@[j as int].signature@));
                if mentions_in_params_exec(c.methods[j].signature.as_str(), iface) {
                    assert(tg.classes@[k as int].methods@[j as int] == c.methods@[j as int]);
                    assert(mentions_in_params(tg.classes@[k as int].methods@[j as int].signature@, iface@));
                    return true;
                }
                j = j + 1;
            }
        }
        k = k + 1;
    }
    false
}

fn is_command_name_exec(m: &str) -> (r: bool)
    ensures
        r == is_command_name(m@),
{
    str_eq(m, "Execute") || str_eq(m, "Run") || str_eq(m, "Handle")
}

/// Makes a list of names from up to two string literals' views.
fn names_of_strs(a: &str, b: Option<&str>) -> (r: Vec<String>)
    ensures
        string_views(r@) == match b {
            Some(x) => seq![a@, x@],
            None => seq![a@],
        },
{
    match b {
        Some(x) => two_names(a, x),
        None => one_name(a),
    }
}

fn scs_verdict_exec(
    cg: Option<&CallGraph>,
    tg: &TypeGraph,
    iface: &str,
    impls: &Vec<&ClassInfo>,
    m: &str,
) -> (r: (PatternKind, u32, Vec<String>))
    requires
        signatures_ordered(*tg),
    ensures
        (r.0, r.1, string_views(r.2@)) == scs_verdict(
            match cg {
                Some(g) => Some(*g),
                None => None,
            },
            *tg,
            iface@,
            impls@.map_values(|c: &ClassInfo| *c),
            m@,
        ),
{
    let has_param_context = param_context_exec(tg, impls, iface);
    match cg {
        Some(g) => {
            let self_call = self_call_exec(g, impls, m);
            let internal = internal_call_exec(g, impls, m);
            let creator = external_creator_exec(g, impls);
            let inv = invoker_exec(g, impls, m);
            let caller = context_caller_exec(g, impls, m);
            let is_cmd = is_command_name_exec(m);
            if self_call || internal {
                let ev = if self_call {
                    names_of_strs("self-call by implementor", Some("self-call"))
                } else {
                    names_of_strs("self-call by implementor", None)
                };
                (PatternKind::State, 75, ev)
            } else if inv {
                (PatternKind::Command, 80, names_of_strs("invoker creates implementors", Some("creates+calls")))
            } else if is_cmd && caller {
                (PatternKind::Command, 75, names_of_strs("command name + caller", None))
            } else if is_cmd {
                (PatternKind::Command, 55, names_of_strs("command name", None))
            } else if has_param_context && caller && !creator {
                (PatternKind::Strategy, 85, names_of_strs("context param + call", None))
            } else if has_param_context {
                (PatternKind::Strategy, 70, names_of_strs("context param", None))
            } else if caller && !creator {
                (PatternKind::Strategy, 75, names_of_strs("context caller", None))
            } else if creator {
                (PatternKind::Command, 60, names_of_strs("external creation", None))
            } else {
                (PatternKind::Strategy, 90, names_of_strs("default", None))
            }
        },
        None => {
            if is_command_name_exec(m) {
                (PatternKind::Command, 55, names_of_strs("command name", None))
            } else if has_param_context {
                (PatternKind::Strategy, 70, names_of_strs("context param", None))
            } else {
                (PatternKind::Strategy, 90, names_of_strs("no callgraph", None))
            }
        },
    }
}

/// The call graph of a context, by value.
pub open spec fn ctx_cg(ctx: DetectionContext) -> Option<CallGraph> {
    match ctx.callgraph {
        Some(g) => Some(*g),
        None => None,
    }
}

fn detect_strategy_or_command_or_state(ctx: &DetectionContext, results: &mut Vec<PatternMatch>)
    requires
        ctx.type_graph.wf(),
        signatures_ordered(*ctx.type_graph),
    ensures
        match_views(final(results)@) == match_views(old(results)@) + scs_matches(
            ctx_cg(*ctx),
            *ctx.type_graph,
            ctx.type_graph.interfaces@,
        ),
{
    let tg = ctx.type_graph;
    let ghost r0 = match_views(results@);
    let mut i: usize = 0;
    while i < tg.interfaces.len()
        invariant
            tg == ctx.type_graph,
            tg.wf(),
            signatures_ordered(*tg),
            i <= tg.interfaces@.len(),
            match_views(results@) == r0 + scs_matches(ctx_cg(*ctx), *tg, tg.interfaces@.subrange(0, i as int)),
        decreases tg.interfaces.len() - i,
    {
        let ghost pre = tg.interfaces@.subrange(0, i + 1);
        assert(pre.drop_last() =~= tg.interfaces@.subrange(0, i as int));
        let it = &tg.interfaces[i];
        let na = non_accessor_methods(&it.methods);
        if na.len() == 1 {
            let impls = tg.concrete_subclasses(it.name.as_str());
            if impls.len() >= 2 {
                let m = na[0].method.as_str();
                assert(na@.map_values(|x: &MethodDescriptor| *x)[0] == *na@[0]);
                let verdict = scs_verdict_exec(ctx.callgraph, tg, it.name.as_str(), &impls, m);
                let mut d = String::from_str("Interface '");
                d.append(it.name.as_str());
                d.append("' has single method '");
                d.append(m);
                d.append("' with ");
                let n = decimal_string(impls.len());
                d.append(n.as_str());
                d.append(" implementations");
                let mut participants = one_name(it.name.as_str());
                let mut more = class_names_of(&impls);
                participants.append(&mut more);
                let pm = PatternMatch {
                    pattern: verdict.0,
                    class: it.name.clone(),
                    description: d,
                    confidence: verdict.1,
                    participants,
                    evidence: verdict.2,
                };
                proof {
                    let iv = impls@.map_values(|c: &ClassInfo| *c);
                    assert(string_views(pm.participants@) =~= seq![it.name@] + class_names(iv));
                }
                push_match(results, pm);
            }
        }
        i = i + 1;
    }
    assert(tg.interfaces@.subrange(0, tg.interfaces@.len() as int) =~= tg.interfaces@);
}

/// Classes of `cs` (not abstract) listing `iface` among their interfaces.
pub open spec fn direct_impls(cs: Seq<ClassInfo>, iface: Seq<char>) -> Seq<ClassInfo> {
    cs.filter(|c: ClassInfo| !c.is_abstract && names_contain(c.interfaces@, iface))
}

/// Classes of `cs` not listing `iface` that have an action method (not an
/// accessor, not named as the class).
pub open spec fn components(cs: Seq<ClassInfo>, iface: Seq<char>) -> Seq<ClassInfo> {
    cs.filter(
        |c: ClassInfo|
            !names_contain(c.interfaces@, iface) && exists|j: int|
                0 <= j < c.methods@.len() && !is_accessor((#[trigger] c.methods@[j]).method@)
                    && c.methods@[j].method@ != c.name@,
    )
}

fn direct_impls_exec<'a>(cs: &'a Vec<ClassInfo>, iface: &str) -> (r: Vec<&'a ClassInfo>)
    ensures
        r@.map_values(|c: &ClassInfo| *c) == direct_impls(cs@, iface@),
{
    let mut r: Vec<&ClassInfo> = Vec::new();
    let mut i: usize = 0;
    while i < cs.len()
        invariant
            i <= cs@.len(),
            r@.map_values(|c: &ClassInfo| *c) == direct_impls(cs@.subrange(0, i as int), iface@),
        decreases cs.len() - i,
    {
        let ghost pre = cs@.subrange(0, i + 1);
        assert(pre.drop_last() =~= cs@.subrange(0, i as int));
        reveal(Seq::filter);
        let ghost before = r@;
        if !cs[i].is_abstract && vec_contains_str(&cs[i].interfaces, iface) {
            r.push(&cs[i]);
            assert(r@.map_values(|c: &ClassInfo| *c) =~= before.map_values(|c: &ClassInfo| *c).push(cs@[i as int]));
        }
        i = i + 1;
    }
    assert(cs@.subrange(0, cs@.len() as int) =~= cs@);
    r
}

/// Whether class `c` has an action method.
fn has_action_method(c: &ClassInfo) -> (r: bool)
    ensures
        r == exists|j: int|
            0 <= j < c.methods@.len() && !is_accessor((#[trigger] c.methods@[j]).method@) && c.methods@[j].method@
                != c.name@,
{
    let mut j: usize = 0;
    while j < c.methods.len()
        invariant
            j <= c.methods@.len(),
            forall|b: int|
                0 <= b < j ==> !(!is_accessor((#[trigger] c.methods@[b]).method@) && c.methods@[b].method@ != c.name@),
        decreases c.methods.len() - j,
    {
        if !accessor_name(c.methods[j].method.as_str()) && !str_eq(c.methods[j].method.as_str(), c.name.as_str()) {
            return true;
        }
        j = j + 1;
    }
    false
}

fn component_count(cs: &Vec<ClassInfo>, iface: &str) -> (r: usize)
    ensures
        r == components(cs@, iface@).len(),
{
    let mut n: usize = 0;
    let mut i: usize = 0;
    while i < cs.len()
        invariant
            i <= cs@.len(),
            n == components(cs@.subrange(0, i as int), iface@).len(),
            n <= i,
        decreases cs.len() - i,
    {
        let ghost pre = cs@.subrange(0, i + 1);
        assert(pre.drop_last() =~= cs@.subrange(0, i as int));
        reveal(Seq::filter);
        if !vec_contains_str(&cs[i].interfaces, iface) && has_action_method(&cs[i]) {
            n = n + 1;
        }
        i = i + 1;
    }
    assert(cs@.subrange(0, cs@.len() as int) =~= cs@);
    n
}

/// Observers: an interface with two or more action methods, one of whose
/// signatures mentions the interface.
pub open spec fn observer_iface_matches(tg: TypeGraph, is: Seq<InterfaceInfo>) -> Seq<MatchView>
    decreases is.len(),
{
    if is.len() == 0 {
        Seq::empty()
    } else {
        let rest = observer_iface_matches(tg, is.drop_last());
        let i = is.last();
        let ms = non_accessors(i.methods@);
        if ms.len() >= 2 && exists|j: int| 0 <= j < ms.len() && has_substring((#[trigger] ms[j]).signature@, i.name@) {
            rest.push(
                MatchView {
                    pattern: PatternKind::Observer,
                    class: i.name@,
                    description: "Interface '"@ + i.name@ + "' has subscription pattern with "@ + decimal(
                        tg.spec_concrete_subclasses(i.name@).len(),
                    ) + " implementations"@,
                    confidence: 75,
                    participants: seq![i.name@],
                    evidence: seq!["methods: "@ + decimal(ms.len())],
                },
            )
        } else {
            rest
        }
    }
}

/// Observers: a class implementing `IObservable` or `IObserver`.
pub open spec fn observer_class_matches(cs: Seq<ClassInfo>) -> Seq<MatchView>
    decreases cs.len(),
{
    if cs.len() == 0 {
        Seq::empty()
    } else {
        let rest = observer_class_matches(cs.drop_last());
        let c = cs.last();
        if names_contain(c.interfaces@, "IObservable"@) || names_contain(c.interfaces@, "IObserver"@) {
            rest.push(
                MatchView {
                    pattern: PatternKind::Observer,
                    class: c.name@,
                    description: "'"@ + c.name@ + "' implements IObservable/IObserver"@,
                    confidence: 90,
                    participants: seq![c.name@],
                    evidence: string_views(c.interfaces@),
                },
            )
        } else {
            rest
        }
    }
}

/// Mediators: an interface with two or more action methods and exactly one
/// direct implementor, among enough other classes or components.
pub open spec fn mediator_matches(tg: TypeGraph, is: Seq<InterfaceInfo>) -> Seq<MatchView>
    decreases is.len(),
{
    if is.len() == 0 {
        Seq::empty()
    } else {
        let rest = mediator_matches(tg, is.drop_last());
        let i = is.last();
        let ms = non_accessors(i.methods@);
        let impls = direct_impls(tg.classes@, i.name@);
        let cc = components(tg.classes@, i.name@).len();
        let others = if tg.classes@.len() >= impls.len() {
            tg.classes@.len() - impls.len()
        } else {
            0
        };
        if ms.len() >= 2 && impls.len() == 1 && !(others < 2 && cc < 2) {
            rest.push(
                MatchView {
                    pattern: PatternKind::Mediator,
                    class: i.name@,
                    description: "Interface '"@ + i.name@ + "' has "@ + decimal(impls.len()) + " implementor with "@
                        + decimal(cc) + " component classes \u{2014} Mediator"@,
                    confidence: 60,
                    participants: seq![i.name@],
                    evidence: method_names(ms),
                },
            )
        } else {
            rest
        }
    }
}

fn detect_observer(tg: &TypeGraph, results: &mut Vec<PatternMatch>)
    requires
        tg.wf(),
    ensures
        match_views(final(results)@) == match_views(old(results)@) + observer_iface_matches(*tg, tg.interfaces@)
            + observer_class_matches(tg.classes@),
{
    let ghost r0 = match_views(results@);
    let mut i: usize = 0;
    while i < tg.interfaces.len()
        invariant
            tg.wf(),
            i <= tg.interfaces@.len(),
            match_views(results@) == r0 + observer_iface_matches(*tg, tg.interfaces@.subrange(0, i as int)),
        decreases tg.interfaces.len() - i,
    {
        let ghost pre = tg.interfaces@.subrange(0, i + 1);
        assert(pre.drop_last() =~= tg.interfaces@.subrange(0, i as int));
        let it = &tg.interfaces[i];
        let ms = non_accessor_methods(&it.methods);
        let ghost mv = ms@.map_values(|m: &MethodDescriptor| *m);
        if ms.len() >= 2 {
            let mut found = false;
            let mut j: usize = 0;
            while j < ms.len()
                invariant
                    mv == ms@.map_values(|m: &MethodDescriptor| *m),
                    j <= ms@.len(),
                    found == exists|b: int| 0 <= b < j && has_substring((#[trigger] mv[b]).signature@, it.name@),
                decreases ms.len() - j,
            {
                assert(mv[j as int] == *ms@[j as int]);
                if contains(ms[j].signature.as_str(), it.name.as_str()) {
                    found = true;
                }
                j = j + 1;
            }
            if found {
                let impls = tg.concrete_subclasses(it.name.as_str());
                let mut d = String::from_str("Interface '");
                d.append(it.name.as_str());
                d.append("' has subscription pattern with ");
                let n = decimal_string(impls.len());
                d.append(n.as_str());
                d.append(" implementations");
                let mut e = String::from_str("methods: ");
                let k = decimal_string(ms.len());
                e.append(k.as_str());
                let pm = PatternMatch {
                    pattern: PatternKind::Observer,
                    class: it.name.clone(),
                    description: d,
                    confidence: 75,
                    participants: one_name(it.name.as_str()),
                    evidence: one_name(e.as_str()),
                };
                push_match(results, pm);
            }
        }
        i = i + 1;
    }
    assert(tg.interfaces@.subrange(0, tg.interfaces@.len() as int) =~= tg.interfaces@);
    let ghost r1 = match_views(results@);
    let mut i: usize = 0;
    while i < tg.classes.len()
        invariant
            i <= tg.classes@.len(),
            match_views(results@) == r1 + observer_class_matches(tg.classes@.subrange(0, i as int)),
        decreases tg.classes.len() - i,
    {
        let ghost pre = tg.classes@.subrange(0, i + 1);
        assert(pre.drop_last() =~= tg.classes@.subrange(0, i as int));
        let c = &tg.classes[i];
        if vec_contains_str(&c.interfaces, "IObservable") || vec_contains_str(&c.interfaces, "IObserver") {
            let mut d = String::from_str("'");
            d.append(c.name.as_str());
            d.append("' implements IObservable/IObserver");
            let pm = PatternMatch {
                pattern: PatternKind::Observer,
                class: c.name.clone(),
                description: d,
                confidence: 90,
                participants: one_name(c.name.as_str()),
                evidence: crate::resolve::types::clone_vec(&c.interfaces),
            };
            push_match(results, pm);
        }
        i = i + 1;
    }
    assert(tg.classes@.subrange(0, tg.classes@.len() as int) =~= tg.classes@);
}

fn detect_mediator(tg: &TypeGraph, results: &mut Vec<PatternMatch>)
    ensures
        match_views(final(results)@) == match_views(old(results)@) + mediator_matches(*tg, tg.interfaces@),
{
    let ghost r0 = match_views(results@);
    let mut i: usize = 0;
    while i < tg.interfaces.len()
        invariant
            i <= tg.interfaces@.len(),
            match_views(results@) == r0 + mediator_matches(*tg, tg.interfaces@.subrange(0, i as int)),
        decreases tg.interfaces.len() - i,
    {
        let ghost pre = tg.interfaces@.subrange(0, i + 1);
        assert(pre.drop_last() =~= tg.interfaces@.subrange(0, i as int));
        let it = &tg.interfaces[i];
        let ms = non_accessor_methods(&it.methods);
        if ms.len() >= 2 {
            let impls = direct_impls_exec(&tg.classes, it.name.as_str());
            if impls.len() == 1 {
                let cc = component_count(&tg.classes, it.name.as_str());
                let others = if tg.classes.len() >= impls.len() {
                    tg.classes.len() - impls.len()
                } else {
                    0
                };
                if !(others < 2 && cc < 2) {
                    let mut d = String::from_str("Interface '");
                    d.append(it.name.as_str());
                    d.append("' has ");
                    let a = decimal_string(impls.len());
                    d.append(a.as_str());
                    d.append(" implementor with ");
                    let b = decimal_string(cc);
                    d.append(b.as_str());
                    d.append(" component classes \u{2014} Mediator");
                    let pm = PatternMatch {
                        pattern: PatternKind::Mediator,
                        class: it.name.clone(),
                        description: d,
                        confidence: 60,
                        participants: one_name(it.name.as_str()),
                        evidence: names_of(&ms),
                    };
                    push_match(results, pm);
                }
            }
        }
        i = i + 1;
    }
    assert(tg.interfaces@.subrange(0, tg.interfaces@.len() as int) =~= tg.interfaces@);
}

/// A handler interface for the mediator class `mc` of `iface`: another
/// interface with one action method, two or more direct implementors, which
/// `mc` does not implement.
pub open spec fn is_handler_iface(tg: TypeGraph, iface: Seq<char>, mc: ClassInfo, h: InterfaceInfo) -> bool {
    h.name@ != iface && non_accessors(h.methods@).len() == 1 && direct_impls(tg.classes@, h.name@).len() >= 2
        && !names_contain(mc.interfaces@, h.name@)
}

/// The handler interfaces for the mediator class `mc` of `iface`.
pub open spec fn handler_ifaces(tg: TypeGraph, iface: Seq<char>, mc: ClassInfo) -> Seq<InterfaceInfo> {
    tg.interfaces@.filter(|h: InterfaceInfo| is_handler_iface(tg, iface, mc, h))
}

/// The names of a list of interfaces.
pub open spec fn iface_names(is: Seq<InterfaceInfo>) -> Seq<Seq<char>> {
    is.map_values(|i: InterfaceInfo| i.name@)
}

/// .NET mediators: an interface with two or more action methods and one
/// direct implementor, paired with two or more handler interfaces.
pub open spec fn dotnet_mediator_matches(tg: TypeGraph, is: Seq<InterfaceInfo>) -> Seq<MatchView>
    decreases is.len(),
{
    if is.len() == 0 {
        Seq::empty()
    } else {
        let rest = dotnet_mediator_matches(tg, is.drop_last());
        let i = is.last();
        let ms = non_accessors(i.methods@);
        let impls = direct_impls(tg.classes@, i.name@);
        if ms.len() >= 2 && impls.len() == 1 && handler_ifaces(tg, i.name@, impls[0]).len() >= 2 {
            let hs = iface_names(handler_ifaces(tg, i.name@, impls[0]));
            rest.push(
                MatchView {
                    pattern: PatternKind::DotnetMediator,
                    class: i.name@,
                    description: "'"@ + i.name@ + "' dispatches to "@ + decimal(hs.len())
                        + " handler interfaces \u{2014} .NET MediatR"@,
                    confidence: 85,
                    participants: seq![i.name@] + hs,
                    evidence: hs,
                },
            )
        } else {
            rest
        }
    }
}

fn handler_ifaces_exec<'a>(tg: &'a TypeGraph, iface: &str, mc: &ClassInfo) -> (r: Vec<&'a InterfaceInfo>)
    ensures
        r@.map_values(|i: &InterfaceInfo| *i) == handler_ifaces(*tg, iface@, *mc),
{
    let mut r: Vec<&InterfaceInfo> = Vec::new();
    let mut i: usize = 0;
    while i < tg.interfaces.len()
        invariant
            i <= tg.interfaces@.len(),
            r@.map_values(|x: &InterfaceInfo| *x) == tg.interfaces@.subrange(0, i as int).filter(
                |h: InterfaceInfo| is_handler_iface(*tg, iface@, *mc, h),
            ),
        decreases tg.interfaces.len() - i,
    {
        let ghost pre = tg.interfaces@.subrange(0, i + 1);
        assert(pre.drop_last() =~= tg.interfaces@.subrange(0, i as int));
        reveal(Seq::filter);
        let h = &tg.interfaces[i];
        let ghost before = r@;
        if !str_eq(h.name.as_str(), iface) && non_accessor_methods(&h.methods).len() == 1 && direct_impls_exec(
            &tg.classes,
            h.name.as_str(),
        ).len() >= 2 && !vec_contains_str(&mc.interfaces, h.name.as_str()) {
            r.push(h);
            assert(r@.map_values(|x: &InterfaceInfo| *x) =~= before.map_values(|x: &InterfaceInfo| *x).push(*h));
        }
        i = i + 1;
    }
    assert(tg.interfaces@.subrange(0, tg.interfaces@.len() as int) =~= tg.interfaces@);
    r
}

fn iface_names_of(is: &Vec<&InterfaceInfo>) -> (r: Vec<String>)
    ensures
        string_views(r@) == iface_names(is@.map_values(|i: &InterfaceInfo| *i)),
{
    let mut r: Vec<String> = Vec::new();
    let mut i: usize = 0;
    while i < is.len()
        invariant
            i <= is@.len(),
            r@.len() == i,
            forall|k: int| 0 <= k < i ==> (#[trigger] r@[k])@ == is@[k].name@,
        decreases is.len() - i,
    {
        r.push(is[i].name.clone());
        i = i + 1;
    }
    assert(string_views(r@) =~= iface_names(is@.map_values(|i: &InterfaceInfo| *i)));
    r
}

fn detect_dotnet_mediator(tg: &TypeGraph, results: &mut Vec<PatternMatch>)
    ensures
        match_views(final(results)@) == match_views(old(results)@) + dotnet_mediator_matches(*tg, tg.interfaces@),
{
    let ghost r0 = match_views(results@);
    let mut i: usize = 0;
    while i < tg.interfaces.len()
        invariant
            i <= tg.interfaces@.len(),
            match_views(results@) == r0 + dotnet_mediator_matches(*tg, tg.interfaces@.subrange(0, i as int)),
        decreases tg.interfaces.len() - i,
    {
        let ghost pre = tg.interfaces@.subrange(0, i + 1);
        assert(pre.drop_last() =~= tg.interfaces@.subrange(0, i as int));
        let it = &tg.interfaces[i];
        let ms = non_accessor_methods(&it.methods);
        if ms.len() >= 2 {
            let impls = direct_impls_exec(&tg.classes, it.name.as_str());
            if impls.len() == 1 {
                let mc = impls[0];
                assert(impls@.map_values(|c: &ClassInfo| *c)[0] == *mc);
                let hs = handler_ifaces_exec(tg, it.name.as_str(), mc);
                if hs.len() >= 2 {
                    let names = iface_names_of(&hs);
                    let mut d = String::from_str("'");
                    d.append(it.name.as_str());
                    d.append("' dispatches to ");
                    let n = decimal_string(hs.len());
                    d.append(n.as_str());
                    d.append(" handler interfaces \u{2014} .NET MediatR");
                    let mut participants = one_name(it.name.as_str());
                    let mut more = iface_names_of(&hs);
                    participants.append(&mut more);
                    let pm = PatternMatch {
                        pattern: PatternKind::DotnetMediator,
                        class: it.name.clone(),
                        description: d,
                        confidence: 85,
                        participants,
                        evidence: names,
                    };
                    proof {
                        let hv = iface_names(hs@.map_values(|x: &InterfaceInfo| *x));
                        assert(string_views(pm.participants@) =~= seq![it.name@] + hv);
                    }
                    push_match(results, pm);
                }
            }
        }
        i = i + 1;
    }
    assert(tg.interfaces@.subrange(0, tg.interfaces@.len() as int) =~= tg.interfaces@);
}

/// Chains of responsibility: an interface with two or more action methods
/// and two or more concrete implementations.
pub open spec fn chain_matches(tg: TypeGraph, is: Seq<InterfaceInfo>) -> Seq<MatchView>
    decreases is.len(),
{
    if is.len() == 0 {
        Seq::empty()
    } else {
        let rest = chain_matches(tg, is.drop_last());
        let i = is.last();
        let na = non_accessors(i.methods@).len();
        let ni = tg.spec_concrete_subclasses(i.name@).len();
        if na >= 2 && ni >= 2 {
            rest.push(
                MatchView {
                    pattern: PatternKind::ChainOfResponsibility,
                    class: i.name@,
                    description: "Interface '"@ + i.name@ + "' has "@ + decimal(na) + " methods and "@ + decimal(ni)
                        + " implementations \u{2014} chain"@,
                    confidence: 50,
                    participants: seq![i.name@],
                    evidence: seq!["methods: "@ + decimal(na), "implementations: "@ + decimal(ni)],
                },
            )
        } else {
            rest
        }
    }
}

/// `prefix` followed by the decimal form of `n`.
fn labelled_count(prefix: &str, n: usize) -> (r: String)
    ensures
        r@ == prefix@ + decimal(n as nat),
{
    let mut s = String::from_str(prefix);
    let d = decimal_string(n);
    s.append(d.as_str());
    s
}

fn detect_chain_of_responsibility(tg: &TypeGraph, results: &mut Vec<PatternMatch>)
    requires
        tg.wf(),
    ensures
        match_views(final(results)@) == match_views(old(results)@) + chain_matches(*tg, tg.interfaces@),
{
    let ghost r0 = match_views(results@);
    let mut i: usize = 0;
    while i < tg.interfaces.len()
        invariant
            tg.wf(),
            i <= tg.interfaces@.len(),
            match_views(results@) == r0 + chain_matches(*tg, tg.interfaces@.subrange(0, i as int)),
        decreases tg.interfaces.len() - i,
    {
        let ghost pre = tg.interfaces@.subrange(0, i + 1);
        assert(pre.drop_last() =~= tg.interfaces@.subrange(0, i as int));
        let it = &tg.interfaces[i];
        let na = non_accessor_methods(&it.methods).len();
        if na >= 2 {
            let ni = tg.concrete_subclasses(it.name.as_str()).len();
            if ni >= 2 {
                let mut d = String::from_str("Interface '");
                d.append(it.name.as_str());
                d.append("' has ");
                let a = decimal_string(na);
                d.append(a.as_str());
                d.append(" methods and ");
                let b = decimal_string(ni);
                d.append(b.as_str());
                d.append(" implementations \u{2014} chain");
                let e1 = labelled_count("methods: ", na);
                let e2 = labelled_count("implementations: ", ni);
                let pm = PatternMatch {
                    pattern: PatternKind::ChainOfResponsibility,
                    class: it.name.clone(),
                    description: d,
                    confidence: 50,
                    participants: one_name(it.name.as_str()),
                    evidence: two_names(e1.as_str(), e2.as_str()),
                };
                push_match(results, pm);
            }
        }
        i = i + 1;
    }
    assert(tg.interfaces@.subrange(0, tg.interfaces@.len() as int) =~= tg.interfaces@);
}

/// Handler interfaces: one action method and two or more concrete
/// implementations.
pub open spec fn cqrs_handlers(tg: TypeGraph) -> Seq<InterfaceInfo> {
    tg.interfaces@.filter(
        |h: InterfaceInfo| non_accessors(h.methods@).len() == 1 && tg.spec_concrete_subclasses(h.name@).len() >= 2,
    )
}

/// Handlers: when two or more handler interfaces exist, each of them.
pub open spec fn handler_matches_in(hs: Seq<InterfaceInfo>, all: Seq<Seq<char>>) -> Seq<MatchView>
    decreases hs.len(),
{
    if hs.len() == 0 {
        Seq::empty()
    } else {
        handler_matches_in(hs.drop_last(), all).push(
            MatchView {
                pattern: PatternKind::Handler,
                class: hs.last().name@,
                description: "'"@ + hs.last().name@ + "' is a handler in a CQRS-style architecture"@,
                confidence: 70,
                participants: all,
                evidence: Seq::empty(),
            },
        )
    }
}

/// The handler matches of a type graph.
pub open spec fn handler_matches(tg: TypeGraph) -> Seq<MatchView> {
    let hs = cqrs_handlers(tg);
    if hs.len() >= 2 {
        handler_matches_in(hs, iface_names(hs))
    } else {
        Seq::empty()
    }
}

fn detect_handler(tg: &TypeGraph, results: &mut Vec<PatternMatch>)
    requires
        tg.wf(),
    ensures
        match_views(final(results)@) == match_views(old(results)@) + handler_matches(*tg),
{
    let mut hs: Vec<&InterfaceInfo> = Vec::new();
    let mut i: usize = 0;
    while i < tg.interfaces.len()
        invariant
            tg.wf(),
            i <= tg.interfaces@.len(),
            hs@.map_values(|x: &InterfaceInfo| *x) == tg.interfaces@.subrange(0, i as int).filter(
                |h: InterfaceInfo| non_accessors(h.methods@).len() == 1 && tg.spec_concrete_subclasses(h.name@).len() >= 2,
            ),
        decreases tg.interfaces.len() - i,
    {
        let ghost pre = tg.interfaces@.subrange(0, i + 1);
        assert(pre.drop_last() =~= tg.interfaces@.subrange(0, i as int));
        reveal(Seq::filter);
        let h = &tg.interfaces[i];
        let ghost before = hs@;
        if non_accessor_methods(&h.methods).len() == 1 && tg.concrete_subclasses(h.name.as_str()).len() >= 2 {
            hs.push(h);
            assert(hs@.map_values(|x: &InterfaceInfo| *x) =~= before.map_values(|x: &InterfaceInfo| *x).push(*h));
        }
        i = i + 1;
    }
    assert(tg.interfaces@.subrange(0, tg.interfaces@.len() as int) =~= tg.interfaces@);
    let ghost hv = hs@.map_values(|x: &InterfaceInfo| *x);
    if hs.len() >= 2 {
        let ghost r0 = match_views(results@);
        let mut k: usize = 0;
        while k < hs.len()
            invariant
                hv == hs@.map_values(|x: &InterfaceInfo| *x),
                k <= hs@.len(),
                match_views(results@) == r0 + handler_matches_in(hv.subrange(0, k as int), iface_names(hv)),
            decreases hs.len() - k,
        {
            let ghost pre = hv.subrange(0, k + 1);
            assert(pre.drop_last() =~= hv.subrange(0, k as int));
            assert(pre.last() == *hs@[k as int]);
            let mut d = String::from_str("'");
            d.append(hs[k].name.as_str());
            d.append("' is a handler in a CQRS-style architecture");
            let pm = PatternMatch {
                pattern: PatternKind::Handler,
                class: hs[k].name.clone(),
                description: d,
                confidence: 70,
                participants: iface_names_of(&hs),
                evidence: Vec::new(),
            };
            assert(string_views(pm.evidence@) =~= Seq::<Seq<char>>::empty());
            push_match(results, pm);
            k = k + 1;
        }
        assert(hv.subrange(0, hv.len() as int) =~= hv);
    }
}

/// Abstract methods.
pub open spec fn abstract_methods(ms: Seq<MethodDescriptor>) -> Seq<MethodDescriptor> {
    ms.filter(|m: MethodDescriptor| m.is_abstract)
}

/// Concrete, non-virtual, non-accessor methods.
pub open spec fn concrete_methods(ms: Seq<MethodDescriptor>) -> Seq<MethodDescriptor> {
    ms.filter(|m: MethodDescriptor| !m.is_abstract && !m.is_virtual && !is_accessor(m.method@))
}

/// Template methods: an abstract class with abstract methods and concrete
/// (non-virtual, non-accessor) ones.
pub open spec fn template_matches(cs: Seq<ClassInfo>) -> Seq<MatchView>
    decreases cs.len(),
{
    if cs.len() == 0 {
        Seq::empty()
    } else {
        let rest = template_matches(cs.drop_last());
        let c = cs.last();
        let am = abstract_methods(c.methods@);
        let cm = concrete_methods(c.methods@);
        if c.is_abstract && am.len() > 0 && cm.len() > 0 {
            rest.push(
                MatchView {
                    pattern: PatternKind::TemplateMethod,
                    class: c.name@,
                    description: "Abstract '"@ + c.name@ + "' has "@ + decimal(am.len()) + " abstract + "@ + decimal(
                        cm.len(),
                    ) + " concrete methods \u{2014} Template Method"@,
                    confidence: 75,
                    participants: seq![c.name@],
                    evidence: seq![
                        "abstract: "@ + joined(method_names(am), ", "@),
                        "concrete: "@ + joined(method_names(cm), ", "@),
                    ],
                },
            )
        } else {
            rest
        }
    }
}

fn abstract_methods_exec<'a>(ms: &'a Vec<MethodDescriptor>) -> (r: Vec<&'a MethodDescriptor>)
    ensures
        r@.map_values(|m: &MethodDescriptor| *m) == abstract_methods(ms@),
{
    let mut r: Vec<&MethodDescriptor> = Vec::new();
    let mut i: usize = 0;
    while i < ms.len()
        invariant
            i <= ms@.len(),
            r@.map_values(|m: &MethodDescriptor| *m) == abstract_methods(ms@.subrange(0, i as int)),
        decreases ms.len() - i,
    {
        let ghost pre = ms@.subrange(0, i + 1);
        assert(pre.drop_last() =~= ms@.subrange(0, i as int));
        reveal(Seq::filter);
        let ghost before = r@;
        if ms[i].is_abstract {
            r.push(&ms[i]);
            assert(r@.map_values(|m: &MethodDescriptor| *m) =~= before.map_values(|m: &MethodDescriptor| *m).push(ms@[i as int]));
        }
        i = i + 1;
    }
    assert(ms@.subrange(0, ms@.len() as int) =~= ms@);
    r
}

fn concrete_methods_exec<'a>(ms: &'a Vec<MethodDescriptor>) -> (r: Vec<&'a MethodDescriptor>)
    ensures
        r@.map_values(|m: &MethodDescriptor| *m) == concrete_methods(ms@),
{
    let mut r: Vec<&MethodDescriptor> = Vec::new();
    let mut i: usize = 0;
    while i < ms.len()
        invariant
            i <= ms@.len(),
            r@.map_values(|m: &MethodDescriptor| *m) == concrete_methods(ms@.subrange(0, i as int)),
        decreases ms.len() - i,
    {
        let ghost pre = ms@.subrange(0, i + 1);
        assert(pre.drop_last() =~= ms@.subrange(0, i as int));
        reveal(Seq::filter);
        let ghost before = r@;
        if !ms[i].is_abstract && !ms[i].is_virtual && !accessor_name(ms[i].method.as_str()) {
            r.push(&ms[i]);
            assert(r@.map_values(|m: &MethodDescriptor| *m) =~= before.map_values(|m: &MethodDescriptor| *m).push(ms@[i as int]));
        }
        i = i + 1;
    }
    assert(ms@.subrange(0, ms@.len() as int) =~= ms@);
    r
}

/// `prefix` followed by the names joined with ", ".
fn labelled_names(prefix: &str, ms: &Vec<&MethodDescriptor>) -> (r: String)
    ensures
        r@ == prefix@ + joined(method_names(ms@.map_values(|m: &MethodDescriptor| *m)), ", "@),
{
    let names = names_of(ms);
    let list = join(&names, ", ");
    let mut s = String::from_str(prefix);
    s.append(list.as_str());
    s
}

fn detect_template_method(tg: &TypeGraph, results: &mut Vec<PatternMatch>)
    ensures
        match_views(final(results)@) == match_views(old(results)@) + template_matches(tg.classes@),
{
    let ghost r0 = match_views(results@);
    let mut i: usize = 0;
    while i < tg.classes.len()
        invariant
            i <= tg.classes@.len(),
            match_views(results@) == r0 + template_matches(tg.classes@.subrange(0, i as int)),
        decreases tg.classes.len() - i,
    {
        let ghost pre = tg.classes@.subrange(0, i + 1);
        assert(pre.drop_last() =~= tg.classes@.subrange(0, i as int));
        let c = &tg.classes[i];
        if c.is_abstract {
            let am = abstract_methods_exec(&c.methods);
            let cm = concrete_methods_exec(&c.methods);
            if am.len() > 0 && cm.len() > 0 {
                let mut d = String::from_str("Abstract '");
                d.append(c.name.as_str());
                d.append("' has ");
                let a = decimal_string(am.len());
                d.append(a.as_str());
                d.append(" abstract + ");
                let b = decimal_string(cm.len());
                d.append(b.as_str());
                d.append(" concrete methods \u{2014} Template Method");
                let e1 = labelled_names("abstract: ", &am);
                let e2 = labelled_names("concrete: ", &cm);
                let pm = PatternMatch {
                    pattern: PatternKind::TemplateMethod,
                    class: c.name.clone(),
                    description: d,
                    confidence: 75,
                    participants: one_name(c.name.as_str()),
                    evidence: two_names(e1.as_str(), e2.as_str()),
                };
                push_match(results, pm);
            }
        }
        i = i + 1;
    }
    assert(tg.classes@.subrange(0, tg.classes@.len() as int) =~= tg.classes@);
}

/// The first interface of `is` other than `comp` with two or more action
/// methods.
pub open spec fn first_visitor(is: Seq<InterfaceInfo>, comp: Seq<char>) -> Option<InterfaceInfo>
    decreases is.len(),
{
    if is.len() == 0 {
        None
    } else if is[0].name@ != comp && non_accessors(is[0].methods@).len() >= 2 {
        Some(is[0])
    } else {
        first_visitor(is.drop_first(), comp)
    }
}

/// Visitors: for an interface with one `void` action method and two or
/// more concrete implementations (the elements), the first other interface
/// with two or more action methods (the visitor).
pub open spec fn visitor_matches(tg: TypeGraph, is: Seq<InterfaceInfo>) -> Seq<MatchView>
    decreases is.len(),
{
    if is.len() == 0 {
        Seq::empty()
    } else {
        let rest = visitor_matches(tg, is.drop_last());
        let comp = is.last();
        let cna = non_accessors(comp.methods@);
        let ni = tg.spec_concrete_subclasses(comp.name@).len();
        if cna.len() == 1 && return_type_spec(cna[0].signature@) == "void"@ && ni >= 2 {
            match first_visitor(tg.interfaces@, comp.name@) {
                Some(v) => rest.push(
                    MatchView {
                        pattern: PatternKind::Visitor,
                        class: v.name@,
                        description: "'"@ + v.name@ + "' has "@ + decimal(non_accessors(v.methods@).len())
                            + " methods over "@ + decimal(ni) + " component types \u{2014} Visitor"@,
                        confidence: 70,
                        participants: seq![v.name@, comp.name@],
                        evidence: method_names(non_accessors(v.methods@)),
                    },
                ),
                None => rest,
            }
        } else {
            rest
        }
    }
}

fn first_visitor_exec<'a>(tg: &'a TypeGraph, comp: &str) -> (r: Option<&'a InterfaceInfo>)
    ensures
        match r {
            Some(v) => first_visitor(tg.interfaces@, comp@) == Some(*v),
            None => first_visitor(tg.interfaces@, comp@) is None,
        },
{
    let mut i: usize = 0;
    assert(tg.interfaces@.subrange(0, tg.interfaces@.len() as int) =~= tg.interfaces@);
    while i < tg.interfaces.len()
        invariant
            i <= tg.interfaces@.len(),
            first_visitor(tg.interfaces@, comp@) == first_visitor(
                tg.interfaces@.subrange(i as int, tg.interfaces@.len() as int),
                comp@,
            ),
        decreases tg.interfaces.len() - i,
    {
        let ghost rest = tg.interfaces@.subrange(i as int, tg.interfaces@.len() as int);
        assert(rest[0] == tg.interfaces@[i as int]);
        assert(rest.drop_first() =~= tg.interfaces@.subrange(i + 1, tg.interfaces@.len() as int));
        let v = &tg.interfaces[i];
        if !str_eq(v.name.as_str(), comp) && non_accessor_methods(&v.methods).len() >= 2 {
            return Some(v);
        }
        i = i + 1;
    }
    None
}

fn detect_visitor(tg: &TypeGraph, results: &mut Vec<PatternMatch>)
    requires
        tg.wf(),
    ensures
        match_views(final(results)@) == match_views(old(results)@) + visitor_matches(*tg, tg.interfaces@),
{
    let ghost r0 = match_views(results@);
    let mut i: usize = 0;
    while i < tg.interfaces.len()
        invariant
            tg.wf(),
            i <= tg.interfaces@.len(),
            match_views(results@) == r0 + visitor_matches(*tg, tg.interfaces@.subrange(0, i as int)),
        decreases tg.interfaces.len() - i,
    {
        let ghost pre = tg.interfaces@.subrange(0, i + 1);
        assert(pre.drop_last() =~= tg.interfaces@.subrange(0, i as int));
        let comp = &tg.interfaces[i];
        let cna = non_accessor_methods(&comp.methods);
        if cna.len() == 1 {
            assert(cna@.map_values(|x: &MethodDescriptor| *x)[0] == *cna@[0]);
            let rt = return_type_of(cna[0]);
            if str_eq(rt.as_str(), "void") {
                let ni = tg.concrete_subclasses(comp.name.as_str()).len();
                if ni >= 2 {
                    match first_visitor_exec(tg, comp.name.as_str()) {
                        Some(v) => {
                            let vna = non_accessor_methods(&v.methods);
                            let mut d = String::from_str("'");
                            d.append(v.name.as_str());
                            d.append("' has ");
                            let a = decimal_string(vna.len());
                            d.append(a.as_str());
                            d.append(" methods over ");
                            let b = decimal_string(ni);
                            d.append(b.as_str());
                            d.append(" component types \u{2014} Visitor");
                            let pm = PatternMatch {
                                pattern: PatternKind::Visitor,
                                class: v.name.clone(),
                                description: d,
                                confidence: 70,
                                participants: two_names(v.name.as_str(), comp.name.as_str()),
                                evidence: names_of(&vna),
                            };
                            push_match(results, pm);
                        },
                        None => {},
                    }
                }
            }
        }
        i = i + 1;
    }
    assert(tg.interfaces@.subrange(0, tg.interfaces@.len() as int) =~= tg.interfaces@);
}

/// Iterators: a class implementing `IEnumerable` or `IEnumerator`.
pub open spec fn iterator_class_matches(cs: Seq<ClassInfo>) -> Seq<MatchView>
    decreases cs.len(),
{
    if cs.len() == 0 {
        Seq::empty()
    } else {
        let rest = iterator_class_matches(cs.drop_last());
        let c = cs.last();
        if names_contain(c.interfaces@, "IEnumerable"@) || names_contain(c.interfaces@, "IEnumerator"@) {
            rest.push(
                MatchView {
                    pattern: PatternKind::Iterator,
                    class: c.name@,
                    description: "'"@ + c.name@ + "' implements IEnumerable/IEnumerator"@,
                    confidence: 95,
                    participants: seq![c.name@],
                    evidence: string_views(c.interfaces@),
                },
            )
        } else {
            rest
        }
    }
}

/// Iterators: the interfaces `IEnumerable` and `IEnumerator` themselves.
pub open spec fn iterator_iface_matches(tg: TypeGraph, is: Seq<InterfaceInfo>) -> Seq<MatchView>
    decreases is.len(),
{
    if is.len() == 0 {
        Seq::empty()
    } else {
        let rest = iterator_iface_matches(tg, is.drop_last());
        let i = is.last();
        if i.name@ == "IEnumerable"@ || i.name@ == "IEnumerator"@ {
            rest.push(
                MatchView {
                    pattern: PatternKind::Iterator,
                    class: i.name@,
                    description: "Interface '"@ + i.name@ + "' with "@ + decimal(
                        tg.spec_concrete_subclasses(i.name@).len(),
                    ) + " implementations"@,
                    confidence: 90,
                    participants: seq![i.name@],
                    evidence: method_names(i.methods@),
                },
            )
        } else {
            rest
        }
    }
}

fn detect_iterator(tg: &TypeGraph, results: &mut Vec<PatternMatch>)
    requires
        tg.wf(),
    ensures
        match_views(final(results)@) == match_views(old(results)@) + iterator_class_matches(tg.classes@)
            + iterator_iface_matches(*tg, tg.interfaces@),
{
    let ghost r0 = match_views(results@);
    let mut i: usize = 0;
    while i < tg.classes.len()
        invariant
            i <= tg.classes@.len(),
            match_views(results@) == r0 + iterator_class_matches(tg.classes@.subrange(0, i as int)),
        decreases tg.classes.len() - i,
    {
        let ghost pre = tg.classes@.subrange(0, i + 1);
        assert(pre.drop_last() =~= tg.classes@.subrange(0, i as int));
        let c = &tg.classes[i];
        if vec_contains_str(&c.interfaces, "IEnumerable") || vec_contains_str(&c.interfaces, "IEnumerator") {
            let mut d = String::from_str("'");
            d.append(c.name.as_str());
            d.append("' implements IEnumerable/IEnumerator");
            let pm = PatternMatch {
                pattern: PatternKind::Iterator,
                class: c.name.clone(),
                description: d,
                confidence: 95,
                participants: one_name(c.name.as_str()),
                evidence: crate::resolve::types::clone_vec(&c.interfaces),
            };
            push_match(results, pm);
        }
        i = i + 1;
    }
    assert(tg.classes@.subrange(0, tg.classes@.len() as int) =~= tg.classes@);
    let ghost r1 = match_views(results@);
    let mut i: usize = 0;
    while i < tg.interfaces.len()
        invariant
            tg.wf(),
            i <= tg.interfaces@.len(),
            match_views(results@) == r1 + iterator_iface_matches(*tg, tg.interfaces@.subrange(0, i as int)),
        decreases tg.interfaces.len() - i,
    {
        let ghost pre = tg.interfaces@.subrange(0, i + 1);
        assert(pre.drop_last() =~= tg.interfaces@.subrange(0, i as int));
        let it = &tg.interfaces[i];
        if str_eq(it.name.as_str(), "IEnumerable") || str_eq(it.name.as_str(), "IEnumerator") {
            let ni = tg.concrete_subclasses(it.name.as_str()).len();
            let mut d = String::from_str("Interface '");
            d.append(it.name.as_str());
            d.append("' with ");
            let a = decimal_string(ni);
            d.append(a.as_str());
            d.append(" implementations");
            let pm = PatternMatch {
                pattern: PatternKind::Iterator,
                class: it.name.clone(),
                description: d,
                confidence: 90,
                participants: one_name(it.name.as_str()),
                evidence: all_names(&it.methods),
            };
            push_match(results, pm);
        }
        i = i + 1;
    }
    assert(tg.interfaces@.subrange(0, tg.interfaces@.len() as int) =~= tg.interfaces@);
}

/// The number of accessors among `ms`.
pub open spec fn accessor_count(ms: Seq<MethodDescriptor>) -> nat {
    ms.filter(|m: MethodDescriptor| is_accessor(m.method@)).len()
}

/// Mementos: a concrete, non-static class with one to six methods, all of
/// them accessors.
pub open spec fn memento_matches(cs: Seq<ClassInfo>) -> Seq<MatchView>
    decreases cs.len(),
{
    if cs.len() == 0 {
        Seq::empty()
    } else {
        let rest = memento_matches(cs.drop_last());
        let c = cs.last();
        let total = c.methods@.len();
        if !c.is_abstract && !c.is_static && total > 0 && accessor_count(c.methods@) == total && total <= 6 {
            rest.push(
                MatchView {
                    pattern: PatternKind::Memento,
                    class: c.name@,
                    description: "'"@ + c.name@ + "' has only property accessors \u{2014} state snapshot"@,
                    confidence: 40,
                    participants: seq![c.name@],
                    evidence: method_names(c.methods@),
                },
            )
        } else {
            rest
        }
    }
}

fn accessor_count_exec(ms: &Vec<MethodDescriptor>) -> (r: usize)
    ensures
        r == accessor_count(ms@),
{
    let mut n: usize = 0;
    let mut i: usize = 0;
    while i < ms.len()
        invariant
            i <= ms@.len(),
            n == ms@.subrange(0, i as int).filter(|m: MethodDescriptor| is_accessor(m.method@)).len(),
            n <= i,
        decreases ms.len() - i,
    {
        let ghost pre = ms@.subrange(0, i + 1);
        assert(pre.drop_last() =~= ms@.subrange(0, i as int));
        reveal(Seq::filter);
        if accessor_name(ms[i].method.as_str()) {
            n = n + 1;
        }
        i = i + 1;
    }
    assert(ms@.subrange(0, ms@.len() as int) =~= ms@);
    n
}

fn detect_memento(tg: &TypeGraph, results: &mut Vec<PatternMatch>)
    ensures
        match_views(final(results)@) == match_views(old(results)@) + memento_matches(tg.classes@),
{
    let ghost r0 = match_views(results@);
    let mut i: usize = 0;
    while i < tg.classes.len()
        invariant
            i <= tg.classes@.len(),
            match_views(results@) == r0 + memento_matches(tg.classes@.subrange(0, i as int)),
        decreases tg.classes.len() - i,
    {
        let ghost pre = tg.classes@.subrange(0, i + 1);
        assert(pre.drop_last() =~= tg.classes@.subrange(0, i as int));
        let c = &tg.classes[i];
        if !c.is_abstract && !c.is_static {
            let total = c.methods.len();
            if total > 0 && accessor_count_exec(&c.methods) == total && total <= 6 {
                let mut d = String::from_str("'");
                d.append(c.name.as_str());
                d.append("' has only property accessors \u{2014} state snapshot");
                let pm = PatternMatch {
                    pattern: PatternKind::Memento,
                    class: c.name.clone(),
                    description: d,
                    confidence: 40,
                    participants: one_name(c.name.as_str()),
                    evidence: all_names(&c.methods),
                };
                push_match(results, pm);
            }
        }
        i = i + 1;
    }
    assert(tg.classes@.subrange(0, tg.classes@.len() as int) =~= tg.classes@);
}

/// Interpreters: an interface with one action method returning something
/// (not `void`) and two or more concrete implementations.
pub open spec fn interpreter_matches(tg: TypeGraph, is: Seq<InterfaceInfo>) -> Seq<MatchView>
    decreases is.len(),
{
    if is.len() == 0 {
        Seq::empty()
    } else {
        let rest = interpreter_matches(tg, is.drop_last());
        let i = is.last();
        let na = non_accessors(i.methods@);
        let ni = tg.spec_concrete_subclasses(i.name@).len();
        if na.len() == 1 && ni >= 2 && return_type_spec(na[0].signature@) != "void"@ {
            rest.push(
                MatchView {
                    pattern: PatternKind::Interpreter,
                    class: i.name@,
                    description: "Interface '"@ + i.name@ + "' with "@ + decimal(ni)
                        + " expression types \u{2014} Interpreter"@,
                    confidence: 80,
                    participants: seq![i.name@],
                    evidence: seq!["method: "@ + na[0].method@, "implementations: "@ + decimal(ni)],
                },
            )
        } else {
            rest
        }
    }
}

fn detect_interpreter(tg: &TypeGraph, results: &mut Vec<PatternMatch>)
    requires
        tg.wf(),
    ensures
        match_views(final(results)@) == match_views(old(results)@) + interpreter_matches(*tg, tg.interfaces@),
{
    let ghost r0 = match_views(results@);
    let mut i: usize = 0;
    while i < tg.interfaces.len()
        invariant
            tg.wf(),
            i <= tg.interfaces@.len(),
            match_views(results@) == r0 + interpreter_matches(*tg, tg.interfaces@.subrange(0, i as int)),
        decreases tg.interfaces.len() - i,
    {
        let ghost pre = tg.interfaces@.subrange(0, i + 1);
        assert(pre.drop_last() =~= tg.interfaces@.subrange(0, i as int));
        let it = &tg.interfaces[i];
        let na = non_accessor_methods(&it.methods);
        if na.len() == 1 {
            assert(na@.map_values(|x: &MethodDescriptor| *x)[0] == *na@[0]);
            let ni = tg.concrete_subclasses(it.name.as_str()).len();
            if ni >= 2 {
                let rt = return_type_of(na[0]);
                if !str_eq(rt.as_str(), "void") {
                    let mut d = String::from_str("Interface '");
                    d.append(it.name.as_str());
                    d.append("' with ");
                    let a = decimal_string(ni);
                    d.append(a.as_str());
                    d.append(" expression types \u{2014} Interpreter");
                    let mut e1 = String::from_str("method: ");
                    e1.append(na[0].method.as_str());
                    let e2 = labelled_count("implementations: ", ni);
                    let pm = PatternMatch {
                        pattern: PatternKind::Interpreter,
                        class: it.name.clone(),
                        description: d,
                        confidence: 80,
                        participants: one_name(it.name.as_str()),
                        evidence: two_names(e1.as_str(), e2.as_str()),
                    };
                    push_match(results, pm);
                }
            }
        }
        i = i + 1;
    }
    assert(tg.interfaces@.subrange(0, tg.interfaces@.len() as int) =~= tg.interfaces@);
}

/// All behavioral matches, detector by detector.
pub open spec fn behavioral_matches(cg: Option<CallGraph>, tg: TypeGraph) -> Seq<MatchView> {
    scs_matches(cg, tg, tg.interfaces@) + observer_iface_matches(tg, tg.interfaces@) + observer_class_matches(
        tg.classes@,
    ) + mediator_matches(tg, tg.interfaces@) + dotnet_mediator_matches(tg, tg.interfaces@) + chain_matches(
        tg,
        tg.interfaces@,
    ) + handler_matches(tg) + template_matches(tg.classes@) + visitor_matches(tg, tg.interfaces@)
        + iterator_class_matches(tg.classes@) + iterator_iface_matches(tg, tg.interfaces@) + memento_matches(
        tg.classes@,
    ) + interpreter_matches(tg, tg.interfaces@)
}

/// Behavioral patterns of the context: Strategy/Command/State, Observer,
/// Mediator, .NET mediator, Chain of Responsibility, Handler, Template
/// Method, Visitor, Iterator, Memento and Interpreter, in that order.
pub fn detect_behavioral(ctx: &DetectionContext) -> (r: Vec<PatternMatch>)
    requires
        ctx.type_graph.wf(),
        signatures_ordered(*ctx.type_graph),
    ensures
        match_views(r@) == behavioral_matches(ctx_cg(*ctx), *ctx.type_graph),
{
    let tg = ctx.type_graph;
    let mut results: Vec<PatternMatch> = Vec::new();
    assert(match_views(results@) =~= Seq::<MatchView>::empty());
    detect_strategy_or_command_or_state(ctx, &mut results);
    detect_observer(tg, &mut results);
    detect_mediator(tg, &mut results);
    detect_dotnet_mediator(tg, &mut results);
    detect_chain_of_responsibility(tg, &mut results);
    detect_handler(tg, &mut results);
    detect_template_method(tg, &mut results);
    detect_visitor(tg, &mut results);
    detect_iterator(tg, &mut results);
    detect_memento(tg, &mut results);
    detect_interpreter(tg, &mut results);
    assert(match_views(results@) =~= behavioral_matches(ctx_cg(*ctx), *tg));
    results
}

/// Interface `i` has exactly one method besides property accessors, named
/// `m`, and two or more concrete implementations in `tg`.
pub open spec fn single_method_iface(tg: TypeGraph, i: InterfaceInfo, m: Seq<char>) -> bool {
    &&& non_accessors(i.methods@).len() == 1
    &&& non_accessors(i.methods@)[0].method@ == m
    &&& tg.spec_concrete_subclasses(i.name@).len() >= 2
}

proof fn lemma_scs_has(cg: Option<CallGraph>, tg: TypeGraph, is: Seq<InterfaceInfo>, x: int, m: Seq<char>)
    requires
        0 <= x < is.len(),
        single_method_iface(tg, is[x], m),
    ensures
        exists|k: int|
            0 <= k < scs_matches(cg, tg, is).len() && (#[trigger] scs_matches(cg, tg, is)[k]).class == is[x].name@
                && (scs_matches(cg, tg, is)[k].pattern, scs_matches(cg, tg, is)[k].confidence, scs_matches(
                cg,
                tg,
                is,
            )[k].evidence) == scs_verdict(cg, tg, is[x].name@, tg.spec_concrete_subclasses(is[x].name@), m),
    decreases is.len(),
{
    let rest = scs_matches(cg, tg, is.drop_last());
    let v = scs_verdict(cg, tg, is[x].name@, tg.spec_concrete_subclasses(is[x].name@), m);
    if x < is.len() - 1 {
        assert(is.drop_last()[x] == is[x]);
        lemma_scs_has(cg, tg, is.drop_last(), x, m);
        let k = choose|k: int|
            0 <= k < rest.len() && (#[trigger] rest[k]).class == is[x].name@ && (rest[k].pattern, rest[k].confidence, rest[k].evidence) == v;
        assert(scs_matches(cg, tg, is)[k] == rest[k]);
    } else {
        assert(is.last() == is[x]);
        let k = rest.len() as int;
        assert(scs_matches(cg, tg, is)[k].class == is[x].name@);
    }
}

/// Command names decide single-method interfaces: an interface with one
/// method (besides accessors) and two or more concrete implementations
/// gets a behavioral match; without a call graph it is a Command match of
/// confidence 55 with evidence "command name" when the method is named
/// `Execute`, `Run` or `Handle`, and a Strategy match otherwise (70 when
/// a class other than the implementations has a method whose parameters
/// mention the interface, 90 when none has). With a
/// call graph such a command-named method never makes a Strategy.
pub proof fn law_command_names(cg: Option<CallGraph>, tg: TypeGraph, x: int, m: Seq<char>)
    requires
        0 <= x < tg.interfaces@.len(),
        single_method_iface(tg, tg.interfaces@[x], m),
    ensures
        exists|k: int|
            0 <= k < behavioral_matches(cg, tg).len() && (#[trigger] behavioral_matches(cg, tg)[k]).class
                == tg.interfaces@[x].name@ && (cg is None && (m == "Execute"@ || m == "Run"@ || m == "Handle"@)
                ==> behavioral_matches(cg, tg)[k].pattern == PatternKind::Command
                && behavioral_matches(cg, tg)[k].confidence == 55 && behavioral_matches(cg, tg)[k].evidence
                == seq!["command name"@]) && (cg is None && !(m == "Execute"@ || m == "Run"@ || m == "Handle"@)
                ==> behavioral_matches(cg, tg)[k].pattern == PatternKind::Strategy
                && behavioral_matches(cg, tg)[k].confidence == if param_context(
                tg,
                tg.spec_concrete_subclasses(tg.interfaces@[x].name@),
                tg.interfaces@[x].name@,
            ) {
                70u32
            } else {
                90u32
            }) && ((m == "Execute"@ || m
                == "Run"@ || m == "Handle"@) ==> behavioral_matches(cg, tg)[k].pattern == PatternKind::Command
                || behavioral_matches(cg, tg)[k].pattern == PatternKind::State),
{
    let is = tg.interfaces@;
    lemma_scs_has(cg, tg, is, x, m);
    let s = scs_matches(cg, tg, is);
    let k = choose|k: int|
        0 <= k < s.len() && (#[trigger] s[k]).class == is[x].name@ && (s[k].pattern, s[k].confidence, s[k].evidence)
            == scs_verdict(cg, tg, is[x].name@, tg.spec_concrete_subclasses(is[x].name@), m);
    let all = behavioral_matches(cg, tg);
    assert(all[k] == s[k]);
}

} // verus!
