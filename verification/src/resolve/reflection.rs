//! Reflection call resolution: `typeof(Foo).GetMethod(..)`,
//! `Activator.CreateInstance(typeof(Foo))` and the like.

use vstd::prelude::*;
use crate::text::{str_eq, starts_with_char, ends_with_char};
use crate::parse::syntax::{SyntaxTree, field_child, field_text, child_by_field, field_text_of, is_kind, text_view};
use crate::parse::parser::{parse_source, parsed_from};
use crate::resolve::symbols::{first_of_kind, first_of_kind_exec};
use crate::resolve::direct::{DirectTarget, classified_as};
use crate::resolve::types::{
    CallSite, CallTarget, Confidence, MethodDescriptor, ReflectionPattern, TypeGraph,
};

verus! {

/// A string literal's text: quoted at both ends.
pub open spec fn is_quoted(a: Seq<char>) -> bool {
    a.len() >= 2 && a[0] == '"' && a[a.len() - 1] == '"'
}

/// The reflection pattern of node `i`, as (type, member name, whether the
/// name is a string literal): `typeof(T).GetMethod(a, ..)` (or
/// `GetProperty`) whose first argument has text `a`; the quotes of a
/// literal are taken off.
pub open spec fn pattern_at(t: SyntaxTree, i: int) -> Option<(Seq<char>, Seq<char>, bool)> {
    if t.kind_of(i) != "invocation_expression"@ {
        None
    } else {
        match field_child(t, i, "function"@) {
            None => None,
            Some(f) => match typeof_chain(t, f as int) {
                Some(DirectTarget::Static { class, .. }) => match field_child(t, i, "arguments"@) {
                    None => None,
                    Some(args) => match first_of_kind(t, t.children_of(args as int), "argument"@) {
                        None => None,
                        Some(a) => match text_view(t.nodes@[a as int].text) {
                            None => None,
                            Some(x) => if is_quoted(x) {
                                Some((class, x.subrange(1, x.len() - 1), true))
                            } else {
                                Some((class, x, false))
                            },
                        },
                    },
                },
                _ => None,
            },
        }
    }
}

/// The patterns of the nodes below `k`, in node order.
pub open spec fn patterns_upto(t: SyntaxTree, k: int) -> Seq<(Seq<char>, Seq<char>, bool)>
    decreases k,
{
    if k <= 0 {
        Seq::empty()
    } else {
        patterns_upto(t, k - 1) + match pattern_at(t, k - 1) {
            Some(p) => seq![p],
            None => Seq::empty(),
        }
    }
}

/// Patterns as (type, member name, static string).
pub open spec fn pattern_views(ps: Seq<ReflectionPattern>) -> Seq<(Seq<char>, Seq<char>, bool)> {
    ps.map_values(|p: ReflectionPattern| (p.target_type@, p.method_name@, p.is_static_string))
}

fn pattern_at_exec(t: &SyntaxTree, i: usize) -> (r: Option<ReflectionPattern>)
    requires
        t.wf(),
        i < t.nodes@.len(),
    ensures
        match r {
            Some(p) => pattern_at(*t, i as int) == Some((p.target_type@, p.method_name@, p.is_static_string)),
            None => pattern_at(*t, i as int) is None,
        },
{
    if !is_kind(t, i, "invocation_expression") {
        return None;
    }
    let f = match child_by_field(t, i, "function") {
        Some(f) => f,
        None => {
            return None;
        },
    };
    let ty = match check_typeof_chain(t, f) {
        Some(CallTarget::Static { class, .. }) => class,
        _ => {
            return None;
        },
    };
    let args = match child_by_field(t, i, "arguments") {
        Some(a) => a,
        None => {
            return None;
        },
    };
    let a = match first_of_kind_exec(t, args, "argument") {
        Some(a) => a,
        None => {
            return None;
        },
    };
    let x = match &t.nodes[a].text {
        Some(x) => x.as_str(),
        None => {
            return None;
        },
    };
    let n = x.unicode_len();
    if n >= 2 && x.get_char(0) == '"' && x.get_char(n - 1) == '"' {
        Some(ReflectionPattern {
            target_type: ty,
            method_name: String::from_str(x.substring_char(1, n - 1)),
            is_static_string: true,
        })
    } else {
        Some(ReflectionPattern { target_type: ty, method_name: String::from_str(x), is_static_string: false })
    }
}

/// The reflection patterns of a syntax tree, in node order (see
/// `pattern_at`).
pub fn scan_tree_reflection(t: &SyntaxTree) -> (r: Vec<ReflectionPattern>)
    requires
        t.wf(),
    ensures
        pattern_views(r@) == patterns_upto(*t, t.nodes@.len() as int),
{
    let mut r: Vec<ReflectionPattern> = Vec::new();
    let mut i: usize = 0;
    assert(pattern_views(r@) =~= patterns_upto(*t, 0));
    while i < t.nodes.len()
        invariant
            t.wf(),
            i <= t.nodes@.len(),
            pattern_views(r@) == patterns_upto(*t, i as int),
        decreases t.nodes.len() - i,
    {
        let ghost before = pattern_views(r@);
        match pattern_at_exec(t, i) {
            Some(p) => {
                let ghost x = (p.target_type@, p.method_name@, p.is_static_string);
                r.push(p);
                assert(pattern_views(r@) =~= before.push(x));
            },
            None => {},
        }
        assert(pattern_views(r@) =~= patterns_upto(*t, i + 1));
        i = i + 1;
    }
    r
}

/// Scan a source for reflection patterns: `typeof(Foo).GetMethod("Bar")`
/// and the like, in node order (see `scan_tree_reflection`).
pub fn scan_reflection(source: &str, _type_graph: &TypeGraph) -> (r: Vec<ReflectionPattern>)
    ensures
        exists|t: SyntaxTree| t.wf() && parsed_from(t, source@) && pattern_views(r@) == patterns_upto(t, t.nodes@.len() as int),
{
    match parse_source(source) {
        Ok(t) => scan_tree_reflection(&t),
        Err(_) => Vec::new(),
    }
}

/// A method name given as a string literal or through `nameof`.
pub open spec fn spec_is_compile_time_string(name: Option<Seq<char>>) -> bool {
    match name {
        Some(n) => (n.len() > 0 && n[0] == '"' && n[n.len() - 1] == '"') || n == "nameof"@,
        None => false,
    }
}

/// Is a method name a compile-time constant (string literal or nameof)?
pub fn is_compile_time_string(name: Option<&str>) -> (r: bool)
    ensures
        r == spec_is_compile_time_string(
            match name {
                Some(n) => Some(n@),
                None => None,
            },
        ),
{
    match name {
        Some(n) => (starts_with_char(n, '"') && ends_with_char(n, '"')) || str_eq(n, "nameof"),
        None => false,
    }
}

/// Reflection members whose target type is known from the call.
pub open spec fn is_reflection_member(m: Seq<char>) -> bool {
    m == "GetMethod"@ || m == "GetProperty"@ || m == "GetField"@ || m == "CreateInstance"@
}

/// Resolve a reflection-based call. The method name is not known from the
/// call site, so the confidence is `DynamicString`; the type, when named,
/// is the one resolved entry.
pub fn resolve_reflection(
    target: &CallTarget,
    caller: &str,
    _type_graph: &TypeGraph,
    _patterns: &[ReflectionPattern],
) -> (r: Vec<CallSite>)
    ensures
        match *target {
            CallTarget::Static { class, method } => if is_reflection_member(method@) {
                &&& r@.len() == 1
                &&& r@[0].caller@ == caller@
                &&& r@[0].target == *target
                &&& r@[0].confidence == Confidence::DynamicString
                &&& if class@.len() == 0 {
                    r@[0].resolved@.len() == 0
                } else {
                    &&& r@[0].resolved@.len() == 1
                    &&& r@[0].resolved@[0].class@ == class@
                    &&& r@[0].resolved@[0].method@.len() == 0
                    &&& r@[0].resolved@[0].signature@.len() == 0
                    &&& r@[0].resolved@[0].file@.len() == 0
                    &&& !r@[0].resolved@[0].is_static && !r@[0].resolved@[0].is_virtual
                    &&& !r@[0].resolved@[0].is_abstract
                    &&& r@[0].resolved@[0].line_start == 0 && r@[0].resolved@[0].line_end == 0
                }
            } else {
                r@.len() == 0
            },
            _ => r@.len() == 0,
        },
{
    let (ty_name, method_name): (&str, Option<&str>) = match target {
        CallTarget::Static { class, method } => {
            let m = method.as_str();
            if str_eq(m, "GetMethod") || str_eq(m, "GetProperty") || str_eq(m, "GetField") {
                (class.as_str(), None)
            } else if str_eq(m, "CreateInstance") {
                (class.as_str(), None)
            } else {
                return Vec::new();
            }
        },
        _ => {
            return Vec::new();
        },
    };
    let confidence = if is_compile_time_string(method_name) {
        Confidence::Reflection
    } else {
        Confidence::DynamicString
    };
    proof {
        reveal_strlit("");
    }
    let resolved = if ty_name.unicode_len() != 0 {
        vec![MethodDescriptor {
            class: String::from_str(ty_name),
            method: String::new(),
            signature: String::new(),
            is_static: false,
            is_virtual: false,
            is_abstract: false,
            file: String::new(),
            line_start: 0,
            line_end: 0,
        }]
    } else {
        Vec::new()
    };
    vec![CallSite { caller: String::from_str(caller), target: target.clone(), confidence, resolved }]
}

/// `typeof(T).GetMethod` or `typeof(T).GetProperty` as a callee: the
/// static target `T.GetMethod` (or `T.GetProperty`).
pub open spec fn typeof_chain(t: SyntaxTree, f: int) -> Option<DirectTarget> {
    if t.kind_of(f) != "member_access_expression"@ {
        None
    } else {
        match field_text(t, f, "name"@) {
            None => None,
            Some(name) => if name != "GetMethod"@ && name != "GetProperty"@ {
                None
            } else {
                match field_child(t, f, "expression"@) {
                    None => None,
                    Some(e) => if t.kind_of(e as int) != "typeof_expression"@ {
                        None
                    } else {
                        match field_text(t, e as int, "type"@) {
                            Some(ty) => Some(DirectTarget::Static { class: ty, method: name }),
                            None => None,
                        }
                    },
                }
            },
        }
    }
}

/// The reflection call an invocation node makes: a `typeof(T)` chain, or
/// `Activator.CreateInstance` whose first argument child is `typeof(T)`.
pub open spec fn reflection_target(t: SyntaxTree, i: int) -> Option<DirectTarget> {
    if t.kind_of(i) != "invocation_expression"@ {
        None
    } else {
        match field_child(t, i, "function"@) {
            None => None,
            Some(f) => match typeof_chain(t, f as int) {
                Some(d) => Some(d),
                None => if t.kind_of(f as int) == "member_access_expression"@ && field_text(t, f as int, "expression"@)
                    == Some("Activator"@) && field_text(t, f as int, "name"@) == Some("CreateInstance"@) {
                    match field_child(t, i, "arguments"@) {
                        Some(a) => if t.children_of(a as int).len() > 0 && t.kind_of(t.children_of(a as int)[0] as int)
                            == "typeof_expression"@ {
                            match field_text(t, t.children_of(a as int)[0] as int, "type"@) {
                                Some(ty) => Some(DirectTarget::Static { class: ty, method: "CreateInstance"@ }),
                                None => None,
                            }
                        } else {
                            None
                        },
                        None => None,
                    }
                } else {
                    None
                },
            },
        }
    }
}

fn check_typeof_chain(t: &SyntaxTree, f: usize) -> (r: Option<CallTarget>)
    requires
        t.wf(),
        f < t.nodes@.len(),
    ensures
        classified_as(r, typeof_chain(*t, f as int)),
{
    if !is_kind(t, f, "member_access_expression") {
        return None;
    }
    let name = match field_text_of(t, f, "name") {
        Some(n) => n,
        None => {
            return None;
        },
    };
    if !str_eq(name.as_str(), "GetMethod") && !str_eq(name.as_str(), "GetProperty") {
        return None;
    }
    let e = match child_by_field(t, f, "expression") {
        Some(e) => e,
        None => {
            return None;
        },
    };
    if !is_kind(t, e, "typeof_expression") {
        return None;
    }
    match field_text_of(t, e, "type") {
        Some(ty) => Some(CallTarget::Static { class: ty, method: name }),
        None => None,
    }
}

fn text_equals(s: &Option<String>, x: &str) -> (r: bool)
    ensures
        r == (match s {
            Some(v) => v@ == x@,
            None => false,
        }),
{
    match s {
        Some(v) => str_eq(v.as_str(), x),
        None => false,
    }
}

/// Classify an invocation node as a reflection call (see
/// `reflection_target`).
pub fn classify_reflection(t: &SyntaxTree, i: usize) -> (r: Option<CallTarget>)
    requires
        t.wf(),
        i < t.nodes@.len(),
    ensures
        classified_as(r, reflection_target(*t, i as int)),
{
    if !is_kind(t, i, "invocation_expression") {
        return None;
    }
    let f = match child_by_field(t, i, "function") {
        Some(f) => f,
        None => {
            return None;
        },
    };
    match check_typeof_chain(t, f) {
        Some(c) => {
            return Some(c);
        },
        None => {},
    }
    if is_kind(t, f, "member_access_expression") {
        let expr = field_text_of(t, f, "expression");
        let name = field_text_of(t, f, "name");
        if text_equals(&expr, "Activator") && text_equals(&name, "CreateInstance") {
            match child_by_field(t, i, "arguments") {
                Some(a) => {
                    if t.nodes[a].children.len() > 0 {
                        let arg = t.nodes[a].children[0];
                        assert(t.nodes@[a as int].children@[0] < a);
                        if is_kind(t, arg, "typeof_expression") {
                            return match field_text_of(t, arg, "type") {
                                Some(ty) => Some(
                                    CallTarget::Static { class: ty, method: String::from_str("CreateInstance") },
                                ),
                                None => None,
                            };
                        }
                    }
                },
                None => {},
            }
        }
    }
    None
}

} // verus!
