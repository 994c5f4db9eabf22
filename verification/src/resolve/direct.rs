//! Direct call resolution: static and non-virtual instance calls, whose
//! target is known at compile time and resolved with `Direct` confidence.

use vstd::prelude::*;
use crate::text::{uppercase, is_upper};
use crate::parse::syntax::{SyntaxTree, text_view, field_child, field_text, child_by_field, field_text_of, is_kind};
use crate::resolve::types::{CallSite, CallTarget, Confidence, MethodDescriptor};
use crate::resolve::symbols::SymbolTable;

verus! {

/// What a direct call names: a static `Class.Method` or an instance `Method`.
pub enum DirectTarget {
    Static { class: Seq<char>, method: Seq<char> },
    Instance { method: Seq<char> },
}

/// Whether `c` is the call target that `d` describes.
pub open spec fn target_is(c: CallTarget, d: DirectTarget) -> bool {
    match d {
        DirectTarget::Static { class, method } => c matches CallTarget::Static { class: cc, method: cm }
            && cc@ == class && cm@ == method,
        DirectTarget::Instance { method } => c matches CallTarget::Instance { method: cm } && cm@ == method,
    }
}

/// Whether a name starts with an uppercase character (the heuristic for a
/// static class receiver).
pub open spec fn starts_upper(s: Seq<char>) -> bool {
    s.len() > 0 && uppercase(s[0])
}

/// The target named by the `function` part of an invocation: an identifier
/// is an instance call; `X.M` is a static call when `X` is an identifier
/// starting with an uppercase character, otherwise an instance call of `M`.
pub open spec fn function_target(t: SyntaxTree, f: int) -> Option<DirectTarget> {
    if t.kind_of(f) == "identifier"@ {
        match text_view(t.nodes@[f].text) {
            Some(name) => Some(DirectTarget::Instance { method: name }),
            None => None,
        }
    } else if t.kind_of(f) == "member_access_expression"@ {
        match field_text(t, f, "name"@) {
            None => None,
            Some(method) => match field_child(t, f, "expression"@) {
                None => None,
                Some(e) => if t.kind_of(e as int) == "identifier"@ {
                    match text_view(t.nodes@[e as int].text) {
                        None => None,
                        Some(receiver) => if starts_upper(receiver) {
                            Some(DirectTarget::Static { class: receiver, method })
                        } else {
                            Some(DirectTarget::Instance { method })
                        },
                    }
                } else {
                    Some(DirectTarget::Instance { method })
                },
            },
        }
    } else {
        None
    }
}

/// The target of a call node: an invocation goes by its `function` child;
/// an object creation `new T(..)` is the static constructor call `T..ctor`.
pub open spec fn call_target(t: SyntaxTree, i: int) -> Option<DirectTarget> {
    if t.kind_of(i) == "invocation_expression"@ {
        match field_child(t, i, "function"@) {
            Some(f) => function_target(t, f as int),
            None => None,
        }
    } else if t.kind_of(i) == "object_creation_expression"@ {
        match field_text(t, i, "type"@) {
            Some(class) => Some(DirectTarget::Static { class, method: ".ctor"@ }),
            None => None,
        }
    } else {
        None
    }
}

/// Whether `r` is the classification that `d` describes.
pub open spec fn classified_as(r: Option<CallTarget>, d: Option<DirectTarget>) -> bool {
    match d {
        None => r is None,
        Some(d) => r matches Some(c) && target_is(c, d),
    }
}

fn function_target_exec(t: &SyntaxTree, f: usize) -> (r: Option<CallTarget>)
    requires
        t.wf(),
        f < t.nodes@.len(),
    ensures
        classified_as(r, function_target(*t, f as int)),
{
    if is_kind(t, f, "identifier") {
        match &t.nodes[f].text {
            Some(name) => Some(CallTarget::Instance { method: name.clone() }),
            None => None,
        }
    } else if is_kind(t, f, "member_access_expression") {
        let method = match field_text_of(t, f, "name") {
            Some(m) => m,
            None => {
                return None;
            },
        };
        let e = match child_by_field(t, f, "expression") {
            Some(e) => e,
            None => {
                return None;
            },
        };
        if is_kind(t, e, "identifier") {
            match &t.nodes[e].text {
                None => None,
                Some(receiver) => {
                    let upper = if receiver.unicode_len() > 0 {
                        is_upper(receiver.as_str().get_char(0))
                    } else {
                        false
                    };
                    if upper {
                        Some(CallTarget::Static { class: receiver.clone(), method })
                    } else {
                        Some(CallTarget::Instance { method })
                    }
                },
            }
        } else {
            Some(CallTarget::Instance { method })
        }
    } else {
        None
    }
}

/// Classify a call node (an invocation or an object creation) into a call
/// target, as `call_target` describes.
pub fn classify_call(t: &SyntaxTree, i: usize) -> (r: Option<CallTarget>)
    requires
        t.wf(),
        i < t.nodes@.len(),
    ensures
        classified_as(r, call_target(*t, i as int)),
{
    if is_kind(t, i, "invocation_expression") {
        match child_by_field(t, i, "function") {
            Some(f) => function_target_exec(t, f),
            None => None,
        }
    } else if is_kind(t, i, "object_creation_expression") {
        match field_text_of(t, i, "type") {
            Some(class) => Some(CallTarget::Static { class, method: String::from_str(".ctor") }),
            None => None,
        }
    } else {
        None
    }
}

/// The call site that direct resolution gives for a target: one resolved
/// method (the static class, or an empty class for an instance call) with
/// `Direct` confidence.
pub open spec fn direct_site(s: CallSite, caller: Seq<char>, d: DirectTarget) -> bool {
    &&& s.caller@ == caller
    &&& target_is(s.target, d)
    &&& s.confidence == Confidence::Direct
    &&& s.resolved@.len() == 1
    &&& s.resolved@[0].class@ == (match d {
        DirectTarget::Static { class, .. } => class,
        DirectTarget::Instance { .. } => Seq::<char>::empty(),
    })
    &&& s.resolved@[0].method@ == (match d {
        DirectTarget::Static { method, .. } => method,
        DirectTarget::Instance { method } => method,
    })
    &&& s.resolved@[0].is_static == (d is Static)
    &&& s.resolved@[0].signature@ == Seq::<char>::empty()
    &&& s.resolved@[0].file@ == Seq::<char>::empty()
    &&& !s.resolved@[0].is_virtual && !s.resolved@[0].is_abstract
    &&& s.resolved@[0].line_start == 0 && s.resolved@[0].line_end == 0
}

/// Resolve a call node directly: `None` where the node is no classifiable
/// call, otherwise the direct call site of its target.
pub fn resolve_direct(t: &SyntaxTree, i: usize, caller: &str, _symbols: &SymbolTable) -> (r: Option<CallSite>)
    requires
        t.wf(),
        i < t.nodes@.len(),
    ensures
        match call_target(*t, i as int) {
            None => r is None,
            Some(d) => r matches Some(s) && direct_site(s, caller@, d),
        },
{
    let target = match classify_call(t, i) {
        Some(target) => target,
        None => {
            return None;
        },
    };
    let (class, method, is_static) = match &target {
        CallTarget::Static { class, method } => (class.clone(), method.clone(), true),
        CallTarget::Instance { method } => (String::new(), method.clone(), false),
        _ => {
            return None;
        },
    };
    proof {
        reveal_strlit("");
    }
    let resolved = vec![MethodDescriptor {
        class,
        method,
        signature: String::new(),
        is_static,
        is_virtual: false,
        is_abstract: false,
        file: String::new(),
        line_start: 0,
        line_end: 0,
    }];
    Some(CallSite { caller: String::from_str(caller), target, confidence: Confidence::Direct, resolved })
}

} // verus!
