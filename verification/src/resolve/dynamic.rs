//! C# `dynamic` / DLR calls: no static resolution is possible; the call
//! site is kept with `Unknown` confidence for tracking.

use vstd::prelude::*;
use crate::resolve::types::{CallSite, CallTarget, Confidence};
use crate::resolve::factory::single_empty_site;
use crate::parse::syntax::{SyntaxTree, text_view, field_child, child_by_field, is_kind};
use crate::text::str_eq;

verus! {

/// Resolve a dynamic call: always one call site marked `Unknown`.
pub fn resolve_dynamic(target: &CallTarget, caller: &str) -> (r: Vec<CallSite>)
    ensures
        single_empty_site(r@, caller@, *target, Confidence::Unknown),
{
    vec![CallSite {
        caller: String::from_str(caller),
        target: target.clone(),
        confidence: Confidence::Unknown,
        resolved: Vec::new(),
    }]
}

/// Whether node `i` is the identifier `dynamic` or has one below it.
pub open spec fn names_dynamic(t: SyntaxTree, i: int) -> bool
    decreases i, 1nat, 0nat,
    when 0 <= i
{
    (t.kind_of(i) == "identifier"@ && text_view(t.nodes@[i].text) == Some("dynamic"@)) || dynamic_in(
        t,
        t.children_of(i),
        i,
    )
}

/// Whether one of the nodes `cs` (children of node `bound`) names `dynamic`.
pub open spec fn dynamic_in(t: SyntaxTree, cs: Seq<usize>, bound: int) -> bool
    decreases bound, 0nat, cs.len(),
    when 0 <= bound
{
    if cs.len() == 0 {
        false
    } else {
        dynamic_in(t, cs.drop_last(), bound) || (cs.last() < bound && names_dynamic(t, cs.last() as int))
    }
}

fn names_dynamic_exec(t: &SyntaxTree, i: usize) -> (r: bool)
    requires
        t.wf(),
        i < t.nodes@.len(),
    ensures
        r == names_dynamic(*t, i as int),
    decreases i,
{
    if is_kind(t, i, "identifier") {
        match &t.nodes[i].text {
            Some(x) => {
                if str_eq(x.as_str(), "dynamic") {
                    return true;
                }
            },
            None => {},
        }
    }
    let cs = &t.nodes[i].children;
    let mut k: usize = 0;
    while k < cs.len()
        invariant
            t.wf(),
            i < t.nodes@.len(),
            cs@ == t.children_of(i as int),
            k <= cs@.len(),
            names_dynamic(*t, i as int) == dynamic_in(*t, cs@.subrange(0, k as int), i as int) || dynamic_in(
                *t,
                cs@,
                i as int,
            ),
            !dynamic_in(*t, cs@.subrange(0, k as int), i as int),
        decreases cs.len() - k,
    {
        assert(cs@.subrange(0, k + 1).drop_last() =~= cs@.subrange(0, k as int));
        assert(t.nodes@[i as int].children@[k as int] < i);
        let c = cs[k];
        if names_dynamic_exec(t, c) {
            proof {
                lemma_dynamic_in_prefix(*t, cs@, i as int, k as int + 1);
            }
            return true;
        }
        k = k + 1;
    }
    assert(cs@.subrange(0, cs@.len() as int) =~= cs@);
    false
}

proof fn lemma_dynamic_in_prefix(t: SyntaxTree, cs: Seq<usize>, bound: int, k: int)
    requires
        0 <= bound,
        0 <= k <= cs.len(),
        dynamic_in(t, cs.subrange(0, k), bound),
    ensures
        dynamic_in(t, cs, bound),
    decreases cs.len() - k,
{
    if k < cs.len() {
        assert(cs.subrange(0, k + 1).drop_last() =~= cs.subrange(0, k));
        lemma_dynamic_in_prefix(t, cs, bound, k + 1);
    } else {
        assert(cs.subrange(0, k) =~= cs);
    }
}

/// Whether a call node uses C# `dynamic`: an invocation whose callee
/// expression holds the identifier `dynamic`.
pub fn is_dynamic_call(t: &SyntaxTree, i: usize) -> (r: bool)
    requires
        t.wf(),
        i < t.nodes@.len(),
    ensures
        r == (t.kind_of(i as int) == "invocation_expression"@ && match field_child(*t, i as int, "function"@) {
            Some(f) => names_dynamic(*t, f as int),
            None => false,
        }),
{
    if !is_kind(t, i, "invocation_expression") {
        return false;
    }
    match child_by_field(t, i, "function") {
        Some(f) => names_dynamic_exec(t, f),
        None => false,
    }
}

} // verus!
