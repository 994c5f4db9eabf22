//! The text of the `resolve` command: project size and the most called
//! methods.

use vstd::prelude::*;
use crate::text::{str_eq, string_views, decimal, decimal_string};
use crate::resolve::types::TypeGraph;
use crate::analysis::callgraph::{CallGraph, CallSite};
use crate::cli::tally::{tally, ranked, tally_views, tally_names, rank_by_count};

verus! {

/// The callee names of the call sites, in order.
pub open spec fn callee_names(calls: Seq<CallSite>) -> Seq<Seq<char>> {
    calls.map_values(|c: CallSite| c.callee@)
}

/// The first `n` entries of `s` (all of them when there are fewer).
pub open spec fn first_n<A>(s: Seq<A>, n: nat) -> Seq<A> {
    if s.len() <= n {
        s
    } else {
        s.take(n as int)
    }
}

/// One line per ranked callee: `  name (count calls)`.
pub open spec fn callee_lines(es: Seq<(Seq<char>, nat)>) -> Seq<Seq<char>> {
    es.map_values(|e: (Seq<char>, nat)| "  "@ + e.0 + " ("@ + decimal(e.1) + " calls)"@)
}

/// The kinds of resolution the command accepts.
pub open spec fn kind_supported(kind: Seq<char>) -> bool {
    kind == "di"@ || kind == "factory"@ || kind == "reflection"@ || kind == "cha"@ || kind == "all"@
}

/// The report for `files` files: sizes, then the fifteen most called
/// methods when there are call sites.
pub open spec fn resolve_lines(files: nat, tg: TypeGraph, cg: CallGraph) -> Seq<Seq<char>> {
    let k = cg.calls@.len();
    seq![
        "Resolution analysis for "@ + decimal(files) + " file(s):"@,
        "  Classes: "@ + decimal(tg.classes@.len()) + ", Interfaces: "@ + decimal(tg.interfaces@.len()),
        "  Call sites: "@ + decimal(k),
        ""@,
    ] + if k > 0 {
        seq!["Top called methods:"@] + callee_lines(first_n(ranked(tally(callee_names(cg.calls@))), 15))
    } else {
        Seq::empty()
    }
}

/// Whether `kind` is a resolution kind the command accepts.
pub fn resolution_kind_supported(kind: &str) -> (r: bool)
    ensures
        r == kind_supported(kind@),
{
    str_eq(kind, "di") || str_eq(kind, "factory") || str_eq(kind, "reflection") || str_eq(kind, "cha") || str_eq(
        kind,
        "all",
    )
}

/// The callee names of the call sites.
pub fn callees_of(cg: &CallGraph) -> (r: Vec<String>)
    ensures
        string_views(r@) == callee_names(cg.calls@),
{
    let mut r: Vec<String> = Vec::new();
    let mut i: usize = 0;
    while i < cg.calls.len()
        invariant
            i <= cg.calls@.len(),
            r@.len() == i,
            forall|k: int| 0 <= k < i ==> (#[trigger] r@[k])@ == cg.calls@[k].callee@,
        decreases cg.calls.len() - i,
    {
        r.push(cg.calls[i].callee.clone());
        i = i + 1;
    }
    assert(string_views(r@) =~= callee_names(cg.calls@));
    r
}

/// One line per entry, `  name (count calls)`, for the first `n` entries.
fn callee_count_lines(es: &Vec<(String, usize)>, n: usize) -> (r: Vec<String>)
    ensures
        string_views(r@) == callee_lines(first_n(tally_views(es@), n as nat)),
{
    let ghost ev = tally_views(es@);
    let m = if es.len() <= n {
        es.len()
    } else {
        n
    };
    assert(first_n(ev, n as nat) =~= ev.subrange(0, m as int));
    let mut r: Vec<String> = Vec::new();
    let mut i: usize = 0;
    while i < m
        invariant
            m <= es@.len(),
            ev == tally_views(es@),
            i <= m,
            r@.len() == i,
            forall|k: int| 0 <= k < i ==> (#[trigger] r@[k])@ == "  "@ + ev[k].0 + " ("@ + decimal(ev[k].1) + " calls)"@,
        decreases m - i,
    {
        let mut line = String::from_str("  ");
        line.append(es[i].0.as_str());
        line.append(" (");
        let c = decimal_string(es[i].1);
        line.append(c.as_str());
        line.append(" calls)");
        r.push(line);
        i = i + 1;
    }
    assert(string_views(r@) =~= callee_lines(ev.subrange(0, m as int)));
    r
}

/// The report of the `resolve` command for `files` files, or the message
/// refusing an unsupported kind.
pub fn resolve_report(files: usize, tg: &TypeGraph, cg: &CallGraph, kind: &str) -> (r: Result<Vec<String>, String>)
    ensures
        match r {
            Ok(lines) => kind_supported(kind@) && string_views(lines@) == resolve_lines(files as nat, *tg, *cg),
            Err(msg) => !kind_supported(kind@) && msg@ == "Unsupported resolution kind: "@ + kind@
                + ". Use di, factory, reflection, cha, or all."@,
        },
{
    if !resolution_kind_supported(kind) {
        let mut msg = String::from_str("Unsupported resolution kind: ");
        msg.append(kind);
        msg.append(". Use di, factory, reflection, cha, or all.");
        return Err(msg);
    }
    let mut lines: Vec<String> = Vec::new();
    let mut l1 = String::from_str("Resolution analysis for ");
    let f = decimal_string(files);
    l1.append(f.as_str());
    l1.append(" file(s):");
    lines.push(l1);
    let mut l2 = String::from_str("  Classes: ");
    let nc = decimal_string(tg.classes.len());
    l2.append(nc.as_str());
    l2.append(", Interfaces: ");
    let ni = decimal_string(tg.interfaces.len());
    l2.append(ni.as_str());
    lines.push(l2);
    let mut l3 = String::from_str("  Call sites: ");
    let k = decimal_string(cg.calls.len());
    l3.append(k.as_str());
    lines.push(l3);
    lines.push(String::from_str(""));
    let ghost head = string_views(lines@);
    if cg.calls.len() > 0 {
        lines.push(String::from_str("Top called methods:"));
        let names = callees_of(cg);
        let counts = tally_names(&names);
        let ranked_counts = rank_by_count(&counts);
        let mut tail = callee_count_lines(&ranked_counts, 15);
        let ghost l0 = lines@;
        let ghost t0 = tail@;
        lines.append(&mut tail);
        assert(string_views(lines@) =~= string_views(l0) + string_views(t0));
    }
    assert(string_views(lines@) =~= resolve_lines(files as nat, *tg, *cg));
    Ok(lines)
}

} // verus!
