//! The text of the `callgraph` command: for the classes matching a name,
//! what their methods call and what calls them; without a name, a summary
//! of every calling class.

use vstd::prelude::*;
use crate::text::{str_eq, string_views, decimal, decimal_string, has_substring, occurs_at, contains, to_lower, lowercase};
use crate::order::{sorted_set, sorted_unique, same_names};
use crate::resolve::types::{TypeGraph, ClassInfo};
use crate::analysis::callgraph::{CallGraph, CallSite};
use crate::detect::common::{method_names, non_accessors, non_accessor_methods, names_of, class_names, class_names_of};
use crate::cli::tally::{tally, ranked, tally_views, tally_names, rank_by_count};
use crate::cli::resolve_report::{callee_names, first_n};
use crate::cli::call_tree::{calls_from, calls_to, tree_lines, pair_views, call_tree, calls_from_exec, calls_to_exec, callee_names_of};

verus! {

/// The call sites made from class `caller`.
pub open spec fn calls_by(calls: Seq<CallSite>, caller: Seq<char>) -> Seq<CallSite> {
    calls.filter(|c: CallSite| c.caller_class@ == caller)
}

/// The calling classes of the call sites, in order.
pub open spec fn caller_names(calls: Seq<CallSite>) -> Seq<Seq<char>> {
    calls.map_values(|c: CallSite| c.caller_class@)
}

/// The methods of class `cn` that are not accessors, each name once, in
/// increasing order (none when there is no such class).
pub open spec fn class_methods(tg: TypeGraph, cn: Seq<char>) -> Seq<Seq<char>> {
    match tg.lookup_class(cn) {
        Some(c) => sorted_set(method_names(non_accessors(c.methods@))),
        None => Seq::empty(),
    }
}

/// The tree of `cn.m` under its header, when `m` makes calls.
pub open spec fn method_tree(tg: TypeGraph, calls: Seq<CallSite>, cn: Seq<char>, m: Seq<char>, depth: nat) -> Seq<Seq<char>> {
    if calls_from(calls, cn, m).len() == 0 || depth < 1 {
        Seq::empty()
    } else {
        seq!["  "@ + m + "() calls:"@] + tree_lines(tg, calls, cn, m, Seq::empty(), "    "@, depth)
    }
}

/// The trees of the methods `ms` of `cn`.
pub open spec fn method_trees(tg: TypeGraph, calls: Seq<CallSite>, cn: Seq<char>, ms: Seq<Seq<char>>, depth: nat) -> Seq<Seq<char>>
    decreases ms.len(),
{
    if ms.len() == 0 {
        Seq::empty()
    } else {
        method_trees(tg, calls, cn, ms.drop_last(), depth) + method_tree(tg, calls, cn, ms.last(), depth)
    }
}

/// What the methods of `cn` call, one level deep unless tracing.
pub open spec fn outbound_lines(tg: TypeGraph, calls: Seq<CallSite>, cn: Seq<char>, depth: nat, trace: bool) -> Seq<Seq<char>> {
    let ms = class_methods(tg, cn);
    seq!["\n\u{2500}\u{2500} Outbound calls (what "@ + cn + " calls) \u{2500}\u{2500}"@] + if ms.len() == 0 {
        seq!["  (none)"@]
    } else {
        method_trees(
            tg,
            calls,
            cn,
            ms,
            if trace {
                depth
            } else {
                1
            },
        )
    }
}

/// How a call reaches its callee: its target, or `direct`.
pub open spec fn via_of(c: CallSite) -> Seq<char> {
    if c.target_expr@.len() == 0 {
        "direct"@
    } else {
        c.target_expr@
    }
}

/// The line of a calling class among the calls `cs` to a method: how many
/// calls it makes, and through what when it makes one.
pub open spec fn caller_line(cs: Seq<CallSite>, caller: Seq<char>) -> Seq<char> {
    let v = calls_by(cs, caller).map_values(|c: CallSite| via_of(c));
    "    \u{2514}\u{2500}\u{2500} "@ + caller + " ("@ + decimal(v.len()) + "x"@ + (if v.len() == 1 {
        " via "@ + v[0]
    } else {
        ""@
    }) + ")"@
}

/// The callers of method `m`, under its header, when it is called.
pub open spec fn inbound_method(calls: Seq<CallSite>, m: Seq<char>) -> Seq<Seq<char>> {
    let cs = calls_to(calls, m);
    if cs.len() == 0 {
        Seq::empty()
    } else {
        seq!["  "@ + m + "() <-"@] + sorted_set(caller_names(cs)).map_values(|c: Seq<char>| caller_line(cs, c))
    }
}

/// The callers of the methods `ms`.
pub open spec fn inbound_methods(calls: Seq<CallSite>, ms: Seq<Seq<char>>) -> Seq<Seq<char>>
    decreases ms.len(),
{
    if ms.len() == 0 {
        Seq::empty()
    } else {
        inbound_methods(calls, ms.drop_last()) + inbound_method(calls, ms.last())
    }
}

/// Something calls one of the methods `ms` (or, when there are none, a
/// callee named `cn`).
pub open spec fn any_inbound(calls: Seq<CallSite>, cn: Seq<char>, ms: Seq<Seq<char>>) -> bool {
    if ms.len() == 0 {
        calls_to(calls, cn).len() > 0
    } else {
        exists|i: int| 0 <= i < ms.len() && calls_to(calls, #[trigger] ms[i]).len() > 0
    }
}

/// What calls the methods of `cn`.
pub open spec fn inbound_lines(tg: TypeGraph, calls: Seq<CallSite>, cn: Seq<char>) -> Seq<Seq<char>> {
    let ms = class_methods(tg, cn);
    seq!["\n\u{2500}\u{2500} Inbound calls (what calls "@ + cn + ") \u{2500}\u{2500}"@] + if !any_inbound(calls, cn, ms) {
        seq!["  (none)"@]
    } else {
        inbound_methods(calls, ms)
    }
}

/// A rule of seventy `=`.
pub open spec fn rule() -> Seq<char> {
    Seq::new(70, |i: int| '=')
}

/// The block of class `cn`: a title, then its outbound calls unless only
/// inbound ones are asked for, then its inbound calls unless only outbound
/// ones are.
pub open spec fn class_block(
    tg: TypeGraph,
    calls: Seq<CallSite>,
    cn: Seq<char>,
    depth: nat,
    only_outbound: bool,
    only_inbound: bool,
    trace: bool,
) -> Seq<Seq<char>> {
    seq![rule(), "CALL GRAPH FOR: "@ + cn, rule()] + (if !only_inbound {
        outbound_lines(tg, calls, cn, depth, trace)
    } else {
        Seq::empty()
    }) + (if !only_outbound {
        inbound_lines(tg, calls, cn)
    } else {
        Seq::empty()
    })
}

/// The blocks of the classes `cns`.
pub open spec fn class_blocks(
    tg: TypeGraph,
    calls: Seq<CallSite>,
    cns: Seq<Seq<char>>,
    depth: nat,
    only_outbound: bool,
    only_inbound: bool,
    trace: bool,
) -> Seq<Seq<char>>
    decreases cns.len(),
{
    if cns.len() == 0 {
        Seq::empty()
    } else {
        class_blocks(tg, calls, cns.drop_last(), depth, only_outbound, only_inbound, trace) + class_block(
            tg,
            calls,
            cns.last(),
            depth,
            only_outbound,
            only_inbound,
            trace,
        )
    }
}

/// The classes whose name contains `q`, ignoring case.
pub open spec fn matching_classes(tg: TypeGraph, q: Seq<char>) -> Seq<Seq<char>> {
    class_names(tg.classes@.filter(|c: ClassInfo| has_substring(lowercase(c.name@), lowercase(q))))
}

/// The block of calling class `caller`: its number of calls, then its five
/// most called callees.
pub open spec fn summary_block(calls: Seq<CallSite>, caller: Seq<char>) -> Seq<Seq<char>> {
    let cs = callee_names(calls_by(calls, caller));
    seq!["  "@ + caller + " ("@ + decimal(cs.len()) + " calls):"@] + first_n(ranked(tally(cs)), 5).map_values(
        |e: (Seq<char>, nat)| "    "@ + e.0 + " ("@ + decimal(e.1) + "x)"@,
    )
}

/// The blocks of the calling classes `callers`.
pub open spec fn summary_blocks(calls: Seq<CallSite>, callers: Seq<Seq<char>>) -> Seq<Seq<char>>
    decreases callers.len(),
{
    if callers.len() == 0 {
        Seq::empty()
    } else {
        summary_blocks(calls, callers.drop_last()) + summary_block(calls, callers.last())
    }
}

/// The report for `files` files: sizes, then for a class name the blocks
/// of the matching classes (or, when none matches, every class name), and
/// without one the summary of every calling class.
pub open spec fn callgraph_lines(
    files: nat,
    tg: TypeGraph,
    calls: Seq<CallSite>,
    class: Option<Seq<char>>,
    depth: nat,
    only_outbound: bool,
    only_inbound: bool,
    trace: bool,
) -> Seq<Seq<char>> {
    seq![
        "Parsed "@ + decimal(files) + " file(s)"@,
        "Classes: "@ + decimal(tg.classes@.len()) + ", Interfaces: "@ + decimal(tg.interfaces@.len()) + ", Call sites: "@
            + decimal(calls.len()),
        ""@,
    ] + match class {
        Some(q) => {
            let ms = matching_classes(tg, q);
            if ms.len() == 0 {
                seq!["No class found matching '"@ + q + "'"@] + sorted_set(class_names(tg.classes@)).map_values(
                    |n: Seq<char>| "  "@ + n,
                )
            } else {
                class_blocks(tg, calls, ms, depth, only_outbound, only_inbound, trace)
            }
        },
        None => seq![rule(), "FULL CALL GRAPH SUMMARY"@, rule()] + summary_blocks(calls, sorted_set(caller_names(calls))),
    }
}

/// The methods of class `cn` that are not accessors, sorted, each once.
fn class_methods_exec(tg: &TypeGraph, cn: &str) -> (r: Vec<String>)
    ensures
        string_views(r@) == class_methods(*tg, cn@),
{
    match tg.get_class(cn) {
        Some(c) => {
            let na = non_accessor_methods(&c.methods);
            let names = names_of(&na);
            sorted_unique(&names)
        },
        None => {
            let r: Vec<String> = Vec::new();
            assert(string_views(r@) =~= Seq::<Seq<char>>::empty());
            r
        },
    }
}

/// References to each call site, in order.
pub(crate) fn call_refs(calls: &Vec<CallSite>) -> (r: Vec<&CallSite>)
    ensures
        r@.map_values(|c: &CallSite| *c) == calls@,
{
    let mut r: Vec<&CallSite> = Vec::new();
    let mut i: usize = 0;
    while i < calls.len()
        invariant
            i <= calls@.len(),
            r@.len() == i,
            forall|k: int| 0 <= k < i ==> *(#[trigger] r@[k]) == calls@[k],
        decreases calls.len() - i,
    {
        r.push(&calls[i]);
        i = i + 1;
    }
    assert(r@.map_values(|c: &CallSite| *c) =~= calls@);
    r
}

/// Appends what the methods of `cn` call.
fn outbound_exec(tg: &TypeGraph, cg: &CallGraph, cn: &str, depth: usize, trace: bool, out: &mut Vec<String>)
    requires
        tg.wf(),
    ensures
        string_views(final(out)@) == string_views(old(out)@) + outbound_lines(*tg, cg.calls@, cn@, depth as nat, trace),
{
    let ghost o0 = string_views(out@);
    let mut head = String::from_str("\n\u{2500}\u{2500} Outbound calls (what ");
    head.append(cn);
    head.append(" calls) \u{2500}\u{2500}");
    out.push(head);
    let ghost o1 = string_views(out@);
    assert(o1 =~= o0 + seq!["\n\u{2500}\u{2500} Outbound calls (what "@ + cn@ + " calls) \u{2500}\u{2500}"@]);
    let ms = class_methods_exec(tg, cn);
    let ghost mv = string_views(ms@);
    if ms.len() == 0 {
        out.push(String::from_str("  (none)"));
        assert(string_views(out@) =~= o1 + seq!["  (none)"@]);
        return;
    }
    let d: usize = if trace {
        depth
    } else {
        1
    };
    let mut i: usize = 0;
    while i < ms.len()
        invariant
            tg.wf(),
            mv == string_views(ms@),
            i <= ms@.len(),
            string_views(out@) == o1 + method_trees(*tg, cg.calls@, cn@, mv.subrange(0, i as int), d as nat),
        decreases ms.len() - i,
    {
        assert(mv.subrange(0, i + 1).drop_last() =~= mv.subrange(0, i as int));
        let m = ms[i].as_str();
        let ghost oi = string_views(out@);
        let cs = calls_from_exec(&cg.calls, cn, m);
        if cs.len() > 0 && d >= 1 {
            let mut h = String::from_str("  ");
            h.append(m);
            h.append("() calls:");
            out.push(h);
            assert(string_views(out@) =~= oi + seq!["  "@ + m@ + "() calls:"@]);
            let mut fresh: Vec<(String, String)> = Vec::new();
            assert(pair_views(fresh@) =~= Seq::<(Seq<char>, Seq<char>)>::empty());
            call_tree(tg, cg, cn, m, &mut fresh, "    ", d, out);
        } else {
            assert(string_views(out@) =~= oi + Seq::<Seq<char>>::empty());
        }
        i = i + 1;
    }
    assert(mv.subrange(0, mv.len() as int) =~= mv);
}

/// The call sites among `cs` made from class `caller`.
pub(crate) fn calls_by_exec<'a>(cs: &Vec<&'a CallSite>, caller: &str) -> (r: Vec<&'a CallSite>)
    ensures
        r@.map_values(|c: &CallSite| *c) == calls_by(cs@.map_values(|c: &CallSite| *c), caller@),
{
    let ghost cv = cs@.map_values(|c: &CallSite| *c);
    let mut r: Vec<&CallSite> = Vec::new();
    let mut i: usize = 0;
    while i < cs.len()
        invariant
            cv == cs@.map_values(|c: &CallSite| *c),
            i <= cs@.len(),
            r@.map_values(|c: &CallSite| *c) == calls_by(cv.subrange(0, i as int), caller@),
        decreases cs.len() - i,
    {
        let ghost pre = cv.subrange(0, i + 1);
        assert(pre.drop_last() =~= cv.subrange(0, i as int));
        assert(pre.last() == *cs@[i as int]);
        reveal(Seq::filter);
        let ghost before = r@;
        if str_eq(cs[i].caller_class.as_str(), caller) {
            r.push(cs[i]);
            assert(r@.map_values(|c: &CallSite| *c) =~= before.map_values(|c: &CallSite| *c).push(*cs@[i as int]));
        }
        i = i + 1;
    }
    assert(cv.subrange(0, cv.len() as int) =~= cv);
    r
}

/// The calling classes of the call sites.
pub(crate) fn caller_names_of(cs: &Vec<&CallSite>) -> (r: Vec<String>)
    ensures
        string_views(r@) == caller_names(cs@.map_values(|c: &CallSite| *c)),
{
    let mut r: Vec<String> = Vec::new();
    let mut i: usize = 0;
    while i < cs.len()
        invariant
            i <= cs@.len(),
            r@.len() == i,
            forall|k: int| 0 <= k < i ==> (#[trigger] r@[k])@ == cs@[k].caller_class@,
        decreases cs.len() - i,
    {
        r.push(cs[i].caller_class.clone());
        i = i + 1;
    }
    assert(string_views(r@) =~= caller_names(cs@.map_values(|c: &CallSite| *c)));
    r
}

/// The line of calling class `caller` among the calls `cs` to a method.
fn caller_line_exec(cs: &Vec<&CallSite>, caller: &str) -> (r: String)
    ensures
        r@ == caller_line(cs@.map_values(|c: &CallSite| *c), caller@),
{
    let ghost cv = cs@.map_values(|c: &CallSite| *c);
    let mine = calls_by_exec(cs, caller);
    let ghost bv = mine@.map_values(|c: &CallSite| *c);
    let ghost vv = bv.map_values(|c: CallSite| via_of(c));
    assert(bv == calls_by(cv, caller@));
    let mut r = String::from_str("    \u{2514}\u{2500}\u{2500} ");
    r.append(caller);
    r.append(" (");
    let n = decimal_string(mine.len());
    r.append(n.as_str());
    r.append("x");
    let ghost r1 = r@;
    if mine.len() == 1 {
        r.append(" via ");
        assert(bv[0] == *mine@[0]);
        if mine[0].target_expr.unicode_len() == 0 {
            r.append("direct");
        } else {
            r.append(mine[0].target_expr.as_str());
        }
        assert(r@ =~= r1 + " via "@ + vv[0]);
    } else {
        proof {
            reveal_strlit("");
        }
        assert(r@ =~= r1 + ""@);
    }
    r.append(")");
    r
}

/// Whether some call site calls one of the names `ms`.
fn any_called(refs: &Vec<&CallSite>, ms: &Vec<String>) -> (r: bool)
    ensures
        r == exists|k: int|
            0 <= k < ms@.len() && calls_to(refs@.map_values(|c: &CallSite| *c), #[trigger] string_views(ms@)[k]).len() > 0,
{
    let ghost mv = string_views(ms@);
    let mut i: usize = 0;
    while i < ms.len()
        invariant
            mv == string_views(ms@),
            i <= ms@.len(),
            forall|k: int| 0 <= k < i ==> calls_to(refs@.map_values(|c: &CallSite| *c), #[trigger] mv[k]).len() == 0,
        decreases ms.len() - i,
    {
        assert(mv[i as int] == ms@[i as int]@);
        if calls_to_exec(refs, ms[i].as_str()).len() > 0 {
            return true;
        }
        i = i + 1;
    }
    false
}

/// Appends what calls the methods of `cn`.
fn inbound_exec(tg: &TypeGraph, cg: &CallGraph, cn: &str, out: &mut Vec<String>)
    ensures
        string_views(final(out)@) == string_views(old(out)@) + inbound_lines(*tg, cg.calls@, cn@),
{
    let ghost o0 = string_views(out@);
    let mut head = String::from_str("\n\u{2500}\u{2500} Inbound calls (what calls ");
    head.append(cn);
    head.append(") \u{2500}\u{2500}");
    out.push(head);
    let ghost o1 = string_views(out@);
    assert(o1 =~= o0 + seq!["\n\u{2500}\u{2500} Inbound calls (what calls "@ + cn@ + ") \u{2500}\u{2500}"@]);
    let ms = class_methods_exec(tg, cn);
    let ghost mv = string_views(ms@);
    let refs = call_refs(&cg.calls);
    let any = if ms.len() == 0 {
        calls_to_exec(&refs, cn).len() > 0
    } else {
        any_called(&refs, &ms)
    };
    if !any {
        out.push(String::from_str("  (none)"));
        assert(string_views(out@) =~= o1 + seq!["  (none)"@]);
        return;
    }
    let mut i: usize = 0;
    while i < ms.len()
        invariant
            mv == string_views(ms@),
            refs@.map_values(|c: &CallSite| *c) == cg.calls@,
            i <= ms@.len(),
            string_views(out@) == o1 + inbound_methods(cg.calls@, mv.subrange(0, i as int)),
        decreases ms.len() - i,
    {
        assert(mv.subrange(0, i + 1).drop_last() =~= mv.subrange(0, i as int));
        let m = ms[i].as_str();
        let ghost oi = string_views(out@);
        let cs = calls_to_exec(&refs, m);
        let ghost cv = cs@.map_values(|c: &CallSite| *c);
        if cs.len() > 0 {
            let mut h = String::from_str("  ");
            h.append(m);
            h.append("() <-");
            out.push(h);
            let ghost oh = string_views(out@);
            assert(oh =~= oi + seq!["  "@ + m@ + "() <-"@]);
            let names = caller_names_of(&cs);
            let callers = sorted_unique(&names);
            let ghost crv = string_views(callers@);
            let mut k: usize = 0;
            while k < callers.len()
                invariant
                    crv == string_views(callers@),
                    cv == cs@.map_values(|c: &CallSite| *c),
                    k <= callers@.len(),
                    string_views(out@) == oh + crv.subrange(0, k as int).map_values(|c: Seq<char>| caller_line(cv, c)),
                decreases callers.len() - k,
            {
                let ghost ok = string_views(out@);
                assert(crv[k as int] == callers@[k as int]@);
                let line = caller_line_exec(&cs, callers[k].as_str());
                out.push(line);
                assert(string_views(out@) =~= ok.push(caller_line(cv, crv[k as int])));
                assert(crv.subrange(0, k + 1).map_values(|c: Seq<char>| caller_line(cv, c)) =~= crv.subrange(0, k as int).map_values(
                    |c: Seq<char>| caller_line(cv, c),
                ).push(caller_line(cv, crv[k as int])));
                k = k + 1;
            }
            assert(crv.subrange(0, crv.len() as int) =~= crv);
        } else {
            assert(string_views(out@) =~= oi + Seq::<Seq<char>>::empty());
        }
        i = i + 1;
    }
    assert(mv.subrange(0, mv.len() as int) =~= mv);
}

/// A rule of seventy `=`.
fn rule_string() -> (r: String)
    ensures
        r@ == rule(),
{
    proof {
        reveal_strlit("=");
    }
    let mut r = String::new();
    let mut i: usize = 0;
    while i < 70
        invariant
            i <= 70,
            r@ =~= Seq::new(i as nat, |j: int| '='),
        decreases 70 - i,
    {
        proof {
            reveal_strlit("=");
        }
        let ghost r0 = r@;
        r.append("=");
        assert(r@ =~= Seq::new((i + 1) as nat, |j: int| '='));
        i = i + 1;
    }
    r
}

/// One line per entry, `    name (countx)`, for the first `n` entries.
fn callee_count_lines(es: &Vec<(String, usize)>, n: usize, out: &mut Vec<String>)
    ensures
        string_views(final(out)@) == string_views(old(out)@) + first_n(tally_views(es@), n as nat).map_values(
            |e: (Seq<char>, nat)| "    "@ + e.0 + " ("@ + decimal(e.1) + "x)"@,
        ),
{
    let ghost ev = tally_views(es@);
    let ghost o0 = string_views(out@);
    let m = if es.len() <= n {
        es.len()
    } else {
        n
    };
    assert(first_n(ev, n as nat) =~= ev.subrange(0, m as int));
    let mut i: usize = 0;
    while i < m
        invariant
            m <= es@.len(),
            ev == tally_views(es@),
            i <= m,
            string_views(out@) == o0 + ev.subrange(0, i as int).map_values(
                |e: (Seq<char>, nat)| "    "@ + e.0 + " ("@ + decimal(e.1) + "x)"@,
            ),
        decreases m - i,
    {
        let ghost oi = string_views(out@);
        let mut line = String::from_str("    ");
        line.append(es[i].0.as_str());
        line.append(" (");
        let c = decimal_string(es[i].1);
        line.append(c.as_str());
        line.append("x)");
        out.push(line);
        assert(string_views(out@) =~= oi.push("    "@ + ev[i as int].0 + " ("@ + decimal(ev[i as int].1) + "x)"@));
        assert(ev.subrange(0, i + 1).map_values(|e: (Seq<char>, nat)| "    "@ + e.0 + " ("@ + decimal(e.1) + "x)"@)
            =~= ev.subrange(0, i as int).map_values(|e: (Seq<char>, nat)| "    "@ + e.0 + " ("@ + decimal(e.1) + "x)"@).push(
            "    "@ + ev[i as int].0 + " ("@ + decimal(ev[i as int].1) + "x)"@,
        ));
        i = i + 1;
    }
}

/// Appends the summary of every calling class, in increasing order of
/// name.
fn summary_exec(cg: &CallGraph, out: &mut Vec<String>)
    ensures
        string_views(final(out)@) == string_views(old(out)@) + summary_blocks(cg.calls@, sorted_set(caller_names(cg.calls@))),
{
    let refs = call_refs(&cg.calls);
    let names = caller_names_of(&refs);
    let callers = sorted_unique(&names);
    let ghost crv = string_views(callers@);
    let ghost o0 = string_views(out@);
    let mut k: usize = 0;
    while k < callers.len()
        invariant
            crv == string_views(callers@),
            crv == sorted_set(caller_names(cg.calls@)),
            refs@.map_values(|c: &CallSite| *c) == cg.calls@,
            k <= callers@.len(),
            string_views(out@) == o0 + summary_blocks(cg.calls@, crv.subrange(0, k as int)),
        decreases callers.len() - k,
    {
        assert(crv.subrange(0, k + 1).drop_last() =~= crv.subrange(0, k as int));
        let caller = callers[k].as_str();
        assert(crv[k as int] == caller@);
        let ghost ok = string_views(out@);
        let mine = calls_by_exec(&refs, caller);
        let callees = callee_names_of(&mine);
        let mut h = String::from_str("  ");
        h.append(caller);
        h.append(" (");
        let n = decimal_string(callees.len());
        h.append(n.as_str());
        h.append(" calls):");
        out.push(h);
        let counts = tally_names(&callees);
        let ranked_counts = rank_by_count(&counts);
        callee_count_lines(&ranked_counts, 5, out);
        assert(string_views(out@) =~= ok + summary_block(cg.calls@, caller@));
        k = k + 1;
    }
    assert(crv.subrange(0, crv.len() as int) =~= crv);
}

/// The classes whose name contains `q`, ignoring case.
pub(crate) fn matching_classes_exec(tg: &TypeGraph, q: &str) -> (r: Vec<String>)
    ensures
        string_views(r@) == matching_classes(*tg, q@),
{
    let lq = to_lower(q);
    let mut r: Vec<String> = Vec::new();
    let mut i: usize = 0;
    while i < tg.classes.len()
        invariant
            lq@ == lowercase(q@),
            i <= tg.classes@.len(),
            string_views(r@) == class_names(
                tg.classes@.subrange(0, i as int).filter(|c: ClassInfo| has_substring(lowercase(c.name@), lowercase(q@))),
            ),
        decreases tg.classes.len() - i,
    {
        let ghost pre = tg.classes@.subrange(0, i + 1);
        assert(pre.drop_last() =~= tg.classes@.subrange(0, i as int));
        reveal(Seq::filter);
        let ghost before = string_views(r@);
        let ln = to_lower(tg.classes[i].name.as_str());
        if contains(ln.as_str(), lq.as_str()) {
            r.push(tg.classes[i].name.clone());
            assert(string_views(r@) =~= before.push(tg.classes@[i as int].name@));
        }
        i = i + 1;
    }
    assert(tg.classes@.subrange(0, tg.classes@.len() as int) =~= tg.classes@);
    r
}

/// Appends the block of class `cn`.
fn class_block_exec(
    tg: &TypeGraph,
    cg: &CallGraph,
    cn: &str,
    depth: usize,
    only_outbound: bool,
    only_inbound: bool,
    trace: bool,
    out: &mut Vec<String>,
)
    requires
        !only_inbound ==> tg.wf(),
    ensures
        string_views(final(out)@) == string_views(old(out)@) + class_block(
            *tg,
            cg.calls@,
            cn@,
            depth as nat,
            only_outbound,
            only_inbound,
            trace,
        ),
{
    let ghost o0 = string_views(out@);
    out.push(rule_string());
    let mut title = String::from_str("CALL GRAPH FOR: ");
    title.append(cn);
    out.push(title);
    out.push(rule_string());
    let ghost o1 = string_views(out@);
    assert(o1 =~= o0 + seq![rule(), "CALL GRAPH FOR: "@ + cn@, rule()]);
    if !only_inbound {
        outbound_exec(tg, cg, cn, depth, trace, out);
    }
    let ghost o2 = string_views(out@);
    if !only_outbound {
        inbound_exec(tg, cg, cn, out);
    }
    assert(string_views(out@) =~= o0 + class_block(*tg, cg.calls@, cn@, depth as nat, only_outbound, only_inbound, trace));
}

/// The report of the `callgraph` command for `files` files: for a class
/// name, the blocks of the classes whose name contains it (ignoring case),
/// each with what its methods call (followed `depth` levels deep when
/// tracing) and what calls them; without one, the summary of every
/// calling class.
pub fn callgraph_report(
    files: usize,
    tg: &TypeGraph,
    cg: &CallGraph,
    class: Option<&str>,
    depth: usize,
    only_outbound: bool,
    only_inbound: bool,
    trace: bool,
) -> (r: Vec<String>)
    requires
        class is Some && !only_inbound ==> tg.wf(),
    ensures
        string_views(r@) == callgraph_lines(
            files as nat,
            *tg,
            cg.calls@,
            match class {
                Some(q) => Some(q@),
                None => None,
            },
            depth as nat,
            only_outbound,
            only_inbound,
            trace,
        ),
{
    let mut out: Vec<String> = Vec::new();
    let mut l1 = String::from_str("Parsed ");
    let f = decimal_string(files);
    l1.append(f.as_str());
    l1.append(" file(s)");
    out.push(l1);
    let mut l2 = String::from_str("Classes: ");
    let nc = decimal_string(tg.classes.len());
    l2.append(nc.as_str());
    l2.append(", Interfaces: ");
    let ni = decimal_string(tg.interfaces.len());
    l2.append(ni.as_str());
    l2.append(", Call sites: ");
    let k = decimal_string(cg.calls.len());
    l2.append(k.as_str());
    out.push(l2);
    out.push(String::from_str(""));
    let ghost o0 = string_views(out@);
    match class {
        Some(q) => {
            let ms = matching_classes_exec(tg, q);
            let ghost mv = string_views(ms@);
            if ms.len() == 0 {
                let mut h = String::from_str("No class found matching '");
                h.append(q);
                h.append("'");
                out.push(h);
                let ghost o1 = string_views(out@);
                let all: Vec<&ClassInfo> = class_refs(tg);
                let names0 = class_names_of(&all);
                let names = sorted_unique(&names0);
                let ghost nv = string_views(names@);
                let mut i: usize = 0;
                while i < names.len()
                    invariant
                        nv == string_views(names@),
                        i <= names@.len(),
                        string_views(out@) == o1 + nv.subrange(0, i as int).map_values(|n: Seq<char>| "  "@ + n),
                    decreases names.len() - i,
                {
                    let ghost oi = string_views(out@);
                    let mut line = String::from_str("  ");
                    line.append(names[i].as_str());
                    out.push(line);
                    assert(string_views(out@) =~= oi.push("  "@ + nv[i as int]));
                    assert(nv.subrange(0, i + 1).map_values(|n: Seq<char>| "  "@ + n) =~= nv.subrange(0, i as int).map_values(
                        |n: Seq<char>| "  "@ + n,
                    ).push("  "@ + nv[i as int]));
                    i = i + 1;
                }
                assert(nv.subrange(0, nv.len() as int) =~= nv);
            } else {
                let mut i: usize = 0;
                while i < ms.len()
                    invariant
                        !only_inbound ==> tg.wf(),
                        mv == string_views(ms@),
                        i <= ms@.len(),
                        string_views(out@) == o0 + class_blocks(
                            *tg,
                            cg.calls@,
                            mv.subrange(0, i as int),
                            depth as nat,
                            only_outbound,
                            only_inbound,
                            trace,
                        ),
                    decreases ms.len() - i,
                {
                    assert(mv.subrange(0, i + 1).drop_last() =~= mv.subrange(0, i as int));
                    assert(mv[i as int] == ms@[i as int]@);
                    class_block_exec(tg, cg, ms[i].as_str(), depth, only_outbound, only_inbound, trace, &mut out);
                    i = i + 1;
                }
                assert(mv.subrange(0, mv.len() as int) =~= mv);
            }
        },
        None => {
            out.push(rule_string());
            out.push(String::from_str("FULL CALL GRAPH SUMMARY"));
            out.push(rule_string());
            assert(string_views(out@) =~= o0 + seq![rule(), "FULL CALL GRAPH SUMMARY"@, rule()]);
            summary_exec(cg, &mut out);
        },
    }
    out
}

/// References to each class of the graph, in order.
fn class_refs(tg: &TypeGraph) -> (r: Vec<&ClassInfo>)
    ensures
        r@.map_values(|c: &ClassInfo| *c) == tg.classes@,
{
    let mut r: Vec<&ClassInfo> = Vec::new();
    let mut i: usize = 0;
    while i < tg.classes.len()
        invariant
            i <= tg.classes@.len(),
            r@.len() == i,
            forall|k: int| 0 <= k < i ==> *(#[trigger] r@[k]) == tg.classes@[k],
        decreases tg.classes.len() - i,
    {
        r.push(&tg.classes[i]);
        i = i + 1;
    }
    assert(r@.map_values(|c: &ClassInfo| *c) =~= tg.classes@);
    r
}


/// Every class of a type graph is among the classes matching its own name.
pub proof fn law_class_matches_own_name(tg: TypeGraph, i: int)
    requires
        0 <= i < tg.classes@.len(),
    ensures
        matching_classes(tg, tg.classes@[i].name@).contains(tg.classes@[i].name@),
{
    let q = tg.classes@[i].name@;
    let pred = |c: ClassInfo| has_substring(lowercase(c.name@), lowercase(q));
    assert(occurs_at(lowercase(q), lowercase(q), 0)) by {
        assert(lowercase(q).subrange(0, lowercase(q).len() as int) =~= lowercase(q));
    }
    assert(pred(tg.classes@[i]));
    tg.classes@.lemma_filter_contains(pred, i);
    let f = tg.classes@.filter(pred);
    let j = choose|j: int| 0 <= j < f.len() && f[j] == tg.classes@[i];
    assert(class_names(f)[j] == q);
}

} // verus!
