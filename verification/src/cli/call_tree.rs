//! The call tree of a method: what it calls, grouped by callee, followed
//! into the callees' own calls down to a depth, with interface dispatch
//! expanded into the implementing classes.

use vstd::prelude::*;
use crate::text::{str_eq, string_views, decimal, decimal_string};
use crate::order::{sorted_set, sorted_unique, same_names};
use crate::resolve::types::{TypeGraph, ClassInfo, has_method_named, any_method_named};
use crate::analysis::callgraph::{CallGraph, CallSite, first_class_with_method, first_class_with_method_exec};
use crate::cli::resolve_report::callee_names;

verus! {

/// The call sites made from `class.method`.
pub open spec fn calls_from(calls: Seq<CallSite>, class: Seq<char>, method: Seq<char>) -> Seq<CallSite> {
    calls.filter(|c: CallSite| c.caller_class@ == class && c.caller_method@ == method)
}

/// The call sites whose callee is `name`.
pub open spec fn calls_to(calls: Seq<CallSite>, name: Seq<char>) -> Seq<CallSite> {
    calls.filter(|c: CallSite| c.callee@ == name)
}

/// The class a callee is followed into: the call's target when it names a
/// class, else the first class that has a method of the callee's name.
pub open spec fn resolved_class(tg: TypeGraph, callee: Seq<char>, target: Seq<char>) -> Option<Seq<char>> {
    if target.len() > 0 && tg.has_class(target) {
        Some(target)
    } else {
        first_class_with_method(tg.classes@, callee)
    }
}

/// Some interface declares `callee` and has implementing classes.
pub open spec fn has_dispatch(tg: TypeGraph, callee: Seq<char>) -> bool {
    exists|j: int|
        0 <= j < tg.interfaces@.len() && has_method_named((#[trigger] tg.interfaces@[j]).methods@, callee)
            && tg.spec_concrete_subclasses(tg.interfaces@[j].name@).len() > 0
}

/// The lines of the call tree of `class.method` at `prefix`, `depth`
/// levels deep; a method already on the path (`visited`) is a cycle.
pub open spec fn tree_lines(
    tg: TypeGraph,
    calls: Seq<CallSite>,
    class: Seq<char>,
    method: Seq<char>,
    visited: Seq<(Seq<char>, Seq<char>)>,
    prefix: Seq<char>,
    depth: nat,
) -> Seq<Seq<char>>
    decreases depth, 4nat, 0nat,
{
    if depth == 0 {
        Seq::empty()
    } else if visited.contains((class, method)) {
        seq![prefix + "  (cycle)"@]
    } else {
        let cs = calls_from(calls, class, method);
        if cs.len() == 0 {
            Seq::empty()
        } else {
            let names = sorted_set(callee_names(cs));
            callee_blocks(tg, calls, class, visited.push((class, method)), prefix, depth, cs, names, 0)
        }
    }
}

/// The blocks of the callees `names[i..]` of a method's calls `cs`.
pub open spec fn callee_blocks(
    tg: TypeGraph,
    calls: Seq<CallSite>,
    class: Seq<char>,
    visited: Seq<(Seq<char>, Seq<char>)>,
    prefix: Seq<char>,
    depth: nat,
    cs: Seq<CallSite>,
    names: Seq<Seq<char>>,
    i: int,
) -> Seq<Seq<char>>
    decreases depth, 3nat, (names.len() - i) as nat,
    when 0 <= i <= names.len() && depth > 0
{
    if i >= names.len() {
        Seq::empty()
    } else {
        callee_block(tg, calls, class, visited, prefix, depth, cs, names, i) + callee_blocks(
            tg,
            calls,
            class,
            visited,
            prefix,
            depth,
            cs,
            names,
            i + 1,
        )
    }
}

/// The connector drawn before the `i`th of `n` callees.
pub open spec fn connector(last: bool) -> Seq<char> {
    if last {
        "\u{2514}\u{2500}\u{2500}"@
    } else {
        "\u{251c}\u{2500}\u{2500}"@
    }
}

/// The prefix of the lines below the `i`th of `n` callees.
pub open spec fn next_prefix(prefix: Seq<char>, last: bool) -> Seq<char> {
    prefix + if last {
        "   "@
    } else {
        "\u{2502}  "@
    }
}

/// ` via target`, or nothing when the call has no target.
pub open spec fn via_text(target: Seq<char>) -> Seq<char> {
    if target.len() == 0 {
        ""@
    } else {
        " via "@ + target
    }
}

/// The block of the callee `names[i]`: its line with the number of calls
/// to it, then the dispatch to implementing classes, or else the tree of
/// the class it resolves to.
pub open spec fn callee_block(
    tg: TypeGraph,
    calls: Seq<CallSite>,
    class: Seq<char>,
    visited: Seq<(Seq<char>, Seq<char>)>,
    prefix: Seq<char>,
    depth: nat,
    cs: Seq<CallSite>,
    names: Seq<Seq<char>>,
    i: int,
) -> Seq<Seq<char>>
    decreases depth, 2nat, 0nat,
    when 0 <= i < names.len() && depth > 0
{
    let callee = names[i];
    let sites = calls_to(cs, callee);
    let target = sites[0].target_expr@;
    let last = i == names.len() - 1;
    let next = next_prefix(prefix, last);
    let head = prefix + connector(last) + " "@ + callee + via_text(target) + " ("@ + decimal(sites.len()) + "x)"@;
    seq![head] + if has_dispatch(tg, callee) {
        dispatch_lines(tg, calls, callee, target, next, depth, 0)
    } else {
        match resolved_class(tg, callee, target) {
            Some(rc) => tree_lines(
                tg,
                calls,
                rc,
                callee,
                if rc == class {
                    visited
                } else {
                    Seq::empty()
                },
                next,
                (depth - 1) as nat,
            ),
            None => Seq::empty(),
        }
    }
}

/// The dispatch blocks of `callee` for the interfaces from the `j`th on
/// that declare it and have implementing classes.
pub open spec fn dispatch_lines(
    tg: TypeGraph,
    calls: Seq<CallSite>,
    callee: Seq<char>,
    target: Seq<char>,
    next: Seq<char>,
    depth: nat,
    j: int,
) -> Seq<Seq<char>>
    decreases depth, 1nat, (tg.interfaces@.len() - j) as nat,
    when 0 <= j <= tg.interfaces@.len() && depth > 0
{
    if j >= tg.interfaces@.len() {
        Seq::empty()
    } else {
        let it = tg.interfaces@[j];
        let impls = tg.spec_concrete_subclasses(it.name@);
        (if has_method_named(it.methods@, callee) && impls.len() > 0 {
            seq![next + "\u{2550}\u{2550} DISPATCH: "@ + target + " \u{2192} "@ + it.name@ + " \u{2550}\u{2550}"@]
                + impl_lines(tg, calls, callee, next, depth, impls, 0)
        } else {
            Seq::empty()
        }) + dispatch_lines(tg, calls, callee, target, next, depth, j + 1)
    }
}

/// The blocks of the implementing classes `impls[k..]`: each class's name,
/// then the tree of its method `callee`.
pub open spec fn impl_lines(
    tg: TypeGraph,
    calls: Seq<CallSite>,
    callee: Seq<char>,
    next: Seq<char>,
    depth: nat,
    impls: Seq<ClassInfo>,
    k: int,
) -> Seq<Seq<char>>
    decreases depth, 0nat, (impls.len() - k) as nat,
    when 0 <= k <= impls.len() && depth > 0
{
    if k >= impls.len() {
        Seq::empty()
    } else {
        seq![next + "\u{2500}\u{2500} "@ + impls[k].name@ + " \u{2500}\u{2500}"@] + tree_lines(
            tg,
            calls,
            impls[k].name@,
            callee,
            Seq::empty(),
            next + "  "@,
            (depth - 1) as nat,
        ) + impl_lines(tg, calls, callee, next, depth, impls, k + 1)
    }
}

/// The pairs of a list of string pairs, as characters.
pub open spec fn pair_views(v: Seq<(String, String)>) -> Seq<(Seq<char>, Seq<char>)> {
    v.map_values(|p: (String, String)| (p.0@, p.1@))
}

pub(crate) proof fn lemma_calls_to_nonempty(cs: Seq<CallSite>, name: Seq<char>, k: int)
    requires
        0 <= k < cs.len(),
        cs[k].callee@ == name,
    ensures
        calls_to(cs, name).len() > 0,
    decreases cs.len(),
{
    reveal(Seq::filter);
    if k < cs.len() - 1 {
        assert(cs.drop_last()[k] == cs[k]);
        lemma_calls_to_nonempty(cs.drop_last(), name, k);
    }
}

/// The call sites made from `class.method`.
pub(crate) fn calls_from_exec<'a>(calls: &'a Vec<CallSite>, class: &str, method: &str) -> (r: Vec<&'a CallSite>)
    ensures
        r@.map_values(|c: &CallSite| *c) == calls_from(calls@, class@, method@),
{
    let mut r: Vec<&CallSite> = Vec::new();
    let mut i: usize = 0;
    while i < calls.len()
        invariant
            i <= calls@.len(),
            r@.map_values(|c: &CallSite| *c) == calls_from(calls@.subrange(0, i as int), class@, method@),
        decreases calls.len() - i,
    {
        let ghost pre = calls@.subrange(0, i + 1);
        assert(pre.drop_last() =~= calls@.subrange(0, i as int));
        reveal(Seq::filter);
        let ghost before = r@;
        if str_eq(calls[i].caller_class.as_str(), class) && str_eq(calls[i].caller_method.as_str(), method) {
            r.push(&calls[i]);
            assert(r@.map_values(|c: &CallSite| *c) =~= before.map_values(|c: &CallSite| *c).push(calls@[i as int]));
        }
        i = i + 1;
    }
    assert(calls@.subrange(0, calls@.len() as int) =~= calls@);
    r
}

/// The call sites among `cs` whose callee is `name`.
pub(crate) fn calls_to_exec<'a>(cs: &Vec<&'a CallSite>, name: &str) -> (r: Vec<&'a CallSite>)
    ensures
        r@.map_values(|c: &CallSite| *c) == calls_to(cs@.map_values(|c: &CallSite| *c), name@),
{
    let ghost cv = cs@.map_values(|c: &CallSite| *c);
    let mut r: Vec<&CallSite> = Vec::new();
    let mut i: usize = 0;
    while i < cs.len()
        invariant
            cv == cs@.map_values(|c: &CallSite| *c),
            i <= cs@.len(),
            r@.map_values(|c: &CallSite| *c) == calls_to(cv.subrange(0, i as int), name@),
        decreases cs.len() - i,
    {
        let ghost pre = cv.subrange(0, i + 1);
        assert(pre.drop_last() =~= cv.subrange(0, i as int));
        assert(pre.last() == *cs@[i as int]);
        reveal(Seq::filter);
        let ghost before = r@;
        if str_eq(cs[i].callee.as_str(), name) {
            r.push(cs[i]);
            assert(r@.map_values(|c: &CallSite| *c) =~= before.map_values(|c: &CallSite| *c).push(*cs@[i as int]));
        }
        i = i + 1;
    }
    assert(cv.subrange(0, cv.len() as int) =~= cv);
    r
}

/// The callee names of the call sites.
pub(crate) fn callee_names_of(cs: &Vec<&CallSite>) -> (r: Vec<String>)
    ensures
        string_views(r@) == callee_names(cs@.map_values(|c: &CallSite| *c)),
{
    let mut r: Vec<String> = Vec::new();
    let mut i: usize = 0;
    while i < cs.len()
        invariant
            i <= cs@.len(),
            r@.len() == i,
            forall|k: int| 0 <= k < i ==> (#[trigger] r@[k])@ == cs@[k].callee@,
        decreases cs.len() - i,
    {
        r.push(cs[i].callee.clone());
        i = i + 1;
    }
    assert(string_views(r@) =~= callee_names(cs@.map_values(|c: &CallSite| *c)));
    r
}

/// Whether `(class, method)` is among the visited pairs.
fn visited_contains(visited: &Vec<(String, String)>, class: &str, method: &str) -> (r: bool)
    ensures
        r == pair_views(visited@).contains((class@, method@)),
{
    let ghost pv = pair_views(visited@);
    let mut i: usize = 0;
    while i < visited.len()
        invariant
            pv == pair_views(visited@),
            i <= visited@.len(),
            forall|k: int| 0 <= k < i ==> #[trigger] pv[k] != (class@, method@),
        decreases visited.len() - i,
    {
        if str_eq(visited[i].0.as_str(), class) && str_eq(visited[i].1.as_str(), method) {
            assert(pv[i as int] == (class@, method@));
            return true;
        }
        i = i + 1;
    }
    false
}

/// The class a callee is followed into.
pub(crate) fn resolved_class_exec(tg: &TypeGraph, callee: &str, target: &str) -> (r: Option<String>)
    ensures
        match r {
            Some(c) => resolved_class(*tg, callee@, target@) == Some(c@),
            None => resolved_class(*tg, callee@, target@) is None,
        },
{
    if target.unicode_len() > 0 && tg.contains_class(target) {
        return Some(String::from_str(target));
    }
    first_class_with_method_exec(tg, callee)
}

/// Whether some interface declares `callee` and has implementing classes.
fn has_dispatch_exec(tg: &TypeGraph, callee: &str) -> (r: bool)
    requires
        tg.wf(),
    ensures
        r == has_dispatch(*tg, callee@),
{
    let mut j: usize = 0;
    while j < tg.interfaces.len()
        invariant
            tg.wf(),
            j <= tg.interfaces@.len(),
            forall|b: int|
                0 <= b < j ==> !(has_method_named((#[trigger] tg.interfaces@[b]).methods@, callee@)
                    && tg.spec_concrete_subclasses(tg.interfaces@[b].name@).len() > 0),
        decreases tg.interfaces.len() - j,
    {
        let it = &tg.interfaces[j];
        if any_method_named(&it.methods, callee) {
            let impls = tg.concrete_subclasses(it.name.as_str());
            if impls.len() > 0 {
                return true;
            }
        }
        j = j + 1;
    }
    false
}

/// Appends the call tree of `class.method` at `prefix`, `depth` levels
/// deep, with `visited` the methods already on the path.
pub fn call_tree(
    tg: &TypeGraph,
    cg: &CallGraph,
    class: &str,
    method: &str,
    visited: &mut Vec<(String, String)>,
    prefix: &str,
    depth: usize,
    out: &mut Vec<String>,
)
    requires
        tg.wf(),
    ensures
        string_views(final(out)@) == string_views(old(out)@) + tree_lines(
            *tg,
            cg.calls@,
            class@,
            method@,
            pair_views(old(visited)@),
            prefix@,
            depth as nat,
        ),
        final(visited)@ == old(visited)@,
    decreases depth, 2nat,
{
    if depth == 0 {
        return;
    }
    if visited_contains(visited, class, method) {
        let mut line = String::from_str(prefix);
        line.append("  (cycle)");
        let ghost o0 = string_views(out@);
        out.push(line);
        assert(string_views(out@) =~= o0 + seq![prefix@ + "  (cycle)"@]);
        return;
    }
    let cs = calls_from_exec(&cg.calls, class, method);
    if cs.len() == 0 {
        assert(string_views(out@) =~= string_views(out@) + Seq::<Seq<char>>::empty());
        return;
    }
    let names0 = callee_names_of(&cs);
    let names = sorted_unique(&names0);
    let ghost v0 = visited@;
    let ghost cv = cs@.map_values(|c: &CallSite| *c);
    let ghost nv = string_views(names@);
    let ghost vis = pair_views(v0).push((class@, method@));
    visited.push((String::from_str(class), String::from_str(method)));
    assert(pair_views(visited@) =~= vis);
    assert(visited@.subrange(0, v0.len() as int) =~= v0);
    let ghost o0 = string_views(out@);
    let ghost target = o0 + callee_blocks(*tg, cg.calls@, class@, vis, prefix@, depth as nat, cv, nv, 0);
    let mut i: usize = 0;
    while i < names.len()
        invariant
            tg.wf(),
            depth > 0,
            nv == string_views(names@),
            nv == sorted_set(callee_names(cv)),
            same_names(nv, callee_names(cv)),
            cv == cs@.map_values(|c: &CallSite| *c),
            visited@.len() == v0.len() + 1,
            visited@.subrange(0, v0.len() as int) == v0,
            pair_views(visited@) == vis,
            i <= names@.len(),
            string_views(out@) + callee_blocks(*tg, cg.calls@, class@, vis, prefix@, depth as nat, cv, nv, i as int)
                == target,
        decreases names.len() - i,
    {
        callee_block_exec(tg, cg, class, visited, prefix, depth, &cs, &names, i, out);
        i = i + 1;
    }
    visited.pop();
    assert(visited@ =~= v0);
    assert(string_views(out@) =~= target);
}

/// Appends the block of the callee `names[i]` of the calls `cs` made from
/// a method of `class`.
fn callee_block_exec(
    tg: &TypeGraph,
    cg: &CallGraph,
    class: &str,
    visited: &mut Vec<(String, String)>,
    prefix: &str,
    depth: usize,
    cs: &Vec<&CallSite>,
    names: &Vec<String>,
    i: usize,
    out: &mut Vec<String>,
)
    requires
        tg.wf(),
        depth > 0,
        i < names@.len(),
        same_names(string_views(names@), callee_names(cs@.map_values(|c: &CallSite| *c))),
    ensures
        string_views(final(out)@) == string_views(old(out)@) + callee_block(
            *tg,
            cg.calls@,
            class@,
            pair_views(old(visited)@),
            prefix@,
            depth as nat,
            cs@.map_values(|c: &CallSite| *c),
            string_views(names@),
            i as int,
        ),
        final(visited)@ == old(visited)@,
    decreases depth, 1nat,
{
    let ghost cv = cs@.map_values(|c: &CallSite| *c);
    let ghost nv = string_views(names@);
    let callee = names[i].as_str();
    proof {
        assert(nv[i as int] == callee@);
        assert(nv.contains(callee@));
        assert(callee_names(cv).contains(callee@));
        let k = choose|k: int| 0 <= k < callee_names(cv).len() && callee_names(cv)[k] == callee@;
        lemma_calls_to_nonempty(cv, callee@, k);
    }
    let sites = calls_to_exec(cs, callee);
    let ghost sv = sites@.map_values(|c: &CallSite| *c);
    assert(sv[0] == *sites@[0]);
    let target = sites[0].target_expr.as_str();
    let last = i == names.len() - 1;
    let mut head = String::from_str(prefix);
    if last {
        head.append("\u{2514}\u{2500}\u{2500}");
    } else {
        head.append("\u{251c}\u{2500}\u{2500}");
    }
    assert(head@ == prefix@ + connector(last));
    head.append(" ");
    head.append(callee);
    let ghost h1 = head@;
    if target.unicode_len() > 0 {
        head.append(" via ");
        head.append(target);
        assert(head@ =~= h1 + via_text(target@));
    } else {
        proof {
            reveal_strlit("");
        }
        assert(head@ =~= h1 + via_text(target@));
    }
    head.append(" (");
    let n = decimal_string(sites.len());
    head.append(n.as_str());
    head.append("x)");
    let mut next = String::from_str(prefix);
    if last {
        next.append("   ");
    } else {
        next.append("\u{2502}  ");
    }
    let ghost o0 = string_views(out@);
    out.push(head);
    let ghost o1 = string_views(out@);
    assert(o1 =~= o0 + seq![prefix@ + connector(last) + " "@ + callee@ + via_text(target@) + " ("@ + decimal(sv.len()) + "x)"@]);
    if has_dispatch_exec(tg, callee) {
        dispatch_exec(tg, cg, callee, target, next.as_str(), depth, out);
    } else {
        match resolved_class_exec(tg, callee, target) {
            Some(rc) => {
                if str_eq(rc.as_str(), class) {
                    call_tree(tg, cg, rc.as_str(), callee, visited, next.as_str(), depth - 1, out);
                } else {
                    let mut fresh: Vec<(String, String)> = Vec::new();
                    assert(pair_views(fresh@) =~= Seq::<(Seq<char>, Seq<char>)>::empty());
                    call_tree(tg, cg, rc.as_str(), callee, &mut fresh, next.as_str(), depth - 1, out);
                }
            },
            None => {},
        }
    }
    assert(string_views(out@) =~= o0 + callee_block(*tg, cg.calls@, class@, pair_views(visited@), prefix@, depth as nat, cv, nv, i as int));
}

/// Appends the dispatch blocks of `callee`: for each interface declaring it
/// that has implementing classes, a header, then each implementing class
/// with the tree of its method `callee`.
fn dispatch_exec(
    tg: &TypeGraph,
    cg: &CallGraph,
    callee: &str,
    target: &str,
    next: &str,
    depth: usize,
    out: &mut Vec<String>,
)
    requires
        tg.wf(),
        depth > 0,
    ensures
        string_views(final(out)@) == string_views(old(out)@) + dispatch_lines(
            *tg,
            cg.calls@,
            callee@,
            target@,
            next@,
            depth as nat,
            0,
        ),
    decreases depth, 0nat,
{
    let ghost o0 = string_views(out@);
    let ghost goal = o0 + dispatch_lines(*tg, cg.calls@, callee@, target@, next@, depth as nat, 0);
    let mut j: usize = 0;
    while j < tg.interfaces.len()
        invariant
            tg.wf(),
            depth > 0,
            j <= tg.interfaces@.len(),
            string_views(out@) + dispatch_lines(*tg, cg.calls@, callee@, target@, next@, depth as nat, j as int) == goal,
        decreases tg.interfaces.len() - j,
    {
        let ghost oj = string_views(out@);
        let it = &tg.interfaces[j];
        let ghost impls_v = tg.spec_concrete_subclasses(it.name@);
        if any_method_named(&it.methods, callee) {
            let impls = tg.concrete_subclasses(it.name.as_str());
            if impls.len() > 0 {
                let mut h = String::from_str(next);
                h.append("\u{2550}\u{2550} DISPATCH: ");
                h.append(target);
                h.append(" \u{2192} ");
                h.append(it.name.as_str());
                h.append(" \u{2550}\u{2550}");
                out.push(h);
                let ghost oh = string_views(out@);
                assert(oh =~= oj + seq![next@ + "\u{2550}\u{2550} DISPATCH: "@ + target@ + " \u{2192} "@ + it.name@ + " \u{2550}\u{2550}"@]);
                let ghost iv = impls@.map_values(|c: &ClassInfo| *c);
                let mut inner = String::from_str(next);
                inner.append("  ");
                let mut k: usize = 0;
                while k < impls.len()
                    invariant
                        tg.wf(),
                        depth > 0,
                        iv == impls@.map_values(|c: &ClassInfo| *c),
                        inner@ == next@ + "  "@,
                        k <= impls@.len(),
                        string_views(out@) + impl_lines(*tg, cg.calls@, callee@, next@, depth as nat, iv, k as int)
                            == oh + impl_lines(*tg, cg.calls@, callee@, next@, depth as nat, iv, 0),
                    decreases impls.len() - k,
                {
                    let ghost ok = string_views(out@);
                    let c = impls[k];
                    assert(iv[k as int] == *c);
                    let mut l = String::from_str(next);
                    l.append("\u{2500}\u{2500} ");
                    l.append(c.name.as_str());
                    l.append(" \u{2500}\u{2500}");
                    out.push(l);
                    assert(string_views(out@) =~= ok + seq![next@ + "\u{2500}\u{2500} "@ + c.name@ + " \u{2500}\u{2500}"@]);
                    let mut fresh: Vec<(String, String)> = Vec::new();
                    assert(pair_views(fresh@) =~= Seq::<(Seq<char>, Seq<char>)>::empty());
                    call_tree(tg, cg, c.name.as_str(), callee, &mut fresh, inner.as_str(), depth - 1, out);
                    k = k + 1;
                }
                assert(string_views(out@) =~= oj + seq![next@ + "\u{2550}\u{2550} DISPATCH: "@ + target@ + " \u{2192} "@ + it.name@ + " \u{2550}\u{2550}"@]
                    + impl_lines(*tg, cg.calls@, callee@, next@, depth as nat, impls_v, 0));
            }
        }
        j = j + 1;
    }
    assert(string_views(out@) =~= goal);
}

} // verus!
