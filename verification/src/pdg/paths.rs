//! Paths to the exit block: a depth-first search over simple paths that
//! stops after a given number of them.

use vstd::prelude::*;
use vstd::arithmetic::power::{pow, lemma_pow_positive};
use crate::hammock::dominators::pairs_in;

verus! {

/// The successors of `u`, last added edge first (the order in which the
/// graph lists the edges out of a node).
pub open spec fn succs(pairs: Seq<(usize, usize)>, u: int) -> Seq<usize>
    decreases pairs.len(),
{
    if pairs.len() == 0 {
        Seq::empty()
    } else if pairs.last().0 == u {
        seq![pairs.last().1] + succs(pairs.drop_last(), u)
    } else {
        succs(pairs.drop_last(), u)
    }
}

/// The extensions of `path` by the successors `ns` it does not visit yet,
/// in the order of `ns`.
pub open spec fn extensions(path: Seq<usize>, ns: Seq<usize>) -> Seq<Seq<usize>>
    decreases ns.len(),
{
    if ns.len() == 0 {
        Seq::empty()
    } else if path.contains(ns.last()) {
        extensions(path, ns.drop_last())
    } else {
        extensions(path, ns.drop_last()).push(path.push(ns.last()))
    }
}

/// The search from a stack of partial paths, with `found` paths so far and
/// at most `fuel` steps: the last partial path is taken off; when it ends
/// at `exit` it is found (and the search stops at `max` found paths), else
/// its extensions go on the stack.
pub open spec fn search(
    pairs: Seq<(usize, usize)>,
    exit: int,
    max: nat,
    stack: Seq<Seq<usize>>,
    found: Seq<Seq<usize>>,
    fuel: nat,
) -> Seq<Seq<usize>>
    decreases fuel,
{
    if fuel == 0 || stack.len() == 0 {
        found
    } else {
        let top = stack.last();
        let rest = stack.drop_last();
        if top.last() == exit {
            if found.len() + 1 >= max {
                found.push(top)
            } else {
                search(pairs, exit, max, rest, found.push(top), (fuel - 1) as nat)
            }
        } else {
            search(pairs, exit, max, rest + extensions(top, succs(pairs, top.last() as int)), found, (fuel - 1) as nat)
        }
    }
}

/// The number of steps that the search from one node can take at most.
pub open spec fn search_bound(n: nat, pairs: Seq<(usize, usize)>) -> nat {
    pow((pairs.len() + 1) as int, n) as nat
}

/// The first `max` simple paths from `from` to `exit`, in the order of the
/// depth-first search.
pub open spec fn paths_to_exit(n: nat, pairs: Seq<(usize, usize)>, from: int, exit: int, max: nat) -> Seq<Seq<usize>> {
    search(pairs, exit, max, seq![seq![from as usize]], Seq::empty(), search_bound(n, pairs))
}

/// A path of nodes below `n`, none twice.
pub open spec fn simple_path(p: Seq<usize>, n: nat) -> bool {
    &&& p.len() > 0
    &&& forall|i: int| 0 <= i < p.len() ==> (#[trigger] p[i]) < n
    &&& forall|i: int, j: int| 0 <= i < j < p.len() ==> p[i] != p[j]
}

/// What a stack of partial paths still may cost: each path of length `l`
/// counts `(m + 1)^(n + 1 - l)`.
pub open spec fn potential(stack: Seq<Seq<usize>>, b: int, n: nat) -> nat
    decreases stack.len(),
{
    if stack.len() == 0 {
        0
    } else {
        potential(stack.drop_last(), b, n) + pow(b, (n + 1 - stack.last().len()) as nat) as nat
    }
}

proof fn lemma_simple_len(p: Seq<usize>, n: nat)
    requires
        forall|i: int| 0 <= i < p.len() ==> (#[trigger] p[i]) < n,
        forall|i: int, j: int| 0 <= i < j < p.len() ==> p[i] != p[j],
    ensures
        p.len() <= n,
    decreases n,
{
    if n == 0 {
        if p.len() > 0 {
            assert(p[0] < n);
        }
    } else {
        let top = (n - 1) as usize;
        if p.contains(top) {
            let k = choose|k: int| 0 <= k < p.len() && p[k] == top;
            let q = p.remove(k);
            assert forall|i: int| 0 <= i < q.len() implies (#[trigger] q[i]) < n - 1 by {
                if i < k {
                    assert(q[i] == p[i]);
                    assert(p[i] != p[k]);
                } else {
                    assert(q[i] == p[i + 1]);
                    assert(p[i + 1] != p[k]);
                }
            }
            assert forall|i: int, j: int| 0 <= i < j < q.len() implies q[i] != q[j] by {
                let pi = if i < k { i } else { i + 1 };
                let pj = if j < k { j } else { j + 1 };
                assert(q[i] == p[pi]);
                assert(q[j] == p[pj]);
            }
            lemma_simple_len(q, (n - 1) as nat);
        } else {
            assert forall|i: int| 0 <= i < p.len() implies (#[trigger] p[i]) < n - 1 by {
                if p[i] == top {
                    assert(p.contains(top));
                }
            }
            lemma_simple_len(p, (n - 1) as nat);
        }
    }
}

proof fn lemma_potential_concat(a: Seq<Seq<usize>>, c: Seq<Seq<usize>>, b: int, n: nat)
    ensures
        potential(a + c, b, n) == potential(a, b, n) + potential(c, b, n),
    decreases c.len(),
{
    if c.len() == 0 {
        assert(a + c =~= a);
    } else {
        lemma_potential_concat(a, c.drop_last(), b, n);
        assert((a + c).drop_last() =~= a + c.drop_last());
    }
}

proof fn lemma_succs_len(pairs: Seq<(usize, usize)>, u: int)
    ensures
        succs(pairs, u).len() <= pairs.len(),
        forall|i: int| 0 <= i < succs(pairs, u).len() ==> exists|k: int| 0 <= k < pairs.len() && pairs[k].1 == #[trigger] succs(pairs, u)[i],
    decreases pairs.len(),
{
    if pairs.len() > 0 {
        lemma_succs_len(pairs.drop_last(), u);
        let rest = succs(pairs.drop_last(), u);
        if pairs.last().0 == u {
            let s = seq![pairs.last().1] + rest;
            assert forall|i: int| 0 <= i < s.len() implies exists|k: int| 0 <= k < pairs.len() && pairs[k].1 == #[trigger] s[i] by {
                if i == 0 {
                    assert(pairs[pairs.len() - 1].1 == s[0]);
                } else {
                    assert(s[i] == rest[i - 1]);
                    let k = choose|k: int| 0 <= k < pairs.drop_last().len() && pairs.drop_last()[k].1 == rest[i - 1];
                    assert(pairs[k] == pairs.drop_last()[k]);
                }
            }
        } else {
            assert forall|i: int| 0 <= i < rest.len() implies exists|k: int| 0 <= k < pairs.len() && pairs[k].1 == #[trigger] rest[i] by {
                let k = choose|k: int| 0 <= k < pairs.drop_last().len() && pairs.drop_last()[k].1 == rest[i];
                assert(pairs[k] == pairs.drop_last()[k]);
            }
        }
    }
}

/// The extensions of a simple path are simple, one node longer, and there
/// are no more of them than successors.
proof fn lemma_extensions(path: Seq<usize>, ns: Seq<usize>, n: nat)
    requires
        simple_path(path, n),
        forall|i: int| 0 <= i < ns.len() ==> (#[trigger] ns[i]) < n,
    ensures
        extensions(path, ns).len() <= ns.len(),
        forall|i: int| 0 <= i < extensions(path, ns).len() ==> simple_path(#[trigger] extensions(path, ns)[i], n)
            && extensions(path, ns)[i].len() == path.len() + 1,
    decreases ns.len(),
{
    if ns.len() > 0 {
        let d = ns.drop_last();
        assert forall|i: int| 0 <= i < d.len() implies (#[trigger] d[i]) < n by {
            assert(d[i] == ns[i]);
        }
        lemma_extensions(path, d, n);
        let e = extensions(path, d);
        if !path.contains(ns.last()) {
            let q = path.push(ns.last());
            assert forall|i: int, j: int| 0 <= i < j < q.len() implies q[i] != q[j] by {
                if j == q.len() - 1 {
                    assert(q[i] == path[i]);
                    if path[i] == ns.last() {
                        assert(path.contains(ns.last()));
                    }
                } else {
                    assert(q[i] == path[i]);
                    assert(q[j] == path[j]);
                }
            }
            assert forall|i: int| 0 <= i < q.len() implies (#[trigger] q[i]) < n by {
                if i < path.len() {
                    assert(q[i] == path[i]);
                }
            }
            assert(simple_path(q, n));
            assert forall|i: int| 0 <= i < e.push(q).len() implies simple_path(#[trigger] e.push(q)[i], n)
                && e.push(q)[i].len() == path.len() + 1 by {
                if i < e.len() {
                    assert(e.push(q)[i] == e[i]);
                }
            }
        }
    }
}

proof fn lemma_potential_extensions(es: Seq<Seq<usize>>, l: nat, b: int, n: nat)
    requires
        b >= 1,
        1 <= l <= n,
        forall|i: int| 0 <= i < es.len() ==> (#[trigger] es[i]).len() == l + 1,
    ensures
        potential(es, b, n) == es.len() * pow(b, (n - l) as nat),
    decreases es.len(),
{
    if es.len() > 0 {
        let d = es.drop_last();
        assert forall|i: int| 0 <= i < d.len() implies (#[trigger] d[i]).len() == l + 1 by {
            assert(d[i] == es[i]);
        }
        lemma_potential_extensions(d, l, b, n);
        assert((n + 1 - es.last().len()) as nat == (n - l) as nat);
        lemma_pow_positive(b, (n - l) as nat);
        assert(potential(es, b, n) == d.len() * pow(b, (n - l) as nat) + pow(b, (n - l) as nat));
        assert(es.len() * pow(b, (n - l) as nat) == d.len() * pow(b, (n - l) as nat) + pow(b, (n - l) as nat)) by (nonlinear_arith)
            requires
                es.len() == d.len() + 1,
        ;
    }
}

/// Expanding the last partial path lowers the potential.
proof fn lemma_step_lowers(rest: Seq<Seq<usize>>, top: Seq<usize>, es: Seq<Seq<usize>>, m: nat, n: nat)
    requires
        simple_path(top, n),
        top.len() <= n,
        es.len() <= m,
        forall|i: int| 0 <= i < es.len() ==> (#[trigger] es[i]).len() == top.len() + 1,
    ensures
        potential(rest + es, (m + 1) as int, n) < potential(rest.push(top), (m + 1) as int, n),
{
    let b: int = (m + 1) as int;
    let l = top.len();
    lemma_potential_concat(rest, es, b, n);
    lemma_potential_extensions(es, l, b, n);
    lemma_pow_positive(b, (n - l) as nat);
    assert(rest.push(top).drop_last() =~= rest);
    let e = (n + 1 - l) as nat;
    reveal(pow);
    assert(e > 0);
    assert((e - 1) as nat == (n - l) as nat);
    assert(pow(b, e) == b * pow(b, (e - 1) as nat));
    assert(pow(b, (n + 1 - l) as nat) == b * pow(b, (n - l) as nat));
    assert(es.len() * pow(b, (n - l) as nat) < b * pow(b, (n - l) as nat)) by (nonlinear_arith)
        requires
            es.len() <= m,
            b == m + 1,
            pow(b, (n - l) as nat) > 0,
    ;
}

/// The successors of `u`, last added edge first.
pub(crate) fn succs_exec(pairs: &Vec<(usize, usize)>, u: usize) -> (r: Vec<usize>)
    ensures
        r@ == succs(pairs@, u as int),
{
    let mut r: Vec<usize> = Vec::new();
    let mut k: usize = 0;
    while k < pairs.len()
        invariant
            k <= pairs@.len(),
            r@ == succs(pairs@.take(k as int), u as int).reverse(),
        decreases pairs.len() - k,
    {
        assert(pairs@.take(k + 1).drop_last() =~= pairs@.take(k as int));
        assert(pairs@.take(k + 1).last() == pairs@[k as int]);
        if pairs[k].0 == u {
            let ghost before = r@;
            r.push(pairs[k].1);
            assert(r@ =~= (seq![pairs@[k as int].1] + succs(pairs@.take(k as int), u as int)).reverse()) by {
                assert forall|i: int| 0 <= i < r@.len() implies r@[i] == (seq![pairs@[k as int].1] + succs(
                    pairs@.take(k as int),
                    u as int,
                )).reverse()[i] by {}
            }
        }
        k = k + 1;
    }
    assert(pairs@.take(pairs@.len() as int) =~= pairs@);
    let mut out: Vec<usize> = Vec::new();
    let mut i: usize = r.len();
    while i > 0
        invariant
            i <= r@.len(),
            out@ == r@.subrange(i as int, r@.len() as int).reverse(),
        decreases i,
    {
        i = i - 1;
        out.push(r[i]);
        assert(out@ =~= r@.subrange(i as int, r@.len() as int).reverse());
    }
    assert(r@.subrange(0, r@.len() as int) =~= r@);
    assert(r@.reverse().reverse() =~= r@.reverse().reverse());
    assert(out@ =~= succs(pairs@, u as int)) by {
        assert forall|j: int| 0 <= j < out@.len() implies out@[j] == succs(pairs@, u as int)[j] by {}
    }
    out
}

/// Whether the path visits `x`.
fn visits(path: &Vec<usize>, x: usize) -> (r: bool)
    ensures
        r == path@.contains(x),
{
    let mut i: usize = 0;
    while i < path.len()
        invariant
            i <= path@.len(),
            forall|j: int| 0 <= j < i ==> path@[j] != x,
        decreases path.len() - i,
    {
        if path[i] == x {
            assert(path@[i as int] == x);
            return true;
        }
        i = i + 1;
    }
    false
}

/// The paths of `stack` as sequences.
pub open spec fn path_views(s: Seq<Vec<usize>>) -> Seq<Seq<usize>> {
    s.map_values(|p: Vec<usize>| p@)
}

/// The first `max` simple paths from `from` to `exit` (see
/// `paths_to_exit`).
pub fn all_paths_to_exit(n: usize, pairs: &Vec<(usize, usize)>, from: usize, exit: usize, max: usize) -> (r: Vec<Vec<usize>>)
    requires
        pairs_in(pairs@, n as nat),
        from < n,
    ensures
        path_views(r@) == paths_to_exit(n as nat, pairs@, from as int, exit as int, max as nat),
{
    let ghost nn = n as nat;
    let ghost m = pairs@.len();
    let ghost b: int = (m + 1) as int;
    let mut found: Vec<Vec<usize>> = Vec::new();
    let mut stack: Vec<Vec<usize>> = Vec::new();
    let mut first: Vec<usize> = Vec::new();
    first.push(from);
    stack.push(first);
    let ghost mut fuel: nat = search_bound(nn, pairs@);
    proof {
        assert(path_views(stack@) =~= seq![seq![from as usize]]);
        assert(path_views(found@) =~= Seq::<Seq<usize>>::empty());
        assert(simple_path(seq![from as usize], nn));
        lemma_simple_len(seq![from as usize], nn);
        assert(potential(seq![seq![from as usize]], b, nn) == pow(b, nn) as nat) by {
            let st = seq![seq![from as usize]];
            reveal(pow);
            assert(st.drop_last() =~= Seq::<Seq<usize>>::empty());
            assert(st.last().len() == 1);
            assert((nn + 1 - st.last().len()) as nat == nn);
            lemma_pow_positive(b, nn);
            assert(potential(st.drop_last(), b, nn) == 0);
            assert(potential(st, b, nn) == potential(st.drop_last(), b, nn) + pow(b, (nn + 1 - st.last().len()) as nat) as nat);
        }
    }
    while stack.len() > 0
        invariant
            pairs_in(pairs@, nn),
            nn == n,
            m == pairs@.len(),
            b == m + 1,
            forall|i: int| 0 <= i < path_views(stack@).len() ==> simple_path(#[trigger] path_views(stack@)[i], nn),
            potential(path_views(stack@), b, nn) <= fuel,
            found@.len() < max || max == 0 && found@.len() == 0,
            search(pairs@, exit as int, max as nat, path_views(stack@), path_views(found@), fuel) == paths_to_exit(
                nn,
                pairs@,
                from as int,
                exit as int,
                max as nat,
            ),
        decreases potential(path_views(stack@), b, nn),
    {
        let ghost sv = path_views(stack@);
        let top = stack.pop().unwrap();
        let ghost rest = path_views(stack@);
        proof {
            assert(sv.last() == top@);
            assert(rest =~= sv.drop_last());
            assert(simple_path(top@, nn));
            lemma_simple_len(top@, nn);
            lemma_pow_positive(b, (nn + 1 - top@.len()) as nat);
            assert(sv == rest.push(top@));
            assert(fuel > 0);
        }
        let cur = top[top.len() - 1];
        if cur == exit {
            let ghost fv = path_views(found@);
            found.push(top);
            assert(path_views(found@) =~= fv.push(sv.last()));
            if found.len() >= max {
                return found;
            }
            proof {
                fuel = (fuel - 1) as nat;
            }
        } else {
            let ns = succs_exec(pairs, cur);
            let ghost es = extensions(top@, ns@);
            proof {
                lemma_succs_len(pairs@, cur as int);
                assert forall|i: int| 0 <= i < ns@.len() implies (#[trigger] ns@[i]) < nn by {
                    let k = choose|k: int| 0 <= k < pairs@.len() && pairs@[k].1 == ns@[i];
                    assert(pairs@[k].1 < nn);
                }
                lemma_extensions(top@, ns@, nn);
                lemma_step_lowers(rest, top@, es, m, nn);
            }
            let mut k: usize = 0;
            while k < ns.len()
                invariant
                    k <= ns@.len(),
                    path_views(stack@) == rest + extensions(top@, ns@.take(k as int)),
                decreases ns.len() - k,
            {
                assert(ns@.take(k + 1).drop_last() =~= ns@.take(k as int));
                assert(ns@.take(k + 1).last() == ns@[k as int]);
                if !visits(&top, ns[k]) {
                    let mut p = top.clone();
                    p.push(ns[k]);
                    let ghost before = path_views(stack@);
                    stack.push(p);
                    assert(path_views(stack@) =~= before.push(top@.push(ns@[k as int])));
                }
                k = k + 1;
            }
            assert(ns@.take(ns@.len() as int) =~= ns@);
            proof {
                let st = path_views(stack@);
                assert forall|i: int| 0 <= i < st.len() implies simple_path(#[trigger] st[i], nn) by {
                    if i < rest.len() {
                        assert(st[i] == rest[i]);
                        assert(rest[i] == sv[i]);
                    } else {
                        assert(st[i] == es[i - rest.len()]);
                    }
                }
                fuel = (fuel - 1) as nat;
            }
        }
    }
    found
}

/// The successors of a node are nodes.
pub proof fn lemma_succs_in(pairs: Seq<(usize, usize)>, u: int, n: nat)
    requires
        pairs_in(pairs, n),
    ensures
        forall|i: int| 0 <= i < succs(pairs, u).len() ==> (#[trigger] succs(pairs, u)[i]) < n,
{
    lemma_succs_len(pairs, u);
    assert forall|i: int| 0 <= i < succs(pairs, u).len() implies (#[trigger] succs(pairs, u)[i]) < n by {
        let k = choose|k: int| 0 <= k < pairs.len() && pairs[k].1 == succs(pairs, u)[i];
        assert(pairs[k].1 < n);
    }
}


proof fn lemma_extensions_start(path: Seq<usize>, ns: Seq<usize>)
    requires
        path.len() > 0,
    ensures
        forall|i: int| 0 <= i < extensions(path, ns).len() ==> (#[trigger] extensions(path, ns)[i])[0] == path[0],
    decreases ns.len(),
{
    if ns.len() > 0 {
        lemma_extensions_start(path, ns.drop_last());
        let e = extensions(path, ns.drop_last());
        if !path.contains(ns.last()) {
            assert forall|i: int| 0 <= i < e.push(path.push(ns.last())).len() implies (#[trigger] e.push(
                path.push(ns.last()),
            )[i])[0] == path[0] by {
                if i < e.len() {
                    assert(e.push(path.push(ns.last()))[i] == e[i]);
                }
            }
        }
    }
}

/// A path from `from` to `exit` of nodes below `n`, none twice.
pub open spec fn path_to_exit(p: Seq<usize>, n: nat, from: int, exit: int) -> bool {
    simple_path(p, n) && p[0] == from && p.last() == exit
}

proof fn lemma_search_paths(
    n: nat,
    pairs: Seq<(usize, usize)>,
    from: int,
    exit: int,
    max: nat,
    stack: Seq<Seq<usize>>,
    found: Seq<Seq<usize>>,
    fuel: nat,
)
    requires
        pairs_in(pairs, n),
        forall|i: int| 0 <= i < stack.len() ==> simple_path(#[trigger] stack[i], n) && stack[i][0] == from,
        forall|i: int| 0 <= i < found.len() ==> path_to_exit(#[trigger] found[i], n, from, exit),
        found.len() < max || (max == 0 && found.len() == 0),
    ensures
        forall|i: int|
            0 <= i < search(pairs, exit, max, stack, found, fuel).len() ==> path_to_exit(
                #[trigger] search(pairs, exit, max, stack, found, fuel)[i],
                n,
                from,
                exit,
            ),
        search(pairs, exit, max, stack, found, fuel).len() <= if max == 0 {
            1
        } else {
            max
        },
    decreases fuel,
{
    if fuel > 0 && stack.len() > 0 {
        let top = stack.last();
        let rest = stack.drop_last();
        assert(simple_path(top, n) && top[0] == from);
        assert forall|i: int| 0 <= i < rest.len() implies simple_path(#[trigger] rest[i], n) && rest[i][0] == from by {
            assert(rest[i] == stack[i]);
        }
        if top.last() == exit {
            let f2 = found.push(top);
            assert forall|i: int| 0 <= i < f2.len() implies path_to_exit(#[trigger] f2[i], n, from, exit) by {
                if i < found.len() {
                    assert(f2[i] == found[i]);
                }
            }
            if found.len() + 1 < max {
                lemma_search_paths(n, pairs, from, exit, max, rest, f2, (fuel - 1) as nat);
            }
        } else {
            let ns = succs(pairs, top.last() as int);
            lemma_succs_in(pairs, top.last() as int, n);
            lemma_extensions(top, ns, n);
            lemma_extensions_start(top, ns);
            let es = extensions(top, ns);
            let st = rest + es;
            assert forall|i: int| 0 <= i < st.len() implies simple_path(#[trigger] st[i], n) && st[i][0] == from by {
                if i < rest.len() {
                    assert(st[i] == rest[i]);
                } else {
                    assert(st[i] == es[i - rest.len()]);
                }
            }
            lemma_search_paths(n, pairs, from, exit, max, st, found, (fuel - 1) as nat);
        }
    }
}

/// The paths the search finds are simple paths from `from` to `exit`, and
/// there are at most `max` of them (one when `max` is 0).
pub proof fn law_paths_to_exit(n: nat, pairs: Seq<(usize, usize)>, from: int, exit: int, max: nat)
    requires
        pairs_in(pairs, n),
        0 <= from < n,
        n <= usize::MAX,
    ensures
        forall|i: int|
            0 <= i < paths_to_exit(n, pairs, from, exit, max).len() ==> path_to_exit(
                #[trigger] paths_to_exit(n, pairs, from, exit, max)[i],
                n,
                from,
                exit,
            ),
        paths_to_exit(n, pairs, from, exit, max).len() <= if max == 0 {
            1
        } else {
            max
        },
{
    let st = seq![seq![from as usize]];
    assert(simple_path(st[0], n));
    assert(st[0][0] == from);
    lemma_search_paths(n, pairs, from, exit, max, st, Seq::empty(), search_bound(n, pairs));
}

} // verus!
