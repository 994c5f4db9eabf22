//! Dominators by iterative dataflow: the dominator sets of a graph from a
//! root, the immediate dominator read off them, and the walk up the
//! immediate dominators that decides whether one node dominates another.
//!
//! A graph here is `n` nodes and a list of edges `(from, to)`; sets of
//! nodes are rows of `n` booleans.

use vstd::prelude::*;
use crate::cfg::blocks::{BlockEdge, CfgGraph, cfg_blocks, cfg_edges, cfg_node_count, cfg_edge_count, cfg_edge_at};

verus! {

/// Every edge joins two of the `n` nodes.
pub open spec fn pairs_in(pairs: Seq<(usize, usize)>, n: nat) -> bool {
    forall|k: int| 0 <= k < pairs.len() ==> (#[trigger] pairs[k]).0 < n && pairs[k].1 < n
}

/// Node `v` has an edge coming in.
pub open spec fn has_pred(pairs: Seq<(usize, usize)>, v: int) -> bool {
    exists|k: int| 0 <= k < pairs.len() && (#[trigger] pairs[k]).1 == v
}

/// What the dominator equations ask of `x ∈ D(v)`: the root is dominated
/// by itself alone; a node without predecessors keeps every node; any other
/// node `v` has `v` and what all its predecessors' sets share.
pub open spec fn dom_rule(d: Seq<Seq<bool>>, pairs: Seq<(usize, usize)>, root: int, v: int, x: int) -> bool {
    if v == root {
        x == root
    } else if !has_pred(pairs, v) {
        true
    } else {
        x == v || forall|k: int| 0 <= k < pairs.len() && (#[trigger] pairs[k]).1 == v ==> d[pairs[k].0 as int][x]
    }
}

/// `d` is `n` rows of `n` booleans.
pub open spec fn square(d: Seq<Seq<bool>>, n: nat) -> bool {
    d.len() == n && forall|v: int| 0 <= v < n ==> (#[trigger] d[v]).len() == n
}

/// `d` solves the dominator equations.
pub open spec fn dom_solution(d: Seq<Seq<bool>>, n: nat, pairs: Seq<(usize, usize)>, root: int) -> bool {
    &&& square(d, n)
    &&& forall|v: int, x: int| 0 <= v < n && 0 <= x < n ==> #[trigger] d[v][x] == dom_rule(d, pairs, root, v, x)
}

/// Every set of `a` is within the matching set of `b`.
pub open spec fn within(a: Seq<Seq<bool>>, b: Seq<Seq<bool>>, n: nat) -> bool {
    forall|v: int, x: int| 0 <= v < n && 0 <= x < n && #[trigger] a[v][x] ==> b[v][x]
}

/// `d` is the greatest solution of the dominator equations: every other
/// solution is within it.
pub open spec fn greatest_dom_solution(d: Seq<Seq<bool>>, n: nat, pairs: Seq<(usize, usize)>, root: int) -> bool {
    &&& dom_solution(d, n, pairs, root)
    &&& forall|s: Seq<Seq<bool>>| #[trigger] dom_solution(s, n, pairs, root) ==> within(s, d, n)
}

/// The dominator sets of the graph from `root`: the greatest solution of
/// the dominator equations (which the iteration from "every node" reaches).
pub open spec fn dominator_sets(n: nat, pairs: Seq<(usize, usize)>, root: int) -> Seq<Seq<bool>> {
    choose|d: Seq<Seq<bool>>| greatest_dom_solution(d, n, pairs, root)
}

/// There is only one greatest solution.
pub proof fn lemma_greatest_unique(a: Seq<Seq<bool>>, b: Seq<Seq<bool>>, n: nat, pairs: Seq<(usize, usize)>, root: int)
    requires
        greatest_dom_solution(a, n, pairs, root),
        greatest_dom_solution(b, n, pairs, root),
    ensures
        a == b,
{
    assert(within(a, b, n));
    assert(within(b, a, n));
    assert forall|v: int| 0 <= v < n implies a[v] =~= b[v] by {
        assert forall|x: int| 0 <= x < n implies a[v][x] == b[v][x] by {
            if a[v][x] {
                assert(b[v][x]);
            }
            if b[v][x] {
                assert(a[v][x]);
            }
        }
    }
    assert(a =~= b);
}

/// The rule only grows with the sets it reads.
proof fn lemma_rule_monotone(a: Seq<Seq<bool>>, b: Seq<Seq<bool>>, n: nat, pairs: Seq<(usize, usize)>, root: int, v: int, x: int)
    requires
        pairs_in(pairs, n),
        square(a, n),
        square(b, n),
        within(a, b, n),
        0 <= x < n,
        dom_rule(a, pairs, root, v, x),
    ensures
        dom_rule(b, pairs, root, v, x),
{
    if v != root && has_pred(pairs, v) && x != v {
        assert forall|k: int| 0 <= k < pairs.len() && (#[trigger] pairs[k]).1 == v implies b[pairs[k].0 as int][x] by {
            assert(a[pairs[k].0 as int][x]);
        }
    }
}

/// `d` holds at least what the rule asks of it.
pub open spec fn above_rule(d: Seq<Seq<bool>>, n: nat, pairs: Seq<(usize, usize)>, root: int) -> bool {
    forall|v: int, x: int| 0 <= v < n && 0 <= x < n && dom_rule(d, pairs, root, v, x) ==> #[trigger] d[v][x]
}

/// Every solution is within `d`.
pub open spec fn above_solutions(d: Seq<Seq<bool>>, n: nat, pairs: Seq<(usize, usize)>, root: int) -> bool {
    forall|s: Seq<Seq<bool>>| #[trigger] dom_solution(s, n, pairs, root) ==> within(s, d, n)
}

/// The row that the rule gives node `v`.
pub open spec fn rule_row(d: Seq<Seq<bool>>, n: nat, pairs: Seq<(usize, usize)>, root: int, v: int) -> Seq<bool> {
    Seq::new(n, |x: int| dom_rule(d, pairs, root, v, x))
}

/// The number of nodes in a set.
pub open spec fn count_row(r: Seq<bool>) -> nat
    decreases r.len(),
{
    if r.len() == 0 {
        0
    } else {
        count_row(r.drop_last()) + if r.last() {
            1nat
        } else {
            0nat
        }
    }
}

/// The number of members over all sets.
pub open spec fn count_all(d: Seq<Seq<bool>>) -> nat
    decreases d.len(),
{
    if d.len() == 0 {
        0
    } else {
        count_all(d.drop_last()) + count_row(d.last())
    }
}

proof fn lemma_count_row_sub(a: Seq<bool>, b: Seq<bool>)
    requires
        a.len() == b.len(),
        forall|x: int| 0 <= x < a.len() && #[trigger] a[x] ==> b[x],
    ensures
        count_row(a) <= count_row(b),
        a != b ==> count_row(a) < count_row(b),
    decreases a.len(),
{
    if a.len() > 0 {
        lemma_count_row_sub(a.drop_last(), b.drop_last());
        if a != b && a.drop_last() == b.drop_last() {
            assert(a.last() != b.last()) by {
                if a.last() == b.last() {
                    assert forall|x: int| 0 <= x < a.len() implies a[x] == b[x] by {
                        if x < a.len() - 1 {
                            assert(a[x] == a.drop_last()[x]);
                            assert(b[x] == b.drop_last()[x]);
                        }
                    }
                    assert(a =~= b);
                }
            }
        }
    } else {
        assert(a =~= b);
    }
}

proof fn lemma_count_all_update(d: Seq<Seq<bool>>, v: int, r: Seq<bool>)
    requires
        0 <= v < d.len(),
    ensures
        count_all(d.update(v, r)) + count_row(d[v]) == count_all(d) + count_row(r),
    decreases d.len(),
{
    if v == d.len() - 1 {
        assert(d.update(v, r).drop_last() =~= d.drop_last());
    } else {
        lemma_count_all_update(d.drop_last(), v, r);
        assert(d.update(v, r).drop_last() =~= d.drop_last().update(v, r));
    }
}

/// Replacing the row of `v` by the rule's row keeps `d` above the rule and
/// above every solution, and only shrinks it.
proof fn lemma_update_row(d: Seq<Seq<bool>>, n: nat, pairs: Seq<(usize, usize)>, root: int, v: int)
    requires
        pairs_in(pairs, n),
        square(d, n),
        0 <= v < n,
        above_rule(d, n, pairs, root),
        above_solutions(d, n, pairs, root),
    ensures
        square(d.update(v, rule_row(d, n, pairs, root, v)), n),
        within(d.update(v, rule_row(d, n, pairs, root, v)), d, n),
        above_rule(d.update(v, rule_row(d, n, pairs, root, v)), n, pairs, root),
        above_solutions(d.update(v, rule_row(d, n, pairs, root, v)), n, pairs, root),
{
    let r = rule_row(d, n, pairs, root, v);
    let d2 = d.update(v, r);
    assert(square(d2, n));
    assert forall|u: int, x: int| 0 <= u < n && 0 <= x < n && #[trigger] d2[u][x] implies d[u][x] by {
        if u == v {
            assert(dom_rule(d, pairs, root, v, x));
        }
    }
    assert forall|u: int, x: int| 0 <= u < n && 0 <= x < n && dom_rule(d2, pairs, root, u, x) implies #[trigger] d2[u][x] by {
        lemma_rule_monotone(d2, d, n, pairs, root, u, x);
        if u == v {
            assert(r[x] == dom_rule(d, pairs, root, v, x));
        }
    }
    assert forall|s: Seq<Seq<bool>>| #[trigger] dom_solution(s, n, pairs, root) implies within(s, d2, n) by {
        assert(within(s, d, n));
        assert forall|u: int, x: int| 0 <= u < n && 0 <= x < n && #[trigger] s[u][x] implies d2[u][x] by {
            if u == v {
                assert(dom_rule(s, pairs, root, u, x));
                lemma_rule_monotone(s, d, n, pairs, root, u, x);
                assert(r[x] == dom_rule(d, pairs, root, v, x));
            } else {
                assert(d[u][x]);
            }
        }
    }
}

/// The sets as rows of booleans.
pub open spec fn rows(d: Vec<Vec<bool>>) -> Seq<Seq<bool>> {
    d@.map_values(|r: Vec<bool>| r@)
}

/// Whether node `v` has an edge coming in.
fn has_pred_exec(pairs: &Vec<(usize, usize)>, v: usize) -> (r: bool)
    ensures
        r == has_pred(pairs@, v as int),
{
    let mut k: usize = 0;
    while k < pairs.len()
        invariant
            k <= pairs@.len(),
            forall|j: int| 0 <= j < k ==> (#[trigger] pairs@[j]).1 != v,
        decreases pairs.len() - k,
    {
        if pairs[k].1 == v {
            return true;
        }
        k = k + 1;
    }
    false
}

/// The row the rule gives `v` (a node other than the root, with
/// predecessors).
fn rule_row_exec(d: &Vec<Vec<bool>>, n: usize, pairs: &Vec<(usize, usize)>, root: usize, v: usize) -> (r: Vec<bool>)
    requires
        pairs_in(pairs@, n as nat),
        square(rows(*d), n as nat),
        v < n,
        v != root,
        has_pred(pairs@, v as int),
    ensures
        r@ == rule_row(rows(*d), n as nat, pairs@, root as int, v as int),
{
    let ghost dv = rows(*d);
    let mut row: Vec<bool> = Vec::new();
    let mut x: usize = 0;
    while x < n
        invariant
            pairs_in(pairs@, n as nat),
            square(dv, n as nat),
            dv == rows(*d),
            v < n,
            v != root,
            has_pred(pairs@, v as int),
            x <= n,
            row@.len() == x,
            forall|y: int| 0 <= y < x ==> #[trigger] row@[y] == dom_rule(dv, pairs@, root as int, v as int, y),
        decreases n - x,
    {
        let mut all = true;
        let mut k: usize = 0;
        while k < pairs.len()
            invariant
                pairs_in(pairs@, n as nat),
                square(dv, n as nat),
                dv == rows(*d),
                x < n,
                k <= pairs@.len(),
                all == forall|j: int| 0 <= j < k && (#[trigger] pairs@[j]).1 == v ==> dv[pairs@[j].0 as int][x as int],
            decreases pairs.len() - k,
        {
            if pairs[k].1 == v {
                let p = pairs[k].0;
                assert(dv[p as int] == d@[p as int]@);
                if !d[p][x] {
                    all = false;
                }
            }
            k = k + 1;
        }
        row.push(x == v || all);
        x = x + 1;
    }
    assert(row@ =~= rule_row(dv, n as nat, pairs@, root as int, v as int));
    row
}

/// Whether two rows are equal.
fn same_row(a: &Vec<bool>, b: &Vec<bool>) -> (r: bool)
    requires
        a@.len() == b@.len(),
    ensures
        r == (a@ == b@),
{
    let mut i: usize = 0;
    while i < a.len()
        invariant
            a@.len() == b@.len(),
            i <= a@.len(),
            forall|j: int| 0 <= j < i ==> a@[j] == b@[j],
        decreases a.len() - i,
    {
        if a[i] != b[i] {
            return false;
        }
        i = i + 1;
    }
    assert(a@ =~= b@);
    true
}

/// The dominator sets of the graph of `n` nodes and edges `pairs` from
/// `root`, computed by iterating the equations from "every node" (the root
/// from itself alone) until nothing changes.
pub fn compute_dominator_sets(n: usize, pairs: &Vec<(usize, usize)>, root: usize) -> (d: Vec<Vec<bool>>)
    requires
        pairs_in(pairs@, n as nat),
        root < n,
    ensures
        greatest_dom_solution(rows(d), n as nat, pairs@, root as int),
        rows(d) == dominator_sets(n as nat, pairs@, root as int),
{
    let ghost nn = n as nat;
    let mut d: Vec<Vec<bool>> = Vec::new();
    let mut v: usize = 0;
    while v < n
        invariant
            v <= n,
            root < n,
            nn == n,
            d@.len() == v,
            forall|u: int| 0 <= u < v ==> (#[trigger] d@[u])@ == Seq::new(nn, |x: int| if u == root { x == root } else { true }),
        decreases n - v,
    {
        let mut row: Vec<bool> = Vec::new();
        let mut x: usize = 0;
        while x < n
            invariant
                x <= n,
                nn == n,
                row@.len() == x,
                forall|y: int| 0 <= y < x ==> #[trigger] row@[y] == if v == root { y == root } else { true },
            decreases n - x,
        {
            row.push(if v == root { x == root } else { true });
            x = x + 1;
        }
        assert(row@ =~= Seq::new(nn, |x: int| if v == root { x == root } else { true }));
        d.push(row);
        v = v + 1;
    }
    proof {
        let dv = rows(d);
        assert forall|u: int| 0 <= u < nn implies (#[trigger] dv[u]).len() == nn by {
            assert(dv[u] == d@[u]@);
        }
        assert(square(dv, nn));
        assert forall|u: int, x: int| 0 <= u < nn && 0 <= x < nn && dom_rule(dv, pairs@, root as int, u, x) implies #[trigger] dv[u][x] by {
            assert(dv[u] == d@[u]@);
        }
        assert forall|s: Seq<Seq<bool>>| #[trigger] dom_solution(s, nn, pairs@, root as int) implies within(s, dv, nn) by {
            assert forall|u: int, x: int| 0 <= u < nn && 0 <= x < nn && #[trigger] s[u][x] implies dv[u][x] by {
                assert(dv[u] == d@[u]@);
                assert(s[u][x] == dom_rule(s, pairs@, root as int, u, x));
            }
        }
    }
    let mut changed = true;
    while changed
        invariant
            pairs_in(pairs@, nn),
            root < n,
            nn == n,
            square(rows(d), nn),
            above_rule(rows(d), nn, pairs@, root as int),
            above_solutions(rows(d), nn, pairs@, root as int),
            forall|x: int| 0 <= x < nn ==> #[trigger] rows(d)[root as int][x] == (x == root),
            forall|u: int, x: int| 0 <= u < nn && 0 <= x < nn && u != root && !has_pred(pairs@, u) ==> #[trigger] rows(d)[u][x],
            !changed ==> dom_solution(rows(d), nn, pairs@, root as int),
        decreases count_all(rows(d)) * 2 + if changed { 1nat } else { 0nat },
    {
        changed = false;
        let ghost start = rows(d);
        let mut v: usize = 0;
        while v < n
            invariant
                pairs_in(pairs@, nn),
                root < n,
                nn == n,
                v <= n,
                square(rows(d), nn),
                above_rule(rows(d), nn, pairs@, root as int),
                above_solutions(rows(d), nn, pairs@, root as int),
                forall|x: int| 0 <= x < nn ==> #[trigger] rows(d)[root as int][x] == (x == root),
                forall|u: int, x: int| 0 <= u < nn && 0 <= x < nn && u != root && !has_pred(pairs@, u) ==> #[trigger] rows(d)[u][x],
                !changed ==> rows(d) == start,
                changed ==> count_all(rows(d)) < count_all(start),
                !changed ==> forall|u: int, x: int| 0 <= u < v && 0 <= x < nn ==> #[trigger] rows(d)[u][x] == dom_rule(rows(d), pairs@, root as int, u, x),
            decreases n - v,
        {
            if v != root && has_pred_exec(pairs, v) {
                let ghost dv = rows(d);
                let row = rule_row_exec(&d, n, pairs, root, v);
                assert(dv[v as int] == d@[v as int]@);
                if !same_row(&row, &d[v]) {
                    proof {
                        lemma_update_row(dv, nn, pairs@, root as int, v as int);
                        let d2 = dv.update(v as int, row@);
                        assert forall|x: int| 0 <= x < nn && #[trigger] row@[x] implies dv[v as int][x] by {
                            assert(d2[v as int][x]);
                        }
                        lemma_count_row_sub(row@, dv[v as int]);
                        lemma_count_all_update(dv, v as int, row@);
                    }
                    d.set(v, row);
                    assert(rows(d) =~= dv.update(v as int, row@));
                    changed = true;
                } else {
                    proof {
                        if !changed {
                            assert forall|x: int| 0 <= x < nn implies #[trigger] rows(d)[v as int][x] == dom_rule(rows(d), pairs@, root as int, v as int, x) by {
                                assert(row@[x] == dom_rule(dv, pairs@, root as int, v as int, x));
                            }
                        }
                    }
                }
            } else {
                proof {
                    if !changed {
                        assert forall|x: int| 0 <= x < nn implies #[trigger] rows(d)[v as int][x] == dom_rule(rows(d), pairs@, root as int, v as int, x) by {
                            if v == root {
                            } else {
                                assert(!has_pred(pairs@, v as int));
                            }
                        }
                    }
                }
            }
            v = v + 1;
        }
    }
    proof {
        let dv = rows(d);
        assert(greatest_dom_solution(dv, nn, pairs@, root as int));
        let c = dominator_sets(nn, pairs@, root as int);
        assert(greatest_dom_solution(c, nn, pairs@, root as int));
        lemma_greatest_unique(dv, c, nn, pairs@, root as int);
    }
    d
}

/// Among the nodes below `k` that dominate `v` strictly, the one whose own
/// dominator set is largest (the last such in index order on a tie).
pub open spec fn best_up_to(d: Seq<Seq<bool>>, v: int, k: int) -> Option<int>
    decreases k,
{
    if k <= 0 {
        None
    } else {
        let c = k - 1;
        let prev = best_up_to(d, v, k - 1);
        if c != v && d[v][c] {
            match prev {
                None => Some(c),
                Some(b) => if count_row(d[c]) >= count_row(d[b]) {
                    Some(c)
                } else {
                    Some(b)
                },
            }
        } else {
            prev
        }
    }
}

/// The immediate dominator of `v`: the root's is itself; any other node's
/// is its strict dominator with the largest dominator set (none when it has
/// no strict dominator).
pub open spec fn idom_of(d: Seq<Seq<bool>>, n: nat, root: int, v: int) -> Option<int> {
    if v == root {
        Some(root)
    } else {
        best_up_to(d, v, n as int)
    }
}

/// The immediate dominators of the graph from `root`.
pub open spec fn idoms_of(n: nat, pairs: Seq<(usize, usize)>, root: int) -> Seq<Option<int>> {
    Seq::new(n, |v: int| idom_of(dominator_sets(n, pairs, root), n, root, v))
}

/// The walk up the immediate dominators from `cur`, at most `k` steps:
/// `Some(true)` on meeting `dom`, `Some(false)` at a node without one or
/// at a node that is its own, `None` when the steps run out.
pub open spec fn walk(idoms: Seq<Option<int>>, dom: int, cur: int, k: nat) -> Option<bool>
    decreases k,
{
    if k == 0 {
        None
    } else {
        match idoms[cur] {
            None => Some(false),
            Some(id) => if id == dom {
                Some(true)
            } else if id == cur {
                Some(false)
            } else {
                walk(idoms, dom, id, (k - 1) as nat)
            },
        }
    }
}

/// Whether `dom` dominates `node` by the immediate dominators: it is
/// `node`, or the walk up from `node` meets it within `n + 1` steps (a walk
/// still going after that many steps is in a cycle that misses `dom`).
pub open spec fn dominates_by(idoms: Seq<Option<int>>, dom: int, node: int) -> bool {
    dom == node || walk(idoms, dom, node, idoms.len() + 1) == Some(true)
}

/// Every immediate dominator is a node.
pub open spec fn idoms_in(idoms: Seq<Option<int>>) -> bool {
    forall|v: int| 0 <= v < idoms.len() ==> match #[trigger] idoms[v] {
        Some(u) => 0 <= u < idoms.len(),
        None => true,
    }
}

proof fn lemma_best_in(d: Seq<Seq<bool>>, v: int, k: int)
    ensures
        best_up_to(d, v, k) matches Some(b) ==> 0 <= b < k,
    decreases k,
{
    if k > 0 {
        lemma_best_in(d, v, k - 1);
    }
}

fn count_row_exec(r: &Vec<bool>) -> (c: usize)
    ensures
        c == count_row(r@),
{
    let mut c: usize = 0;
    let mut i: usize = 0;
    while i < r.len()
        invariant
            i <= r@.len(),
            c == count_row(r@.take(i as int)),
            c <= i,
        decreases r.len() - i,
    {
        assert(r@.take(i + 1).drop_last() =~= r@.take(i as int));
        if r[i] {
            c = c + 1;
        }
        i = i + 1;
    }
    assert(r@.take(r@.len() as int) =~= r@);
    c
}

/// Immediate dominators, by node.
pub struct Dominators {
    pub idoms: Vec<Option<usize>>,
}

/// The immediate dominators as integers.
pub open spec fn idom_view(idoms: Seq<Option<usize>>) -> Seq<Option<int>> {
    idoms.map_values(|o: Option<usize>| match o {
        Some(u) => Some(u as int),
        None => None,
    })
}

impl Dominators {
    /// The immediate dominators of the graph of `n` nodes and edges `pairs`
    /// from `root`.
    pub fn compute_on(n: usize, pairs: &Vec<(usize, usize)>, root: usize) -> (r: Dominators)
        requires
            pairs_in(pairs@, n as nat),
            root < n,
        ensures
            idom_view(r.idoms@) == idoms_of(n as nat, pairs@, root as int),
    {
        let d = compute_dominator_sets(n, pairs, root);
        let ghost dv = rows(d);
        let mut sizes: Vec<usize> = Vec::new();
        let mut u: usize = 0;
        while u < n
            invariant
                u <= n,
                dv == rows(d),
                square(dv, n as nat),
                sizes@.len() == u,
                forall|w: int| 0 <= w < u ==> #[trigger] sizes@[w] == count_row(dv[w]),
            decreases n - u,
        {
            assert(dv[u as int] == d@[u as int]@);
            sizes.push(count_row_exec(&d[u]));
            u = u + 1;
        }
        let mut idoms: Vec<Option<usize>> = Vec::new();
        let mut v: usize = 0;
        while v < n
            invariant
                v <= n,
                root < n,
                dv == rows(d),
                dv == dominator_sets(n as nat, pairs@, root as int),
                square(dv, n as nat),
                sizes@.len() == n,
                forall|w: int| 0 <= w < n ==> #[trigger] sizes@[w] == count_row(dv[w]),
                idoms@.len() == v,
                forall|w: int| 0 <= w < v ==> #[trigger] idom_view(idoms@)[w] == idom_of(dv, n as nat, root as int, w),
            decreases n - v,
        {
            let ghost before = idoms@;
            if v == root {
                idoms.push(Some(root));
                assert(idom_view(idoms@)[v as int] == Some(root as int));
            } else {
                let mut best: Option<usize> = None;
                let mut c: usize = 0;
                assert(dv[v as int] == d@[v as int]@);
                while c < n
                    invariant
                        c <= n,
                        v < n,
                        dv == rows(d),
                        square(dv, n as nat),
                        sizes@.len() == n,
                        forall|w: int| 0 <= w < n ==> #[trigger] sizes@[w] == count_row(dv[w]),
                        dv[v as int] == d@[v as int]@,
                        match best {
                            Some(b) => best_up_to(dv, v as int, c as int) == Some(b as int) && b < c,
                            None => best_up_to(dv, v as int, c as int) is None,
                        },
                    decreases n - c,
                {
                    if c != v && d[v][c] {
                        match best {
                            None => {
                                best = Some(c);
                            },
                            Some(b) => {
                                if sizes[c] >= sizes[b] {
                                    best = Some(c);
                                }
                            },
                        }
                    }
                    c = c + 1;
                }
                idoms.push(best);
                assert(idom_view(idoms@)[v as int] == best_up_to(dv, v as int, n as int));
            }
            assert(idoms@ == before.push(idoms@[v as int]));
            assert forall|w: int| 0 <= w <= v implies #[trigger] idom_view(idoms@)[w] == idom_of(dv, n as nat, root as int, w) by {
                if w < v {
                    assert(idoms@[w] == before[w]);
                    assert(idom_view(before)[w] == idom_of(dv, n as nat, root as int, w));
                    assert(idom_view(idoms@)[w] == idom_view(before)[w]);
                } else {
                    assert(w == v);
                }
            }
            v = v + 1;
        }
        assert(idom_view(idoms@) =~= idoms_of(n as nat, pairs@, root as int));
        Dominators { idoms }
    }

    /// The immediate dominator of `node`, if it has one.
    pub fn idom(&self, node: usize) -> (r: Option<usize>)
        ensures
            r == (if node < self.idoms@.len() {
                self.idoms@[node as int]
            } else {
                None
            }),
    {
        if node < self.idoms.len() {
            self.idoms[node]
        } else {
            None
        }
    }

    /// Whether `dom` dominates `node` (see `dominates_by`).
    pub fn dominates(&self, dom: usize, node: usize) -> (r: bool)
        requires
            idoms_in(idom_view(self.idoms@)),
            node < self.idoms@.len(),
        ensures
            r == dominates_by(idom_view(self.idoms@), dom as int, node as int),
    {
        let ghost iv = idom_view(self.idoms@);
        if dom == node {
            return true;
        }
        let n = self.idoms.len();
        let mut cur = node;
        let mut left: usize = n;
        loop
            invariant
                iv == idom_view(self.idoms@),
                dom != node,
                idoms_in(iv),
                n == iv.len(),
                cur < n,
                left <= n,
                walk(iv, dom as int, node as int, (n + 1) as nat) == walk(iv, dom as int, cur as int, (left + 1) as nat),
            decreases left,
        {
            let ghost k = (left + 1) as nat;
            match self.idoms[cur] {
                Some(id) => {
                    assert(iv[cur as int] == Some(id as int));
                    if id == dom {
                        assert(walk(iv, dom as int, cur as int, k) == Some(true));
                        return true;
                    }
                    if id == cur {
                        assert(walk(iv, dom as int, cur as int, k) == Some(false));
                        return false;
                    }
                    assert(walk(iv, dom as int, cur as int, k) == walk(iv, dom as int, id as int, (k - 1) as nat));
                    assert(id < n);
                    cur = id;
                },
                None => {
                    assert(iv[cur as int] == None::<int>);
                    assert(walk(iv, dom as int, cur as int, k) == Some(false));
                    return false;
                },
            }
            if left == 0 {
                assert(walk(iv, dom as int, cur as int, 0) is None);
                return false;
            }
            left = left - 1;
        }
    }
}

/// The immediate dominators of a graph are nodes of it.
pub proof fn lemma_idoms_in(n: nat, pairs: Seq<(usize, usize)>, root: int)
    requires
        0 <= root < n,
    ensures
        idoms_in(idoms_of(n, pairs, root)),
        idoms_of(n, pairs, root).len() == n,
{
    let iv = idoms_of(n, pairs, root);
    assert forall|v: int| 0 <= v < iv.len() implies match #[trigger] iv[v] {
        Some(u) => 0 <= u < iv.len(),
        None => true,
    } by {
        lemma_best_in(dominator_sets(n, pairs, root), v, n as int);
    }
}

/// The edges of a graph as pairs of nodes.
pub open spec fn edge_pairs(edges: Seq<(usize, usize, BlockEdge)>) -> Seq<(usize, usize)> {
    edges.map_values(|e: (usize, usize, BlockEdge)| (e.0, e.1))
}

/// The edges of a graph turned around.
pub open spec fn reversed_pairs(edges: Seq<(usize, usize, BlockEdge)>) -> Seq<(usize, usize)> {
    edges.map_values(|e: (usize, usize, BlockEdge)| (e.1, e.0))
}

/// The edges of `g` as pairs, forwards and turned around.
pub(crate) fn graph_pairs(g: &CfgGraph) -> (r: (Vec<(usize, usize)>, Vec<(usize, usize)>))
    ensures
        r.0@ == edge_pairs(cfg_edges(*g)),
        r.1@ == reversed_pairs(cfg_edges(*g)),
        pairs_in(r.0@, cfg_blocks(*g).len()),
        pairs_in(r.1@, cfg_blocks(*g).len()),
{
    let ghost es = cfg_edges(*g);
    let ghost n = cfg_blocks(*g).len();
    let m = cfg_edge_count(g);
    let mut fw: Vec<(usize, usize)> = Vec::new();
    let mut bw: Vec<(usize, usize)> = Vec::new();
    let mut k: usize = 0;
    while k < m
        invariant
            m == es.len(),
            es == cfg_edges(*g),
            n == cfg_blocks(*g).len(),
            k <= m,
            fw@ == edge_pairs(es).take(k as int),
            bw@ == reversed_pairs(es).take(k as int),
            pairs_in(fw@, n),
            pairs_in(bw@, n),
        decreases m - k,
    {
        let (a, b, _w) = cfg_edge_at(g, k);
        fw.push((a, b));
        bw.push((b, a));
        assert(fw@ =~= edge_pairs(es).take(k + 1));
        assert(bw@ =~= reversed_pairs(es).take(k + 1));
        k = k + 1;
    }
    assert(edge_pairs(es).take(m as int) =~= edge_pairs(es));
    assert(reversed_pairs(es).take(m as int) =~= reversed_pairs(es));
    (fw, bw)
}

impl Dominators {
    /// The dominators of a control flow graph from its entry block.
    pub fn compute(g: &CfgGraph, entry: usize) -> (r: Dominators)
        requires
            entry < cfg_blocks(*g).len(),
        ensures
            idom_view(r.idoms@) == idoms_of(cfg_blocks(*g).len(), edge_pairs(cfg_edges(*g)), entry as int),
    {
        let n = cfg_node_count(g);
        let (fw, _bw) = graph_pairs(g);
        Dominators::compute_on(n, &fw, entry)
    }

    /// The post-dominators of a control flow graph: its dominators, edges
    /// turned around, from its exit block.
    pub fn compute_reverse(g: &CfgGraph, exit: usize) -> (r: Dominators)
        requires
            exit < cfg_blocks(*g).len(),
        ensures
            idom_view(r.idoms@) == idoms_of(cfg_blocks(*g).len(), reversed_pairs(cfg_edges(*g)), exit as int),
    {
        let n = cfg_node_count(g);
        let (_fw, bw) = graph_pairs(g);
        Dominators::compute_on(n, &bw, exit)
    }
}

} // verus!
