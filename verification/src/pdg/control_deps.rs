//! Control dependences from post-dominators. A node's post-dominator here
//! is read off the simple paths from it to the exit (the first hundred of
//! them): among the nodes on all of them, one with the fewest edges from the
//! node.

use vstd::prelude::*;
use crate::cfg::blocks::{CfgGraph, cfg_blocks, cfg_edges, cfg_node_count};
use crate::hammock::dominators::{
    Dominators, pairs_in, idom_view, idoms_in, dominates_by, edge_pairs, reversed_pairs, graph_pairs,
};
use crate::hammock::builder::{reach_from, reach_exec};
use crate::pdg::paths::{paths_to_exit, all_paths_to_exit, path_views, succs, succs_exec};

verus! {

/// How many paths the post-dominator search looks at.
pub const PATH_LIMIT: usize = 100;

/// Node `c` is on every one of `paths`.
pub open spec fn on_all(paths: Seq<Seq<usize>>, c: int) -> bool {
    forall|i: int| 0 <= i < paths.len() ==> (#[trigger] paths[i]).contains(c as usize)
}

/// The number of edges from `v` to `c`.
pub open spec fn edge_count(pairs: Seq<(usize, usize)>, v: int, c: int) -> nat
    decreases pairs.len(),
{
    if pairs.len() == 0 {
        0
    } else {
        edge_count(pairs.drop_last(), v, c) + if pairs.last().0 == v && pairs.last().1 == c {
            1nat
        } else {
            0nat
        }
    }
}

/// Among the nodes below `k` other than `v` on all of `paths`, one with the
/// fewest edges from `v` (the first such in index order).
pub open spec fn pick_below(paths: Seq<Seq<usize>>, pairs: Seq<(usize, usize)>, v: int, k: int) -> Option<int>
    decreases k,
{
    if k <= 0 {
        None
    } else {
        let c = k - 1;
        let prev = pick_below(paths, pairs, v, k - 1);
        if c != v && on_all(paths, c) {
            match prev {
                None => Some(c),
                Some(b) => if edge_count(pairs, v, c) < edge_count(pairs, v, b) {
                    Some(c)
                } else {
                    Some(b)
                },
            }
        } else {
            prev
        }
    }
}

/// The post-dominator of `v`: the exit's is itself; a node that cannot
/// reach the exit has none; any other node's is picked from the nodes on
/// all of its first paths to the exit.
pub open spec fn pdom_of(n: nat, pairs: Seq<(usize, usize)>, rev: Seq<(usize, usize)>, exit: int, v: int) -> Option<int> {
    if v == exit {
        Some(exit)
    } else if !reach_from(n, rev, exit, n as int)[v] {
        None
    } else {
        let paths = paths_to_exit(n, pairs, v, exit, PATH_LIMIT as nat);
        if paths.len() == 0 {
            None
        } else {
            pick_below(paths, pairs, v, n as int)
        }
    }
}

/// The post-dominators of a graph with these edges.
pub open spec fn pdoms_of(n: nat, edges: Seq<(usize, usize, crate::cfg::blocks::BlockEdge)>, exit: int) -> Seq<Option<int>> {
    Seq::new(n, |v: int| pdom_of(n, edge_pairs(edges), reversed_pairs(edges), exit, v))
}

proof fn lemma_pick_in(paths: Seq<Seq<usize>>, pairs: Seq<(usize, usize)>, v: int, k: int)
    ensures
        pick_below(paths, pairs, v, k) matches Some(b) ==> 0 <= b < k,
    decreases k,
{
    if k > 0 {
        lemma_pick_in(paths, pairs, v, k - 1);
    }
}

fn edge_count_exec(pairs: &Vec<(usize, usize)>, v: usize, c: usize) -> (r: usize)
    ensures
        r == edge_count(pairs@, v as int, c as int),
{
    let mut r: usize = 0;
    let mut k: usize = 0;
    while k < pairs.len()
        invariant
            k <= pairs@.len(),
            r <= k,
            r == edge_count(pairs@.take(k as int), v as int, c as int),
        decreases pairs.len() - k,
    {
        assert(pairs@.take(k + 1).drop_last() =~= pairs@.take(k as int));
        if pairs[k].0 == v && pairs[k].1 == c {
            r = r + 1;
        }
        k = k + 1;
    }
    assert(pairs@.take(pairs@.len() as int) =~= pairs@);
    r
}

fn on_all_exec(paths: &Vec<Vec<usize>>, c: usize) -> (r: bool)
    ensures
        r == on_all(path_views(paths@), c as int),
{
    let ghost pv = path_views(paths@);
    let mut i: usize = 0;
    while i < paths.len()
        invariant
            pv == path_views(paths@),
            i <= paths@.len(),
            forall|j: int| 0 <= j < i ==> (#[trigger] pv[j]).contains(c),
        decreases paths.len() - i,
    {
        let p = &paths[i];
        let mut found = false;
        let mut k: usize = 0;
        while k < p.len()
            invariant
                k <= p@.len(),
                found == exists|j: int| 0 <= j < k && p@[j] == c,
            decreases p.len() - k,
        {
            if p[k] == c {
                found = true;
            }
            k = k + 1;
        }
        assert(pv[i as int] == p@);
        if !found {
            assert(!pv[i as int].contains(c));
            return false;
        }
        i = i + 1;
    }
    true
}

/// The post-dominators of `g` towards `exit` (see `pdom_of`).
pub fn post_dominators(g: &CfgGraph, exit: usize) -> (r: Dominators)
    requires
        exit < cfg_blocks(*g).len(),
    ensures
        idom_view(r.idoms@) == pdoms_of(cfg_blocks(*g).len(), cfg_edges(*g), exit as int),
        idoms_in(idom_view(r.idoms@)),
{
    let n = cfg_node_count(g);
    let ghost nn = n as nat;
    let (fw, bw) = graph_pairs(g);
    let reach = reach_exec(n, &bw, exit, n);
    let mut idoms: Vec<Option<usize>> = Vec::new();
    let mut v: usize = 0;
    while v < n
        invariant
            nn == n,
            nn == cfg_blocks(*g).len(),
            exit < n,
            fw@ == edge_pairs(cfg_edges(*g)),
            bw@ == reversed_pairs(cfg_edges(*g)),
            pairs_in(fw@, nn),
            reach@ == reach_from(nn, bw@, exit as int, n as int),
            reach@.len() == n,
            v <= n,
            idoms@.len() == v,
            forall|w: int| 0 <= w < v ==> #[trigger] idom_view(idoms@)[w] == pdom_of(nn, fw@, bw@, exit as int, w),
            forall|w: int| 0 <= w < v ==> match #[trigger] idoms@[w] {
                Some(u) => u < n,
                None => true,
            },
        decreases n - v,
    {
        let ghost before = idoms@;
        let choice: Option<usize> = if v == exit {
            Some(exit)
        } else if !reach[v] {
            None
        } else {
            let paths = all_paths_to_exit(n, &fw, v, exit, PATH_LIMIT);
            if paths.len() == 0 {
                None
            } else {
                let ghost pv = path_views(paths@);
                let mut best: Option<usize> = None;
                let mut c: usize = 0;
                while c < n
                    invariant
                        c <= n,
                        pv == path_views(paths@),
                        match best {
                            Some(b) => pick_below(pv, fw@, v as int, c as int) == Some(b as int) && b < c,
                            None => pick_below(pv, fw@, v as int, c as int) is None,
                        },
                    decreases n - c,
                {
                    if c != v && on_all_exec(&paths, c) {
                        match best {
                            None => {
                                best = Some(c);
                            },
                            Some(b) => {
                                if edge_count_exec(&fw, v, c) < edge_count_exec(&fw, v, b) {
                                    best = Some(c);
                                }
                            },
                        }
                    }
                    c = c + 1;
                }
                best
            }
        };
        idoms.push(choice);
        proof {
            assert(idom_view(idoms@)[v as int] == pdom_of(nn, fw@, bw@, exit as int, v as int));
            assert forall|w: int| 0 <= w <= v implies #[trigger] idom_view(idoms@)[w] == pdom_of(nn, fw@, bw@, exit as int, w) by {
                if w < v {
                    assert(idoms@[w] == before[w]);
                    assert(idom_view(before)[w] == pdom_of(nn, fw@, bw@, exit as int, w));
                }
            }
            assert forall|w: int| 0 <= w <= v implies match #[trigger] idoms@[w] {
                Some(u) => u < n,
                None => true,
            } by {
                if w < v {
                    assert(idoms@[w] == before[w]);
                }
            }
        }
        v = v + 1;
    }
    proof {
        assert(idom_view(idoms@) =~= pdoms_of(nn, cfg_edges(*g), exit as int));
        assert forall|w: int| 0 <= w < idom_view(idoms@).len() implies match #[trigger] idom_view(idoms@)[w] {
            Some(u) => 0 <= u < idom_view(idoms@).len(),
            None => true,
        } by {
            assert(match idoms@[w] {
                Some(u) => u < n,
                None => true,
            });
        }
    }
    Dominators { idoms }
}

/// The nodes the walk from `w` up the post-dominators marks as control
/// dependent on `u`, in at most `k` steps: it stops at the entry, at the
/// exit, at a node that post-dominates `u`, and at a node whose
/// post-dominator is none or itself.
pub open spec fn marked(pdoms: Seq<Option<int>>, entry: int, exit: int, u: int, w: int, k: nat) -> Set<int>
    decreases k,
{
    if k == 0 || w == entry || w == exit || dominates_by(pdoms, w, u) {
        Set::empty()
    } else {
        Set::empty().insert(w) + match pdoms[w] {
            Some(next) => if next != w {
                marked(pdoms, entry, exit, u, next, (k - 1) as nat)
            } else {
                Set::empty()
            },
            None => Set::empty(),
        }
    }
}

/// `w` is control dependent on `u`: `u` is not the exit and branches (has
/// two edges out or more), and the walk from one of its successors other
/// than itself and the exit marks `w`.
pub open spec fn control_dep(
    pairs: Seq<(usize, usize)>,
    pdoms: Seq<Option<int>>,
    entry: int,
    exit: int,
    u: int,
    w: int,
) -> bool {
    let ss = succs(pairs, u);
    &&& u != exit
    &&& ss.len() >= 2
    &&& exists|j: int|
        0 <= j < ss.len() && ss[j] != u && ss[j] != exit && #[trigger] marked(
            pdoms,
            entry,
            exit,
            u,
            ss[j] as int,
            pdoms.len(),
        ).contains(w)
}

/// Pairs in increasing order (by the first node, then the second), none
/// twice.
pub open spec fn pairs_sorted(s: Seq<(usize, usize)>) -> bool {
    forall|i: int, j: int| 0 <= i < j < s.len() ==> pair_lt(#[trigger] s[i], #[trigger] s[j])
}

/// The order of pairs.
pub open spec fn pair_lt(a: (usize, usize), b: (usize, usize)) -> bool {
    a.0 < b.0 || (a.0 == b.0 && a.1 < b.1)
}

/// Adds `x` to a sorted list of pairs, unless it is there.
fn insert_pair(acc: &mut Vec<(usize, usize)>, x: (usize, usize))
    requires
        pairs_sorted(old(acc)@),
    ensures
        pairs_sorted(final(acc)@),
        forall|p: (usize, usize)| #[trigger] final(acc)@.contains(p) <==> (old(acc)@.contains(p) || p == x),
{
    let mut p: usize = 0;
    while p < acc.len() && pair_lt_exec(acc[p], x)
        invariant
            p <= acc@.len(),
            pairs_sorted(acc@),
            forall|j: int| 0 <= j < p ==> pair_lt(#[trigger] acc@[j], x),
        decreases acc.len() - p,
    {
        p = p + 1;
    }
    if p < acc.len() && acc[p].0 == x.0 && acc[p].1 == x.1 {
        assert(acc@[p as int] == x);
        assert(acc@.contains(x));
        return;
    }
    let ghost a0 = acc@;
    acc.insert(p, x);
    proof {
        assert forall|i: int, j: int| 0 <= i < j < acc@.len() implies pair_lt(#[trigger] acc@[i], #[trigger] acc@[j]) by {
            if j < p {
                assert(acc@[i] == a0[i] && acc@[j] == a0[j]);
            } else if j == p {
                assert(acc@[i] == a0[i]);
            } else if i < p {
                assert(acc@[i] == a0[i] && acc@[j] == a0[j - 1]);
                assert(pair_lt(a0[i], x));
                assert(!pair_lt(a0[p as int], x));
                if j - 1 > p {
                    assert(pair_lt(a0[p as int], a0[j - 1]));
                }
            } else if i == p {
                assert(acc@[j] == a0[j - 1]);
                assert(!pair_lt(a0[p as int], x));
                if j - 1 > p {
                    assert(pair_lt(a0[p as int], a0[j - 1]));
                }
            } else {
                assert(acc@[i] == a0[i - 1] && acc@[j] == a0[j - 1]);
            }
        }
        assert forall|q: (usize, usize)| #[trigger] acc@.contains(q) <==> (a0.contains(q) || q == x) by {
            if acc@.contains(q) {
                let w = choose|w: int| 0 <= w < acc@.len() && acc@[w] == q;
                if w < p {
                    assert(a0[w] == q);
                } else if w > p {
                    assert(a0[w - 1] == q);
                }
            }
            if a0.contains(q) {
                let w = choose|w: int| 0 <= w < a0.len() && a0[w] == q;
                if w < p {
                    assert(acc@[w] == q);
                } else {
                    assert(acc@[w + 1] == q);
                }
            }
            if q == x {
                assert(acc@[p as int] == x);
            }
        }
    }
}

fn pair_lt_exec(a: (usize, usize), b: (usize, usize)) -> (r: bool)
    ensures
        r == pair_lt(a, b),
{
    a.0 < b.0 || (a.0 == b.0 && a.1 < b.1)
}

/// Marks the nodes of the walk from `w` (see `marked`) as control dependent
/// on `u`.
fn mark_walk(
    pdom: &Dominators,
    entry: usize,
    exit: usize,
    u: usize,
    w: usize,
    k: usize,
    acc: &mut Vec<(usize, usize)>,
)
    requires
        idoms_in(idom_view(pdom.idoms@)),
        u < pdom.idoms@.len(),
        w < pdom.idoms@.len(),
        pairs_sorted(old(acc)@),
    ensures
        pairs_sorted(final(acc)@),
        forall|p: (usize, usize)| #[trigger] final(acc)@.contains(p) <==> (old(acc)@.contains(p) || (p.0 == u
            && marked(idom_view(pdom.idoms@), entry as int, exit as int, u as int, w as int, k as nat).contains(
            p.1 as int,
        ))),
    decreases k,
{
    let ghost iv = idom_view(pdom.idoms@);
    if k == 0 || w == entry || w == exit || pdom.dominates(w, u) {
        return;
    }
    insert_pair(acc, (u, w));
    let ghost mid = acc@;
    assert(iv[w as int] == match pdom.idoms@[w as int] {
        Some(x) => Some(x as int),
        None => None::<int>,
    });
    match pdom.idoms[w] {
        Some(next) => {
            if next != w {
                assert(iv[w as int] == Some(next as int));
                mark_walk(pdom, entry, exit, u, next, k - 1, acc);
                proof {
                    let rest = marked(iv, entry as int, exit as int, u as int, next as int, (k - 1) as nat);
                    assert(marked(iv, entry as int, exit as int, u as int, w as int, k as nat) == Set::<int>::empty().insert(
                        w as int,
                    ) + rest);
                }
            } else {
                assert(marked(iv, entry as int, exit as int, u as int, w as int, k as nat) =~= Set::<int>::empty().insert(
                    w as int,
                ));
            }
        },
        None => {
            assert(marked(iv, entry as int, exit as int, u as int, w as int, k as nat) =~= Set::<int>::empty().insert(
                w as int,
            ));
        },
    }
}

/// The control dependences of `g` (pairs `(u, w)`: `w` depends on the
/// branch at `u`), in increasing order, none twice (see `control_dep`).
pub fn compute_control_deps(g: &CfgGraph, entry: usize, exit: usize) -> (r: Vec<(usize, usize)>)
    requires
        entry < cfg_blocks(*g).len(),
        exit < cfg_blocks(*g).len(),
    ensures
        pairs_sorted(r@),
        forall|p: (usize, usize)| #[trigger] r@.contains(p) <==> (p.0 < cfg_blocks(*g).len() && control_dep(
            edge_pairs(cfg_edges(*g)),
            pdoms_of(cfg_blocks(*g).len(), cfg_edges(*g), exit as int),
            entry as int,
            exit as int,
            p.0 as int,
            p.1 as int,
        )),
{
    let pdom = post_dominators(g, exit);
    let ghost iv = idom_view(pdom.idoms@);
    let n = cfg_node_count(g);
    let (fw, _bw) = graph_pairs(g);
    let mut acc: Vec<(usize, usize)> = Vec::new();
    let mut u: usize = 0;
    while u < n
        invariant
            n == cfg_blocks(*g).len(),
            iv == idom_view(pdom.idoms@),
            iv == pdoms_of(n as nat, cfg_edges(*g), exit as int),
            idoms_in(iv),
            iv.len() == n,
            fw@ == edge_pairs(cfg_edges(*g)),
            pairs_in(fw@, n as nat),
            u <= n,
            pairs_sorted(acc@),
            forall|p: (usize, usize)| #[trigger] acc@.contains(p) <==> (p.0 < u && control_dep(
                fw@,
                iv,
                entry as int,
                exit as int,
                p.0 as int,
                p.1 as int,
            )),
        decreases n - u,
    {
        if u != exit {
            let ss = succs_exec(&fw, u);
            if ss.len() >= 2 {
                proof {
                    crate::pdg::paths::lemma_succs_in(fw@, u as int, n as nat);
                }
                let mut j: usize = 0;
                while j < ss.len()
                    invariant
                        n == cfg_blocks(*g).len(),
                        iv == idom_view(pdom.idoms@),
                        idoms_in(iv),
                        iv.len() == n,
                        u < n,
                        u != exit,
                        ss@ == succs(fw@, u as int),
                        ss@.len() >= 2,
                        forall|i: int| 0 <= i < ss@.len() ==> (#[trigger] ss@[i]) < n,
                        j <= ss@.len(),
                        pairs_sorted(acc@),
                        forall|p: (usize, usize)| #[trigger] acc@.contains(p) <==> ((p.0 < u && control_dep(
                            fw@,
                            iv,
                            entry as int,
                            exit as int,
                            p.0 as int,
                            p.1 as int,
                        )) || (p.0 == u && exists|jj: int|
                            0 <= jj < j && ss@[jj] != u && ss@[jj] != exit && #[trigger] marked(
                                iv,
                                entry as int,
                                exit as int,
                                u as int,
                                ss@[jj] as int,
                                iv.len(),
                            ).contains(p.1 as int))),
                    decreases ss.len() - j,
                {
                    let v = ss[j];
                    let ghost a0 = acc@;
                    if v != u && v != exit {
                        mark_walk(&pdom, entry, exit, u, v, n, &mut acc);
                    }
                    proof {
                        assert forall|p: (usize, usize)| #[trigger] acc@.contains(p) <==> ((p.0 < u && control_dep(
                            fw@,
                            iv,
                            entry as int,
                            exit as int,
                            p.0 as int,
                            p.1 as int,
                        )) || (p.0 == u && exists|jj: int|
                            0 <= jj < j + 1 && ss@[jj] != u && ss@[jj] != exit && #[trigger] marked(
                                iv,
                                entry as int,
                                exit as int,
                                u as int,
                                ss@[jj] as int,
                                iv.len(),
                            ).contains(p.1 as int))) by {
                            if p.0 == u && v != u && v != exit && marked(iv, entry as int, exit as int, u as int, v as int, iv.len()).contains(p.1 as int) {
                                assert(ss@[j as int] == v);
                            }
                            if p.0 == u && (exists|jj: int|
                                0 <= jj < j + 1 && ss@[jj] != u && ss@[jj] != exit && #[trigger] marked(
                                    iv,
                                    entry as int,
                                    exit as int,
                                    u as int,
                                    ss@[jj] as int,
                                    iv.len(),
                                ).contains(p.1 as int)) {
                                let jj = choose|jj: int|
                                    0 <= jj < j + 1 && ss@[jj] != u && ss@[jj] != exit && #[trigger] marked(
                                        iv,
                                        entry as int,
                                        exit as int,
                                        u as int,
                                        ss@[jj] as int,
                                        iv.len(),
                                    ).contains(p.1 as int);
                                if jj == j {
                                    assert(acc@.contains(p));
                                } else {
                                    assert(a0.contains(p));
                                }
                            }
                        }
                    }
                    j = j + 1;
                }
            }
        }
        proof {
            assert forall|p: (usize, usize)| #[trigger] acc@.contains(p) <==> (p.0 < u + 1 && control_dep(
                fw@,
                iv,
                entry as int,
                exit as int,
                p.0 as int,
                p.1 as int,
            )) by {
                if p.0 == u && control_dep(fw@, iv, entry as int, exit as int, p.0 as int, p.1 as int) {
                    let ss = succs(fw@, u as int);
                    let jj = choose|jj: int|
                        0 <= jj < ss.len() && ss[jj] != u && ss[jj] != exit && #[trigger] marked(
                            iv,
                            entry as int,
                            exit as int,
                            u as int,
                            ss[jj] as int,
                            iv.len(),
                        ).contains(p.1 as int);
                }
            }
        }
        u = u + 1;
    }
    acc
}

proof fn lemma_marked_in(pdoms: Seq<Option<int>>, entry: int, exit: int, u: int, w: int, k: nat)
    requires
        idoms_in(pdoms),
        0 <= w < pdoms.len(),
    ensures
        forall|x: int| #[trigger] marked(pdoms, entry, exit, u, w, k).contains(x) ==> 0 <= x < pdoms.len(),
    decreases k,
{
    if !(k == 0 || w == entry || w == exit || dominates_by(pdoms, w, u)) {
        let m = marked(pdoms, entry, exit, u, w, k);
        match pdoms[w] {
            Some(next) => if next != w {
                assert(0 <= next < pdoms.len());
                lemma_marked_in(pdoms, entry, exit, u, next, (k - 1) as nat);
                let rest = marked(pdoms, entry, exit, u, next, (k - 1) as nat);
                assert(m == Set::<int>::empty().insert(w) + rest);
                assert forall|x: int| #[trigger] m.contains(x) implies 0 <= x < pdoms.len() by {
                    if x != w {
                        assert(rest.contains(x));
                    }
                }
            } else {
                assert(m =~= Set::<int>::empty().insert(w));
            },
            None => {
                assert(m =~= Set::<int>::empty().insert(w));
            },
        }
    }
}

/// Both ends of a control dependence are nodes.
pub proof fn lemma_control_dep_in(n: nat, edges: Seq<(usize, usize, crate::cfg::blocks::BlockEdge)>, entry: int, exit: int, u: int, w: int)
    requires
        0 <= exit < n,
        pairs_in(edge_pairs(edges), n),
        control_dep(edge_pairs(edges), pdoms_of(n, edges, exit), entry, exit, u, w),
    ensures
        0 <= w < n,
{
    let pairs = edge_pairs(edges);
    let pd = pdoms_of(n, edges, exit);
    let ss = succs(pairs, u);
    let j = choose|j: int|
        0 <= j < ss.len() && ss[j] != u && ss[j] != exit && #[trigger] marked(pd, entry, exit, u, ss[j] as int, pd.len()).contains(w);
    crate::pdg::paths::lemma_succs_in(pairs, u, n);
    lemma_pdoms_in(n, edges, exit);
    lemma_marked_in(pd, entry, exit, u, ss[j] as int, pd.len());
}

/// The post-dominators of a graph are nodes of it.
pub proof fn lemma_pdoms_in(n: nat, edges: Seq<(usize, usize, crate::cfg::blocks::BlockEdge)>, exit: int)
    requires
        0 <= exit < n,
    ensures
        idoms_in(pdoms_of(n, edges, exit)),
        pdoms_of(n, edges, exit).len() == n,
{
    let pd = pdoms_of(n, edges, exit);
    assert forall|v: int| 0 <= v < pd.len() implies match #[trigger] pd[v] {
        Some(x) => 0 <= x < pd.len(),
        None => true,
    } by {
        let paths = paths_to_exit(n, edge_pairs(edges), v, exit, PATH_LIMIT as nat);
        lemma_pick_in(paths, edge_pairs(edges), v, n as int);
    }
}

} // verus!
