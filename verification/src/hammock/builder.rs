//! Hammock regions of a control flow graph: single-entry, single-exit
//! subgraphs `(h, t)` where `h` dominates `t` and `t` post-dominates `h`.

use vstd::prelude::*;
use crate::cfg::blocks::{BlockEdge, CfgGraph, cfg_blocks, cfg_edges, cfg_node_count};
use crate::hammock::dominators::{
    Dominators, pairs_in, idoms_of, idom_view, dominates_by, lemma_idoms_in, count_row, edge_pairs, reversed_pairs,
    graph_pairs,
};

verus! {

/// A hammock: its header, its footer, and its body (the nodes reachable
/// from the header without passing the footer, the footer left out), in
/// index order.
#[derive(Debug)]
pub struct Hammock {
    pub header: usize,
    pub footer: usize,
    pub body: Vec<usize>,
}

/// A hammock as plain values.
pub struct HammockView {
    pub header: usize,
    pub footer: usize,
    pub body: Seq<usize>,
}

impl View for Hammock {
    type V = HammockView;

    open spec fn view(&self) -> HammockView {
        HammockView { header: self.header, footer: self.footer, body: self.body@ }
    }
}

/// The views of a list of hammocks.
pub open spec fn hammock_views(s: Seq<Hammock>) -> Seq<HammockView> {
    s.map_values(|h: Hammock| h@)
}

/// `s` (a set of nodes) holds `h` and, for each edge out of one of its
/// nodes other than `t`, the edge's end.
pub open spec fn closed_from(s: Seq<bool>, n: nat, pairs: Seq<(usize, usize)>, h: int, t: int) -> bool {
    &&& s.len() == n
    &&& s[h]
    &&& forall|k: int| 0 <= k < pairs.len() && s[(#[trigger] pairs[k]).0 as int] && pairs[k].0 != t ==> s[pairs[k].1 as int]
}

/// `s` is the least such set: the nodes reachable from `h` by edges that do
/// not leave `t`.
pub open spec fn least_closed(s: Seq<bool>, n: nat, pairs: Seq<(usize, usize)>, h: int, t: int) -> bool {
    &&& closed_from(s, n, pairs, h, t)
    &&& forall|s2: Seq<bool>| #[trigger] closed_from(s2, n, pairs, h, t) ==> forall|x: int| 0 <= x < n && s[x] ==> s2[x]
}

/// The nodes reachable from `h` without leaving `t`.
pub open spec fn reach_from(n: nat, pairs: Seq<(usize, usize)>, h: int, t: int) -> Seq<bool> {
    choose|s: Seq<bool>| least_closed(s, n, pairs, h, t)
}

/// The members of `s` below `k`, with `t` among them, in index order.
pub open spec fn members_below(s: Seq<bool>, t: int, k: int) -> Seq<usize>
    decreases k,
{
    if k <= 0 {
        Seq::empty()
    } else if s[k - 1] || k - 1 == t {
        members_below(s, t, k - 1).push((k - 1) as usize)
    } else {
        members_below(s, t, k - 1)
    }
}

/// The body of the candidate hammock `(h, t)`: the nodes reachable from
/// `h` without passing `t`, plus `h` and `t` themselves, in index order.
pub open spec fn body_of(n: nat, pairs: Seq<(usize, usize)>, h: int, t: int) -> Seq<usize> {
    members_below(reach_from(n, pairs, h, t), t, n as int)
}

/// Every edge into a body node other than `h` comes from the body.
pub open spec fn single_entry(pairs: Seq<(usize, usize)>, h: int, body: Seq<usize>) -> bool {
    forall|k: int|
        0 <= k < pairs.len() && body.contains((#[trigger] pairs[k]).1) && pairs[k].1 != h ==> body.contains(pairs[k].0)
}

/// Every edge out of the body that does not touch `t` stays in the body.
pub open spec fn single_exit(pairs: Seq<(usize, usize)>, t: int, body: Seq<usize>) -> bool {
    forall|k: int|
        0 <= k < pairs.len() && body.contains((#[trigger] pairs[k]).0) && pairs[k].0 != t && pairs[k].1 != t
            ==> body.contains(pairs[k].1)
}

/// The hammock `(h, t)` when it is one: neither is the entry or the exit,
/// they differ, `h` dominates `t`, `t` post-dominates `h`, the body holds a
/// node besides `h` and `t` (a body of the two alone is trivial), and it is
/// entered only at `h` and left only towards `t`.
pub open spec fn hammock_at(
    n: nat,
    edges: Seq<(usize, usize, BlockEdge)>,
    entry: int,
    exit: int,
    h: int,
    t: int,
) -> Option<HammockView> {
    let pairs = edge_pairs(edges);
    let body = body_of(n, pairs, h, t);
    if h != entry && h != exit && t != entry && t != exit && h != t && dominates_by(
        idoms_of(n, pairs, entry),
        h,
        t,
    ) && dominates_by(idoms_of(n, reversed_pairs(edges), exit), t, h) && body.len() > 2 && single_entry(
        pairs,
        h,
        body,
    ) && single_exit(pairs, t, body) {
        Some(HammockView { header: h as usize, footer: t as usize, body })
    } else {
        None
    }
}

/// The hammocks with header `h` and footer below `k`, by footer.
pub open spec fn hammocks_with_header(
    n: nat,
    edges: Seq<(usize, usize, BlockEdge)>,
    entry: int,
    exit: int,
    h: int,
    k: int,
) -> Seq<HammockView>
    decreases k,
{
    if k <= 0 {
        Seq::empty()
    } else {
        match hammock_at(n, edges, entry, exit, h, k - 1) {
            Some(x) => hammocks_with_header(n, edges, entry, exit, h, k - 1).push(x),
            None => hammocks_with_header(n, edges, entry, exit, h, k - 1),
        }
    }
}

/// The hammocks with header below `k`, by header and then footer.
pub open spec fn hammocks_upto(n: nat, edges: Seq<(usize, usize, BlockEdge)>, entry: int, exit: int, k: int) -> Seq<
    HammockView,
>
    decreases k,
{
    if k <= 0 {
        Seq::empty()
    } else {
        hammocks_upto(n, edges, entry, exit, k - 1) + hammocks_with_header(n, edges, entry, exit, k - 1, n as int)
    }
}

/// The position at which a hammock with a body of `len` nodes goes into
/// `s`: after every hammock whose body is not longer.
pub open spec fn insert_position(s: Seq<HammockView>, len: nat) -> int
    decreases s.len(),
{
    if s.len() == 0 {
        0
    } else if s.last().body.len() <= len {
        s.len() as int
    } else {
        insert_position(s.drop_last(), len)
    }
}

/// `s` sorted by body length, hammocks of equal length in their order in
/// `s` (a stable sort).
pub open spec fn sorted_by_body(s: Seq<HammockView>) -> Seq<HammockView>
    decreases s.len(),
{
    if s.len() == 0 {
        Seq::empty()
    } else {
        let r = sorted_by_body(s.drop_last());
        r.insert(insert_position(r, s.last().body.len()), s.last())
    }
}

/// The hammocks of a graph, smallest bodies first.
pub open spec fn hammocks_of(n: nat, edges: Seq<(usize, usize, BlockEdge)>, entry: int, exit: int) -> Seq<HammockView> {
    sorted_by_body(hammocks_upto(n, edges, entry, exit, n as int))
}

pub(crate) proof fn lemma_count_set(s: Seq<bool>, i: int)
    requires
        0 <= i < s.len(),
        !s[i],
    ensures
        count_row(s.update(i, true)) == count_row(s) + 1,
    decreases s.len(),
{
    if i == s.len() - 1 {
        assert(s.update(i, true).drop_last() =~= s.drop_last());
    } else {
        lemma_count_set(s.drop_last(), i);
        assert(s.update(i, true).drop_last() =~= s.drop_last().update(i, true));
    }
}

pub(crate) proof fn lemma_count_bound(s: Seq<bool>)
    ensures
        count_row(s) <= s.len(),
    decreases s.len(),
{
    if s.len() > 0 {
        lemma_count_bound(s.drop_last());
    }
}

proof fn lemma_least_unique(a: Seq<bool>, b: Seq<bool>, n: nat, pairs: Seq<(usize, usize)>, h: int, t: int)
    requires
        least_closed(a, n, pairs, h, t),
        least_closed(b, n, pairs, h, t),
    ensures
        a == b,
{
    assert forall|x: int| 0 <= x < n implies a[x] == b[x] by {
        if a[x] {
            assert(closed_from(b, n, pairs, h, t));
        }
        if b[x] {
            assert(closed_from(a, n, pairs, h, t));
        }
    }
    assert(a =~= b);
}

/// The nodes reachable from `h` without leaving `t`, found by a depth-first
/// search from `h`.
pub(crate) fn reach_exec(n: usize, pairs: &Vec<(usize, usize)>, h: usize, t: usize) -> (r: Vec<bool>)
    requires
        pairs_in(pairs@, n as nat),
        h < n,
    ensures
        r@ == reach_from(n as nat, pairs@, h as int, t as int),
        r@.len() == n,
{
    let ghost nn = n as nat;
    let mut visited: Vec<bool> = Vec::new();
    let mut i: usize = 0;
    while i < n
        invariant
            i <= n,
            visited@.len() == i,
            forall|x: int| 0 <= x < i ==> #[trigger] visited@[x] == (x == h),
        decreases n - i,
    {
        visited.push(i == h);
        i = i + 1;
    }
    let mut stack: Vec<usize> = Vec::new();
    stack.push(h);
    proof {
        assert(stack@[0] == h);
        assert(stack@.contains(h));
        assert forall|s2: Seq<bool>| #[trigger] closed_from(s2, nn, pairs@, h as int, t as int) implies forall|x: int|
            0 <= x < nn && visited@[x] ==> s2[x] by {}
        lemma_count_bound(visited@);
    }
    while stack.len() > 0
        invariant
            pairs_in(pairs@, nn),
            nn == n,
            h < n,
            visited@.len() == n,
            visited@[h as int],
            forall|j: int| 0 <= j < stack@.len() ==> (#[trigger] stack@[j]) < n && visited@[stack@[j] as int],
            forall|s2: Seq<bool>| #[trigger] closed_from(s2, nn, pairs@, h as int, t as int) ==> forall|x: int|
                0 <= x < nn && visited@[x] ==> s2[x],
            forall|k: int|
                0 <= k < pairs@.len() && visited@[(#[trigger] pairs@[k]).0 as int] && pairs@[k].0 != t
                    && !stack@.contains(pairs@[k].0) ==> visited@[pairs@[k].1 as int],
            count_row(visited@) <= n,
        decreases n - count_row(visited@), stack.len(),
    {
        let ghost old_stack = stack@;
        let x = stack.pop().unwrap();
        let ghost st0 = stack@;
        let ghost c0 = count_row(visited@);
        assert(old_stack == st0.push(x));
        assert(old_stack[old_stack.len() - 1] == x);
        if x != t {
            let mut k: usize = 0;
            while k < pairs.len()
                invariant
                    pairs_in(pairs@, nn),
                    nn == n,
                    h < n,
                    x < n,
                    x != t,
                    visited@.len() == n,
                    visited@[h as int],
                    visited@[x as int],
                    k <= pairs@.len(),
                    stack@.len() >= st0.len(),
                    stack@.subrange(0, st0.len() as int) == st0,
                    count_row(visited@) == c0 + (stack@.len() - st0.len()),
                    forall|j: int| 0 <= j < stack@.len() ==> (#[trigger] stack@[j]) < n && visited@[stack@[j] as int],
                    forall|s2: Seq<bool>| #[trigger] closed_from(s2, nn, pairs@, h as int, t as int) ==> forall|y: int|
                        0 <= y < nn && visited@[y] ==> s2[y],
                    forall|j: int|
                        0 <= j < pairs@.len() && visited@[(#[trigger] pairs@[j]).0 as int] && pairs@[j].0 != t
                            && !stack@.contains(pairs@[j].0) && pairs@[j].0 != x ==> visited@[pairs@[j].1 as int],
                    forall|j: int| 0 <= j < k && (#[trigger] pairs@[j]).0 == x ==> visited@[pairs@[j].1 as int],
                    count_row(visited@) <= n,
                decreases pairs.len() - k,
            {
                if pairs[k].0 == x {
                    let y = pairs[k].1;
                    if !visited[y] {
                        proof {
                            lemma_count_set(visited@, y as int);
                            lemma_count_bound(visited@.update(y as int, true));
                            assert forall|s2: Seq<bool>| #[trigger] closed_from(s2, nn, pairs@, h as int, t as int) implies s2[y as int] by {
                                assert(s2[x as int]);
                                assert(pairs@[k as int].0 == x);
                            }
                        }
                        let ghost sb = stack@;
                        let ghost vb = visited@;
                        visited.set(y, true);
                        stack.push(y);
                        proof {
                            assert(stack@.subrange(0, st0.len() as int) =~= st0);
                            assert forall|j: int| 0 <= j < stack@.len() && !(#[trigger] sb.contains(stack@[j])) implies stack@[j] == y by {
                                if j < sb.len() {
                                    assert(stack@[j] == sb[j]);
                                }
                            }
                            assert forall|z: usize| !stack@.contains(z) implies !sb.contains(z) && z != y by {
                                if sb.contains(z) {
                                    let w = choose|w: int| 0 <= w < sb.len() && sb[w] == z;
                                    assert(stack@[w] == sb[w]);
                                }
                                assert(stack@[stack@.len() - 1] == y);
                            }
                            assert forall|j: int|
                                0 <= j < pairs@.len() && visited@[(#[trigger] pairs@[j]).0 as int] && pairs@[j].0 != t
                                    && !stack@.contains(pairs@[j].0) && pairs@[j].0 != x implies visited@[pairs@[j].1 as int] by {
                                let z = pairs@[j].0;
                                if sb.contains(z) {
                                    let w = choose|w: int| 0 <= w < sb.len() && sb[w] == z;
                                    assert(stack@[w] == sb[w]);
                                    assert(stack@.contains(z));
                                }
                                if z == y {
                                    assert(stack@[stack@.len() - 1] == y);
                                    assert(stack@.contains(z));
                                }
                                assert(vb[z as int]);
                            }
                        }
                    }
                }
                k = k + 1;
            }
        }
        proof {
            assert forall|j: int|
                0 <= j < pairs@.len() && visited@[(#[trigger] pairs@[j]).0 as int] && pairs@[j].0 != t && !stack@.contains(
                    pairs@[j].0,
                ) implies visited@[pairs@[j].1 as int] by {
                if pairs@[j].0 != x {
                    if x == t {
                        assert(!old_stack.contains(pairs@[j].0)) by {
                            if old_stack.contains(pairs@[j].0) {
                                let w = choose|w: int| 0 <= w < old_stack.len() && old_stack[w] == pairs@[j].0;
                                if w < st0.len() {
                                    assert(st0[w] == old_stack[w]);
                                }
                            }
                        }
                    }
                }
            }
        }
    }
    proof {
        let v = visited@;
        assert(closed_from(v, nn, pairs@, h as int, t as int));
        assert(least_closed(v, nn, pairs@, h as int, t as int));
        let c = reach_from(nn, pairs@, h as int, t as int);
        assert(least_closed(c, nn, pairs@, h as int, t as int));
        lemma_least_unique(v, c, nn, pairs@, h as int, t as int);
    }
    visited
}

proof fn lemma_members_below(s: Seq<bool>, t: int, k: int)
    requires
        0 <= k <= s.len(),
        s.len() <= usize::MAX,
    ensures
        forall|x: usize| #[trigger] members_below(s, t, k).contains(x) <==> (x < k && (s[x as int] || x == t)),
        forall|i: int, j: int|
            0 <= i < j < members_below(s, t, k).len() ==> members_below(s, t, k)[i] < members_below(s, t, k)[j],
        forall|i: int| 0 <= i < members_below(s, t, k).len() ==> members_below(s, t, k)[i] < k,
    decreases k,
{
    if k > 0 {
        lemma_members_below(s, t, k - 1);
        let prev = members_below(s, t, k - 1);
        if s[k - 1] || k - 1 == t {
            let cur = prev.push((k - 1) as usize);
            assert forall|x: usize| #[trigger] cur.contains(x) <==> (x < k && (s[x as int] || x == t)) by {
                if cur.contains(x) {
                    let w = choose|w: int| 0 <= w < cur.len() && cur[w] == x;
                    if w < prev.len() {
                        assert(prev[w] == x);
                        assert(prev.contains(x));
                    }
                }
                if x < k && (s[x as int] || x == t) {
                    if x < k - 1 {
                        assert(prev.contains(x));
                        let w = choose|w: int| 0 <= w < prev.len() && prev[w] == x;
                        assert(cur[w] == x);
                    } else {
                        assert(cur[cur.len() - 1] == x);
                    }
                }
            }
        } else {
            assert forall|x: usize| #[trigger] prev.contains(x) <==> (x < k && (s[x as int] || x == t)) by {
                if x < k && (s[x as int] || x == t) {
                    assert(x < k - 1);
                }
            }
        }
    }
}

/// The members of `s`, with `t` among them, in index order.
fn members_exec(s: &Vec<bool>, t: usize) -> (r: Vec<usize>)
    ensures
        r@ == members_below(s@, t as int, s@.len() as int),
{
    let mut r: Vec<usize> = Vec::new();
    let mut x: usize = 0;
    while x < s.len()
        invariant
            x <= s@.len(),
            r@ == members_below(s@, t as int, x as int),
        decreases s.len() - x,
    {
        if s[x] || x == t {
            r.push(x);
        }
        x = x + 1;
    }
    r
}

/// Whether every edge into the body (the nodes of `inside` and `t`),
/// other than into `h`, comes from the body.
fn single_entry_exec(pairs: &Vec<(usize, usize)>, n: usize, inside: &Vec<bool>, h: usize, t: usize) -> (r: bool)
    requires
        pairs_in(pairs@, n as nat),
        inside@.len() == n,
    ensures
        r == single_entry(pairs@, h as int, members_below(inside@, t as int, n as int)),
{
    let ghost body = members_below(inside@, t as int, n as int);
    proof {
        lemma_members_below(inside@, t as int, n as int);
    }
    let mut k: usize = 0;
    while k < pairs.len()
        invariant
            pairs_in(pairs@, n as nat),
            inside@.len() == n,
            body == members_below(inside@, t as int, n as int),
            forall|x: usize| #[trigger] body.contains(x) <==> (x < n && (inside@[x as int] || x == t)),
            k <= pairs@.len(),
            forall|j: int|
                0 <= j < k && body.contains((#[trigger] pairs@[j]).1) && pairs@[j].1 != h ==> body.contains(pairs@[j].0),
        decreases pairs.len() - k,
    {
        let (a, b) = pairs[k];
        if (inside[b] || b == t) && b != h && !(inside[a] || a == t) {
            assert(body.contains(b));
            assert(!body.contains(a));
            return false;
        }
        k = k + 1;
    }
    true
}

/// Whether every edge out of the body that does not touch `t` stays in it.
fn single_exit_exec(pairs: &Vec<(usize, usize)>, n: usize, inside: &Vec<bool>, t: usize) -> (r: bool)
    requires
        pairs_in(pairs@, n as nat),
        inside@.len() == n,
    ensures
        r == single_exit(pairs@, t as int, members_below(inside@, t as int, n as int)),
{
    let ghost body = members_below(inside@, t as int, n as int);
    proof {
        lemma_members_below(inside@, t as int, n as int);
    }
    let mut k: usize = 0;
    while k < pairs.len()
        invariant
            pairs_in(pairs@, n as nat),
            inside@.len() == n,
            body == members_below(inside@, t as int, n as int),
            forall|x: usize| #[trigger] body.contains(x) <==> (x < n && (inside@[x as int] || x == t)),
            k <= pairs@.len(),
            forall|j: int|
                0 <= j < k && body.contains((#[trigger] pairs@[j]).0) && pairs@[j].0 != t && pairs@[j].1 != t
                    ==> body.contains(pairs@[j].1),
        decreases pairs.len() - k,
    {
        let (a, b) = pairs[k];
        if inside[a] && a != t && b != t && !inside[b] {
            assert(body.contains(a));
            assert(!body.contains(b));
            return false;
        }
        k = k + 1;
    }
    true
}

/// Where a hammock whose body has `len` nodes goes into `s`.
fn insert_position_exec(s: &Vec<Hammock>, len: usize) -> (p: usize)
    ensures
        p == insert_position(hammock_views(s@), len as nat),
        p <= s@.len(),
{
    let mut p: usize = s.len();
    let ghost hv = hammock_views(s@);
    assert(hv.take(p as int) =~= hv);
    while p > 0 && s[p - 1].body.len() > len
        invariant
            p <= s@.len(),
            hv == hammock_views(s@),
            insert_position(hv, len as nat) == insert_position(hv.take(p as int), len as nat),
        decreases p,
    {
        assert(hv.take(p as int).drop_last() =~= hv.take(p - 1));
        assert(hv.take(p as int).last() == s@[p - 1]@);
        p = p - 1;
    }
    proof {
        if p > 0 {
            assert(hv.take(p as int).last() == s@[p - 1]@);
        }
    }
    p
}

/// The hammock regions of `g` from `entry` to `exit`, smallest bodies first
/// (see `hammocks_of`).
pub fn find_hammocks(g: &CfgGraph, entry: usize, exit: usize) -> (r: Vec<Hammock>)
    requires
        entry < cfg_blocks(*g).len(),
        exit < cfg_blocks(*g).len(),
    ensures
        hammock_views(r@) == hammocks_of(cfg_blocks(*g).len(), cfg_edges(*g), entry as int, exit as int),
{
    let n = cfg_node_count(g);
    let ghost nn = n as nat;
    let ghost es = cfg_edges(*g);
    let (fw, bw) = graph_pairs(g);
    let dom = Dominators::compute_on(n, &fw, entry);
    let pdom = Dominators::compute_on(n, &bw, exit);
    proof {
        lemma_idoms_in(nn, fw@, entry as int);
        lemma_idoms_in(nn, bw@, exit as int);
    }
    let mut result: Vec<Hammock> = Vec::new();
    let mut h: usize = 0;
    while h < n
        invariant
            nn == n,
            es == cfg_edges(*g),
            nn == cfg_blocks(*g).len(),
            entry < n,
            exit < n,
            fw@ == edge_pairs(es),
            bw@ == reversed_pairs(es),
            pairs_in(fw@, nn),
            pairs_in(bw@, nn),
            idom_view(dom.idoms@) == idoms_of(nn, fw@, entry as int),
            idom_view(pdom.idoms@) == idoms_of(nn, bw@, exit as int),
            crate::hammock::dominators::idoms_in(idom_view(dom.idoms@)),
            crate::hammock::dominators::idoms_in(idom_view(pdom.idoms@)),
            idom_view(dom.idoms@).len() == nn,
            idom_view(pdom.idoms@).len() == nn,
            h <= n,
            hammock_views(result@) == sorted_by_body(hammocks_upto(nn, es, entry as int, exit as int, h as int)),
        decreases n - h,
    {
        let ghost before_h = hammocks_upto(nn, es, entry as int, exit as int, h as int);
        let mut t: usize = 0;
        while t < n
            invariant
                nn == n,
                es == cfg_edges(*g),
                entry < n,
                exit < n,
                h < n,
                fw@ == edge_pairs(es),
                bw@ == reversed_pairs(es),
                pairs_in(fw@, nn),
                pairs_in(bw@, nn),
                idom_view(dom.idoms@) == idoms_of(nn, fw@, entry as int),
                idom_view(pdom.idoms@) == idoms_of(nn, bw@, exit as int),
                crate::hammock::dominators::idoms_in(idom_view(dom.idoms@)),
                crate::hammock::dominators::idoms_in(idom_view(pdom.idoms@)),
                idom_view(dom.idoms@).len() == nn,
                idom_view(pdom.idoms@).len() == nn,
                t <= n,
                before_h == hammocks_upto(nn, es, entry as int, exit as int, h as int),
                hammock_views(result@) == sorted_by_body(
                    before_h + hammocks_with_header(nn, es, entry as int, exit as int, h as int, t as int),
                ),
            decreases n - t,
        {
            let ghost row = hammocks_with_header(nn, es, entry as int, exit as int, h as int, t as int);
            let ghost cands = before_h + row;
            let found = if h != entry && h != exit && t != entry && t != exit && h != t && dom.dominates(h, t)
                && pdom.dominates(t, h) {
                let inside = reach_exec(n, &fw, h, t);
                let body = members_exec(&inside, t);
                if body.len() > 2 && single_entry_exec(&fw, n, &inside, h, t) && single_exit_exec(&fw, n, &inside, t) {
                    Some(Hammock { header: h, footer: t, body })
                } else {
                    None
                }
            } else {
                None
            };
            match found {
                Some(x) => {
                    assert(hammock_at(nn, es, entry as int, exit as int, h as int, t as int) == Some(x@));
                    let p = insert_position_exec(&result, x.body.len());
                    let ghost rv = hammock_views(result@);
                    let ghost xv = x@;
                    result.insert(p, x);
                    proof {
                        assert(hammock_views(result@) =~= rv.insert(p as int, xv));
                        assert(row.push(xv) == hammocks_with_header(nn, es, entry as int, exit as int, h as int, t + 1));
                        assert((cands.push(xv)).drop_last() =~= cands);
                        assert(cands.push(xv) =~= before_h + row.push(xv));
                    }
                },
                None => {
                    assert(hammock_at(nn, es, entry as int, exit as int, h as int, t as int) is None);
                },
            }
            t = t + 1;
        }
        h = h + 1;
    }
    result
}

/// Both ends of the hammock are among the `n` nodes.
pub open spec fn ends_in(h: HammockView, n: nat) -> bool {
    h.header < n && h.footer < n
}

proof fn lemma_with_header_ends(n: nat, edges: Seq<(usize, usize, BlockEdge)>, entry: int, exit: int, h: int, k: int)
    requires
        0 <= h < n,
        k <= n,
        n <= usize::MAX,
    ensures
        forall|i: int|
            0 <= i < hammocks_with_header(n, edges, entry, exit, h, k).len() ==> ends_in(
                #[trigger] hammocks_with_header(n, edges, entry, exit, h, k)[i],
                n,
            ),
    decreases k,
{
    if k > 0 {
        lemma_with_header_ends(n, edges, entry, exit, h, k - 1);
        let prev = hammocks_with_header(n, edges, entry, exit, h, k - 1);
        match hammock_at(n, edges, entry, exit, h, k - 1) {
            Some(x) => {
                assert(x.header == h as usize && x.footer == (k - 1) as usize);
                assert forall|i: int| 0 <= i < prev.push(x).len() implies ends_in(#[trigger] prev.push(x)[i], n) by {
                    if i < prev.len() {
                        assert(prev.push(x)[i] == prev[i]);
                    }
                }
            },
            None => {},
        }
    }
}

proof fn lemma_upto_ends(n: nat, edges: Seq<(usize, usize, BlockEdge)>, entry: int, exit: int, k: int)
    requires
        k <= n,
        n <= usize::MAX,
    ensures
        forall|i: int|
            0 <= i < hammocks_upto(n, edges, entry, exit, k).len() ==> ends_in(
                #[trigger] hammocks_upto(n, edges, entry, exit, k)[i],
                n,
            ),
    decreases k,
{
    if k > 0 {
        lemma_upto_ends(n, edges, entry, exit, k - 1);
        lemma_with_header_ends(n, edges, entry, exit, k - 1, n as int);
        let a = hammocks_upto(n, edges, entry, exit, k - 1);
        let b = hammocks_with_header(n, edges, entry, exit, k - 1, n as int);
        assert forall|i: int| 0 <= i < (a + b).len() implies ends_in(#[trigger] (a + b)[i], n) by {
            if i < a.len() {
                assert((a + b)[i] == a[i]);
            } else {
                assert((a + b)[i] == b[i - a.len()]);
            }
        }
    }
}

proof fn lemma_insert_position_range(s: Seq<HammockView>, len: nat)
    ensures
        0 <= insert_position(s, len) <= s.len(),
    decreases s.len(),
{
    if s.len() > 0 {
        lemma_insert_position_range(s.drop_last(), len);
    }
}

proof fn lemma_sorted_ends(s: Seq<HammockView>, n: nat)
    requires
        forall|i: int| 0 <= i < s.len() ==> ends_in(#[trigger] s[i], n),
    ensures
        sorted_by_body(s).len() == s.len(),
        forall|i: int| 0 <= i < sorted_by_body(s).len() ==> ends_in(#[trigger] sorted_by_body(s)[i], n),
    decreases s.len(),
{
    if s.len() > 0 {
        let d = s.drop_last();
        assert forall|i: int| 0 <= i < d.len() implies ends_in(#[trigger] d[i], n) by {
            assert(d[i] == s[i]);
        }
        lemma_sorted_ends(d, n);
        let r = sorted_by_body(d);
        let p = insert_position(r, s.last().body.len());
        lemma_insert_position_range(r, s.last().body.len());
        let q = r.insert(p, s.last());
        assert forall|i: int| 0 <= i < q.len() implies ends_in(#[trigger] q[i], n) by {
            if i < p {
                assert(q[i] == r[i]);
            } else if i == p {
                assert(q[i] == s.last());
            } else {
                assert(q[i] == r[i - 1]);
            }
        }
    }
}

/// Both ends of every hammock of a graph are nodes of it.
pub proof fn lemma_hammock_nodes(n: nat, edges: Seq<(usize, usize, BlockEdge)>, entry: int, exit: int, i: int)
    requires
        0 <= i < hammocks_of(n, edges, entry, exit).len(),
        n <= usize::MAX,
    ensures
        ends_in(hammocks_of(n, edges, entry, exit)[i], n),
{
    lemma_upto_ends(n, edges, entry, exit, n as int);
    lemma_sorted_ends(hammocks_upto(n, edges, entry, exit, n as int), n);
}


/// `h` is the hammock found at its own header and footer.
pub open spec fn found_at(n: nat, edges: Seq<(usize, usize, BlockEdge)>, entry: int, exit: int, h: HammockView) -> bool {
    hammock_at(n, edges, entry, exit, h.header as int, h.footer as int) == Some(h)
}

proof fn lemma_with_header_found(n: nat, edges: Seq<(usize, usize, BlockEdge)>, entry: int, exit: int, h: int, k: int)
    requires
        0 <= h < n,
        k <= n,
        n <= usize::MAX,
    ensures
        forall|i: int|
            0 <= i < hammocks_with_header(n, edges, entry, exit, h, k).len() ==> found_at(
                n,
                edges,
                entry,
                exit,
                #[trigger] hammocks_with_header(n, edges, entry, exit, h, k)[i],
            ),
    decreases k,
{
    if k > 0 {
        lemma_with_header_found(n, edges, entry, exit, h, k - 1);
        let prev = hammocks_with_header(n, edges, entry, exit, h, k - 1);
        match hammock_at(n, edges, entry, exit, h, k - 1) {
            Some(x) => {
                assert(x.header as int == h && x.footer as int == k - 1);
                assert forall|i: int| 0 <= i < prev.push(x).len() implies found_at(n, edges, entry, exit, #[trigger] prev.push(x)[i]) by {
                    if i < prev.len() {
                        assert(prev.push(x)[i] == prev[i]);
                    }
                }
            },
            None => {},
        }
    }
}

proof fn lemma_upto_found(n: nat, edges: Seq<(usize, usize, BlockEdge)>, entry: int, exit: int, k: int)
    requires
        k <= n,
        n <= usize::MAX,
    ensures
        forall|i: int|
            0 <= i < hammocks_upto(n, edges, entry, exit, k).len() ==> found_at(
                n,
                edges,
                entry,
                exit,
                #[trigger] hammocks_upto(n, edges, entry, exit, k)[i],
            ),
    decreases k,
{
    if k > 0 {
        lemma_upto_found(n, edges, entry, exit, k - 1);
        lemma_with_header_found(n, edges, entry, exit, k - 1, n as int);
        let a = hammocks_upto(n, edges, entry, exit, k - 1);
        let b = hammocks_with_header(n, edges, entry, exit, k - 1, n as int);
        assert forall|i: int| 0 <= i < (a + b).len() implies found_at(n, edges, entry, exit, #[trigger] (a + b)[i]) by {
            if i < a.len() {
                assert((a + b)[i] == a[i]);
            } else {
                assert((a + b)[i] == b[i - a.len()]);
            }
        }
    }
}

/// Inserting at its position keeps a list sorted by body length.
proof fn lemma_insert_sorted(r: Seq<HammockView>, x: HammockView)
    requires
        forall|i: int, j: int| 0 <= i < j < r.len() ==> (#[trigger] r[i]).body.len() <= (#[trigger] r[j]).body.len(),
    ensures
        ({
            let q = r.insert(insert_position(r, x.body.len()), x);
            forall|i: int, j: int| 0 <= i < j < q.len() ==> (#[trigger] q[i]).body.len() <= (#[trigger] q[j]).body.len()
        }),
    decreases r.len(),
{
    let p = insert_position(r, x.body.len());
    lemma_insert_position_range(r, x.body.len());
    lemma_insert_position_split(r, x.body.len());
    let q = r.insert(p, x);
    assert forall|i: int, j: int| 0 <= i < j < q.len() implies (#[trigger] q[i]).body.len() <= (#[trigger] q[j]).body.len() by {
        if j < p {
            assert(q[i] == r[i] && q[j] == r[j]);
        } else if j == p {
            assert(q[i] == r[i]);
        } else if i < p {
            assert(q[i] == r[i] && q[j] == r[j - 1]);
        } else if i == p {
            assert(q[j] == r[j - 1]);
        } else {
            assert(q[i] == r[i - 1] && q[j] == r[j - 1]);
        }
    }
}

/// Before the insert position the bodies are not longer, after it they
/// are longer.
proof fn lemma_insert_position_split(r: Seq<HammockView>, len: nat)
    requires
        forall|i: int, j: int| 0 <= i < j < r.len() ==> (#[trigger] r[i]).body.len() <= (#[trigger] r[j]).body.len(),
    ensures
        forall|i: int| 0 <= i < insert_position(r, len) ==> (#[trigger] r[i]).body.len() <= len,
        forall|i: int| insert_position(r, len) <= i < r.len() ==> (#[trigger] r[i]).body.len() > len,
    decreases r.len(),
{
    if r.len() > 0 {
        if r.last().body.len() <= len {
            assert forall|i: int| 0 <= i < r.len() implies (#[trigger] r[i]).body.len() <= len by {
                if i < r.len() - 1 {
                    assert(r[i].body.len() <= r[r.len() - 1].body.len());
                }
            }
        } else {
            let d = r.drop_last();
            assert forall|i: int, j: int| 0 <= i < j < d.len() implies (#[trigger] d[i]).body.len() <= (#[trigger] d[j]).body.len() by {
                assert(d[i] == r[i] && d[j] == r[j]);
            }
            lemma_insert_position_split(d, len);
            lemma_insert_position_range(d, len);
            assert forall|i: int| insert_position(r, len) <= i < r.len() implies (#[trigger] r[i]).body.len() > len by {
                if i < r.len() - 1 {
                    assert(r[i] == d[i]);
                }
            }
            assert forall|i: int| 0 <= i < insert_position(r, len) implies (#[trigger] r[i]).body.len() <= len by {
                assert(r[i] == d[i]);
            }
        }
    }
}

proof fn lemma_sorted_by_body(s: Seq<HammockView>, pr: spec_fn(HammockView) -> bool)
    requires
        forall|i: int| 0 <= i < s.len() ==> pr(#[trigger] s[i]),
    ensures
        sorted_by_body(s).len() == s.len(),
        forall|i: int| 0 <= i < sorted_by_body(s).len() ==> pr(#[trigger] sorted_by_body(s)[i]),
        forall|i: int, j: int|
            0 <= i < j < sorted_by_body(s).len() ==> (#[trigger] sorted_by_body(s)[i]).body.len() <= (
            #[trigger] sorted_by_body(s)[j]).body.len(),
    decreases s.len(),
{
    if s.len() > 0 {
        let d = s.drop_last();
        assert forall|i: int| 0 <= i < d.len() implies pr(#[trigger] d[i]) by {
            assert(d[i] == s[i]);
        }
        lemma_sorted_by_body(d, pr);
        let r = sorted_by_body(d);
        let p = insert_position(r, s.last().body.len());
        lemma_insert_position_range(r, s.last().body.len());
        lemma_insert_sorted(r, s.last());
        let q = r.insert(p, s.last());
        assert forall|i: int| 0 <= i < q.len() implies pr(#[trigger] q[i]) by {
            if i < p {
                assert(q[i] == r[i]);
            } else if i == p {
                assert(q[i] == s.last());
            } else {
                assert(q[i] == r[i - 1]);
            }
        }
    }
}

/// Every hammock found is a single-entry, single-exit region: its header
/// dominates its footer, its footer post-dominates its header, neither is
/// the entry or the exit, the body has a node besides the header and the
/// footer, is entered only
/// at the header and left only towards the footer. The hammocks come
/// smallest body first.
pub proof fn law_hammock_regions(n: nat, edges: Seq<(usize, usize, BlockEdge)>, entry: int, exit: int)
    requires
        n <= usize::MAX,
    ensures
        forall|i: int|
            0 <= i < hammocks_of(n, edges, entry, exit).len() ==> {
                let h = #[trigger] hammocks_of(n, edges, entry, exit)[i];
                &&& h.header != entry && h.header != exit && h.footer != entry && h.footer != exit
                &&& h.header != h.footer
                &&& dominates_by(idoms_of(n, edge_pairs(edges), entry), h.header as int, h.footer as int)
                &&& dominates_by(idoms_of(n, reversed_pairs(edges), exit), h.footer as int, h.header as int)
                &&& h.body == body_of(n, edge_pairs(edges), h.header as int, h.footer as int)
                &&& h.body.len() > 2
                &&& single_entry(edge_pairs(edges), h.header as int, h.body)
                &&& single_exit(edge_pairs(edges), h.footer as int, h.body)
            },
        forall|i: int, j: int|
            0 <= i < j < hammocks_of(n, edges, entry, exit).len() ==> (#[trigger] hammocks_of(n, edges, entry, exit)[i]).body.len()
                <= (#[trigger] hammocks_of(n, edges, entry, exit)[j]).body.len(),
{
    lemma_upto_found(n, edges, entry, exit, n as int);
    let pr = |h: HammockView| found_at(n, edges, entry, exit, h);
    let s = hammocks_upto(n, edges, entry, exit, n as int);
    assert forall|i: int| 0 <= i < s.len() implies pr(#[trigger] s[i]) by {}
    lemma_sorted_by_body(s, pr);
}

} // verus!
