//! Impact analysis: every method that (transitively) calls a target
//! method, with the number of call sites each one affects.

use vstd::prelude::*;
use crate::text::{
    str_eq, str_lt, seq_lt, dotted, join_dot, to_lower, lowercase, lemma_seq_lt_irreflexive,
    lemma_seq_lt_transitive, lemma_seq_lt_total, decimal, decimal_string, replaced, replace_char,
    joined, join, string_views,
};
use crate::resolve::types::{TypeGraph, has_method_named, any_method_named, ClassInfo, MethodDescriptor};
use crate::analysis::callgraph::{CallGraph, CallSite};

verus! {

/// A method as a (class, method) pair of names.
pub type MethodKey = (Seq<char>, Seq<char>);

/// The callee of a call site, as a key.
pub open spec fn callee_key(c: CallSite) -> MethodKey {
    (c.callee_class@, c.callee@)
}

/// The caller of a call site, as a key.
pub open spec fn caller_key(c: CallSite) -> MethodKey {
    (c.caller_class@, c.caller_method@)
}

/// The `Class.Method` id of a key.
pub open spec fn key_id(k: MethodKey) -> Seq<char> {
    dotted(k.0, k.1)
}

/// A pair of strings by their views.
pub open spec fn key_of(p: (String, String)) -> MethodKey {
    (p.0@, p.1@)
}

/// A list of string pairs by their views.
pub open spec fn keys_of(s: Seq<(String, String)>) -> Seq<MethodKey> {
    s.map_values(|p: (String, String)| key_of(p))
}

/// `vis` lists the methods reached backwards from `start`: it starts there,
/// has no repeats, every later entry calls an earlier one, and every caller
/// of a listed method is listed.
pub open spec fn is_caller_closure(calls: Seq<CallSite>, vis: Seq<MethodKey>, start: MethodKey) -> bool {
    &&& vis.len() > 0
    &&& vis[0] == start
    &&& vis.no_duplicates()
    &&& forall|k: int| 0 < k < vis.len() ==> #[trigger] called_by_earlier(calls, vis, k)
    &&& forall|i: int|
        0 <= i < calls.len() && vis.contains(callee_key(#[trigger] calls[i])) ==> vis.contains(
            caller_key(calls[i]),
        )
}

/// `vis[k]` calls a method listed before it.
pub open spec fn called_by_earlier(calls: Seq<CallSite>, vis: Seq<MethodKey>, k: int) -> bool {
    exists|i: int, j: int|
        #![trigger calls[i], vis[j]]
        0 <= j < k && 0 <= i < calls.len() && callee_key(calls[i]) == vis[j] && caller_key(calls[i])
            == vis[k]
}

/// The edges (caller id, callee id) of the calls into `k`, in call order.
pub open spec fn edges_into(calls: Seq<CallSite>, k: MethodKey) -> Seq<(Seq<char>, Seq<char>)>
    decreases calls.len(),
{
    if calls.len() == 0 {
        Seq::empty()
    } else {
        let rest = edges_into(calls.drop_last(), k);
        if callee_key(calls.last()) == k {
            rest.push((key_id(caller_key(calls.last())), key_id(k)))
        } else {
            rest
        }
    }
}

/// The edges into each method of `ks`, method after method.
pub open spec fn edges_of(calls: Seq<CallSite>, ks: Seq<MethodKey>) -> Seq<(Seq<char>, Seq<char>)>
    decreases ks.len(),
{
    if ks.len() == 0 {
        Seq::empty()
    } else {
        edges_of(calls, ks.drop_last()) + edges_into(calls, ks.last())
    }
}

/// The direct caller count of the node `id`: the number of calls into the
/// first method of `ks` whose id is `id` (0 when there is none).
pub open spec fn direct_count(calls: Seq<CallSite>, ks: Seq<MethodKey>, id: Seq<char>) -> nat
    decreases ks.len(),
{
    if ks.len() == 0 {
        0
    } else {
        let d = direct_count(calls, ks.drop_last(), id);
        if !node_reached(id, ks.drop_last()) && key_id(ks.last()) == id {
            edges_into(calls, ks.last()).len()
        } else {
            d
        }
    }
}

/// The number of walks of length 1 to `r` in the edge list `es` that end
/// at `id` (each edge counted as often as it occurs).
pub open spec fn walks(es: Seq<(Seq<char>, Seq<char>)>, id: Seq<char>, r: nat) -> nat
    decreases r, es.len() + 1,
{
    if r == 0 {
        0
    } else {
        walks_in(es, es.len() as nat, id, (r - 1) as nat)
    }
}

/// The sum over the first `j` edges into `id` of one plus the walks of
/// length up to `r` ending at the edge's caller.
pub open spec fn walks_in(es: Seq<(Seq<char>, Seq<char>)>, j: nat, id: Seq<char>, r: nat) -> nat
    decreases r + 1, j,
{
    if j == 0 || j > es.len() {
        0
    } else {
        walks_in(es, (j - 1) as nat, id, r) + if es[j - 1].1 == id {
            1 + walks(es, es[j - 1].0, r)
        } else {
            0
        }
    }
}

/// The first occurrence of each element, in order.
pub open spec fn dedup_first<T>(s: Seq<T>) -> Seq<T>
    decreases s.len(),
{
    if s.len() == 0 {
        s
    } else {
        let d = dedup_first(s.drop_last());
        if d.contains(s.last()) {
            d
        } else {
            d.push(s.last())
        }
    }
}

/// Node lists are ordered strictly by id.
pub open spec fn ids_sorted(s: Seq<(String, (usize, usize))>) -> bool {
    forall|i: int, j: int| 0 <= i < j < s.len() ==> seq_lt(#[trigger] s[i].0@, #[trigger] s[j].0@)
}

/// The node ids of `ns` are exactly the ids of the methods `ks`, and each
/// node carries its direct caller count.
pub open spec fn nodes_match(ns: Seq<(String, (usize, usize))>, calls: Seq<CallSite>, ks: Seq<MethodKey>) -> bool {
    &&& ids_sorted(ns)
    &&& forall|i: int| 0 <= i < ns.len() ==> #[trigger] node_reached(ns[i].0@, ks)
    &&& forall|t: int| 0 <= t < ks.len() ==> #[trigger] node_listed(ns, key_id(ks[t]))
    &&& forall|i: int|
        0 <= i < ns.len() ==> (#[trigger] ns[i]).1.0 == direct_count(calls, ks, ns[i].0@)
}

/// `id` is the id of one of the methods `ks`.
pub open spec fn node_reached(id: Seq<char>, ks: Seq<MethodKey>) -> bool {
    exists|t: int| 0 <= t < ks.len() && key_id(#[trigger] ks[t]) == id
}

/// `id` is the id of one of the nodes.
pub open spec fn node_listed(ns: Seq<(String, (usize, usize))>, id: Seq<char>) -> bool {
    exists|i: int| 0 <= i < ns.len() && (#[trigger] ns[i]).0@ == id
}

/// The ids of a node list.
pub open spec fn ids_of(ns: Seq<(String, (usize, usize))>) -> Seq<Seq<char>> {
    ns.map_values(|n: (String, (usize, usize))| n.0@)
}

/// Result of an impact analysis: nodes (method id -> direct caller count,
/// transitive caller count), edges (caller -> callee, without repeats).
pub struct ImpactGraph {
    /// Method id (`Class.Method`) -> (direct caller count, transitive caller count),
    /// ordered by id
    pub nodes: Vec<(String, (usize, usize))>,
    /// Edges from caller -> callee (deduplicated)
    pub edges: Vec<(String, String)>,
    /// The target method that was analyzed
    pub target: String,
    /// The methods reached, in discovery order
    pub reached: Ghost<Seq<MethodKey>>,
    /// One edge per call into a reached method, before removing repeats
    pub all_edges: Ghost<Seq<(Seq<char>, Seq<char>)>>,
}

impl ImpactGraph {
    /// The node ids are in increasing order, so each occurs once (as the
    /// keys of an ordered map).
    pub open spec fn wf(self) -> bool {
        ids_sorted(self.nodes@)
    }
}


/// `i` is the first position of a node with id `id`.
pub open spec fn first_node_at(ns: Seq<(String, (usize, usize))>, id: Seq<char>, i: int) -> bool {
    0 <= i < ns.len() && ns[i].0@ == id && forall|k: int| 0 <= k < i ==> (#[trigger] ns[k]).0@ != id
}

impl ImpactGraph {
    /// The transitive count of the (first) node with id `id`; 0 when absent.
    pub open spec fn transitive_of(self, id: Seq<char>) -> int {
        if exists|i: int| first_node_at(self.nodes@, id, i) {
            self.nodes@[choose|i: int| first_node_at(self.nodes@, id, i)].1.1 as int
        } else {
            0
        }
    }

    /// The number of call sites (transitively) affected by a change to the
    /// target method.
    pub fn target_callers(&self) -> (r: usize)
        ensures
            r == self.transitive_of(self.target@),
    {
        let mut i: usize = 0;
        while i < self.nodes.len()
            invariant
                i <= self.nodes@.len(),
                forall|k: int| 0 <= k < i ==> (#[trigger] self.nodes@[k]).0@ != self.target@,
            decreases self.nodes.len() - i,
        {
            if str_eq(self.nodes[i].0.as_str(), self.target.as_str()) {
                proof {
                    assert(first_node_at(self.nodes@, self.target@, i as int));
                    let j = choose|j: int| first_node_at(self.nodes@, self.target@, j);
                    if j < i {
                        assert(self.nodes@[j].0@ != self.target@);
                    } else if j > i {
                        assert(self.nodes@[i as int].0@ != self.target@);
                    }
                }
                return self.nodes[i].1.1;
            }
            i = i + 1;
        }
        0
    }
}

/// Is the pair `(a, b)` in `v`?
fn has_key(v: &Vec<(String, String)>, a: &str, b: &str) -> (r: bool)
    ensures
        r == keys_of(v@).contains((a@, b@)),
{
    let mut i: usize = 0;
    while i < v.len()
        invariant
            i <= v@.len(),
            forall|k: int| 0 <= k < i ==> key_of(#[trigger] v@[k]) != (a@, b@),
        decreases v.len() - i,
    {
        if str_eq(v[i].0.as_str(), a) && str_eq(v[i].1.as_str(), b) {
            assert(keys_of(v@)[i as int] == (a@, b@));
            return true;
        }
        i = i + 1;
    }
    proof {
        if keys_of(v@).contains((a@, b@)) {
            let k = choose|k: int| 0 <= k < keys_of(v@).len() && keys_of(v@)[k] == (a@, b@);
            assert(key_of(v@[k]) == (a@, b@));
        }
    }
    false
}

/// Sorted ids are distinct.
proof fn lemma_sorted_unique(ns: Seq<(String, (usize, usize))>, i: int, j: int)
    requires
        ids_sorted(ns),
        0 <= i < ns.len(),
        0 <= j < ns.len(),
        i != j,
    ensures
        ns[i].0@ != ns[j].0@,
{
    if i < j {
        assert(seq_lt(ns[i].0@, ns[j].0@));
        lemma_seq_lt_irreflexive(ns[i].0@);
    } else {
        assert(seq_lt(ns[j].0@, ns[i].0@));
        lemma_seq_lt_irreflexive(ns[j].0@);
    }
}

/// Adds the node `id` with direct count `count`, unless a node with that
/// id is already there (which keeps its count). Returns the node's
/// position and whether it was already there.
fn insert_or_keep(nodes: &mut Vec<(String, (usize, usize))>, id: String, count: usize) -> (r: (usize, bool))
    requires
        ids_sorted(old(nodes)@),
    ensures
        ids_sorted(final(nodes)@),
        r.1 == node_listed(old(nodes)@, id@),
        r.1 ==> r.0 < old(nodes)@.len() && old(nodes)@[r.0 as int].0@ == id@ && final(nodes)@ == old(nodes)@,
        !r.1 ==> r.0 <= old(nodes)@.len() && final(nodes)@ == old(nodes)@.insert(r.0 as int, (id, (count, 0usize))),
{
    let ghost o = nodes@;
    let mut i: usize = 0;
    while i < nodes.len() && str_lt(nodes[i].0.as_str(), id.as_str())
        invariant
            nodes@ == o,
            ids_sorted(o),
            i <= o.len(),
            forall|k: int| 0 <= k < i ==> seq_lt((#[trigger] o[k]).0@, id@),
        decreases nodes.len() - i,
    {
        i = i + 1;
    }
    proof {
        // everything from position i on comes after id (or is id at i)
        if i < o.len() && o[i as int].0@ != id@ {
            lemma_seq_lt_total(o[i as int].0@, id@);
        }
    }
    if i < nodes.len() && str_eq(nodes[i].0.as_str(), id.as_str()) {
        proof {
            assert(node_listed(o, id@));
        }
        (i, true)
    } else {
        proof {
            assert forall|k: int| 0 <= k < o.len() implies (#[trigger] o[k]).0@ != id@ by {
                if k < i {
                    lemma_seq_lt_irreflexive(id@);
                } else {
                    if k > i {
                        assert(seq_lt(o[i as int].0@, o[k].0@));
                        lemma_seq_lt_transitive(id@, o[i as int].0@, o[k].0@);
                    }
                    lemma_seq_lt_irreflexive(id@);
                }
            }
            assert(!node_listed(o, id@));
        }
        let ghost e = (id, (count, 0usize));
        nodes.insert(i, (id, (count, 0)));
        proof {
            let n = nodes@;
            assert(n == o.insert(i as int, e));
            assert forall|a: int, b: int| 0 <= a < b < n.len() implies seq_lt(
                #[trigger] n[a].0@,
                #[trigger] n[b].0@,
            ) by {
                if b < i {
                    assert(n[a] == o[a] && n[b] == o[b]);
                } else if b == i {
                    assert(n[a] == o[a]);
                } else if a < i {
                    assert(n[a] == o[a] && n[b] == o[b - 1]);
                    assert(seq_lt(o[a].0@, e.0@));
                    if b - 1 > i {
                        assert(seq_lt(o[i as int].0@, o[b - 1].0@));
                        lemma_seq_lt_transitive(e.0@, o[i as int].0@, o[b - 1].0@);
                    }
                    lemma_seq_lt_transitive(o[a].0@, e.0@, o[b - 1].0@);
                } else if a == i {
                    assert(n[b] == o[b - 1]);
                    if b - 1 > i {
                        assert(seq_lt(o[i as int].0@, o[b - 1].0@));
                        lemma_seq_lt_transitive(e.0@, o[i as int].0@, o[b - 1].0@);
                    }
                } else {
                    assert(n[a] == o[a - 1] && n[b] == o[b - 1]);
                }
            }
        }
        (i, false)
    }
}

/// `x` calls one of the methods of `reached`.
pub open spec fn calls_reached(calls: Seq<CallSite>, reached: Seq<MethodKey>, x: MethodKey) -> bool {
    exists|i: int, j: int|
        #![trigger calls[i], reached[j]]
        0 <= j < reached.len() && 0 <= i < calls.len() && callee_key(calls[i]) == reached[j]
            && caller_key(calls[i]) == x
}

/// The state of the search: `vis` holds what was seen, which is what was
/// reached (taken off the stack) and what waits on the stack.
pub open spec fn search_state(
    calls: Seq<CallSite>,
    start: MethodKey,
    vis: Seq<MethodKey>,
    stack: Seq<MethodKey>,
    reached: Seq<MethodKey>,
) -> bool {
    &&& vis.no_duplicates()
    &&& reached.no_duplicates()
    &&& stack.no_duplicates()
    &&& forall|x: MethodKey|
        #![trigger vis.contains(x)]
        #![trigger reached.contains(x)]
        #![trigger stack.contains(x)]
        vis.contains(x) <==> (reached.contains(x) || stack.contains(x))
    &&& forall|x: MethodKey|
        #![trigger reached.contains(x), stack.contains(x)]
        reached.contains(x) ==> !stack.contains(x)
    &&& reached.len() == 0 ==> stack == seq![start]
    &&& reached.len() > 0 ==> reached[0] == start
    &&& forall|k: int| 0 < k < reached.len() ==> #[trigger] called_by_earlier(calls, reached, k)
    &&& reached.len() > 0 ==> forall|m: int|
        0 <= m < stack.len() ==> #[trigger] calls_reached(calls, reached, stack[m])
}

/// The number of calls whose caller has not been seen.
pub open spec fn unvisited_count(calls: Seq<CallSite>, vis: Seq<MethodKey>) -> nat
    decreases calls.len(),
{
    if calls.len() == 0 {
        0
    } else {
        unvisited_count(calls.drop_last(), vis) + if vis.contains(caller_key(calls.last())) {
            0nat
        } else {
            1nat
        }
    }
}

proof fn lemma_unvisited_push_le(calls: Seq<CallSite>, vis: Seq<MethodKey>, x: MethodKey)
    ensures
        unvisited_count(calls, vis.push(x)) <= unvisited_count(calls, vis),
    decreases calls.len(),
{
    if calls.len() > 0 {
        lemma_unvisited_push_le(calls.drop_last(), vis, x);
        if vis.contains(caller_key(calls.last())) {
            let k = choose|k: int| 0 <= k < vis.len() && vis[k] == caller_key(calls.last());
            assert(vis.push(x)[k] == caller_key(calls.last()));
        }
    }
}

proof fn lemma_unvisited_push_lt(calls: Seq<CallSite>, vis: Seq<MethodKey>, x: MethodKey, j: int)
    requires
        !vis.contains(x),
        0 <= j < calls.len(),
        caller_key(calls[j]) == x,
    ensures
        unvisited_count(calls, vis.push(x)) < unvisited_count(calls, vis),
    decreases calls.len(),
{
    assert(vis.push(x)[vis.len() as int] == x);
    if j == calls.len() - 1 {
        lemma_unvisited_push_le(calls.drop_last(), vis, x);
    } else {
        assert(calls.drop_last()[j] == calls[j]);
        lemma_unvisited_push_lt(calls.drop_last(), vis, x, j);
        if vis.contains(caller_key(calls.last())) {
            let k = choose|k: int| 0 <= k < vis.len() && vis[k] == caller_key(calls.last());
            assert(vis.push(x)[k] == caller_key(calls.last()));
        }
    }
}

proof fn lemma_direct_count_absent(calls: Seq<CallSite>, ks: Seq<MethodKey>, id: Seq<char>)
    requires
        !node_reached(id, ks),
    ensures
        direct_count(calls, ks, id) == 0,
    decreases ks.len(),
{
    if ks.len() > 0 {
        assert(ks.drop_last().len() == ks.len() - 1);
        if node_reached(id, ks.drop_last()) {
            let t = choose|t: int| 0 <= t < ks.drop_last().len() && key_id(ks.drop_last()[t]) == id;
            assert(key_id(ks[t]) == id);
        }
        lemma_direct_count_absent(calls, ks.drop_last(), id);
        assert(key_id(ks[ks.len() - 1]) != id);
    }
}

/// Walks the call graph backwards from `class.method`: takes a method off a
/// stack, records an edge for each call into it and its call count, and
/// stacks each caller not seen before. Returns the nodes (with direct
/// counts), the edges with repeats, and the methods in the order reached.
fn collect_callers(calls: &Vec<CallSite>, class: &str, method: &str) -> (r: (
    Vec<(String, (usize, usize))>,
    Vec<(String, String)>,
    Ghost<Seq<MethodKey>>,
))
    ensures
        is_caller_closure(calls@, r.2@, (class@, method@)),
        keys_of(r.1@) == edges_of(calls@, r.2@),
        nodes_match(r.0@, calls@, r.2@),
        forall|i: int| 0 <= i < r.0@.len() ==> (#[trigger] r.0@[i]).1.1 == 0,
{
    let ghost start: MethodKey = (class@, method@);
    let mut visited: Vec<(String, String)> = Vec::new();
    let mut stack: Vec<(String, String)> = Vec::new();
    let mut nodes: Vec<(String, (usize, usize))> = Vec::new();
    let mut edges: Vec<(String, String)> = Vec::new();
    let ghost mut reached: Seq<MethodKey> = Seq::empty();
    visited.push((String::from_str(class), String::from_str(method)));
    stack.push((String::from_str(class), String::from_str(method)));
    proof {
        assert(keys_of(visited@) =~= seq![start]);
        assert(keys_of(stack@) =~= seq![start]);
        assert(keys_of(edges@) =~= edges_of(calls@, reached));
        assert(search_state(calls@, start, keys_of(visited@), keys_of(stack@), reached)) by {
            assert forall|x: MethodKey| #[trigger] keys_of(visited@).contains(x) <==> (reached.contains(x)
                || keys_of(stack@).contains(x)) by {
                assert(keys_of(visited@) == keys_of(stack@));
                if reached.contains(x) {
                    let k = choose|k: int| 0 <= k < reached.len() && reached[k] == x;
                }
            }
            assert forall|x: MethodKey|
                #![trigger reached.contains(x), keys_of(stack@).contains(x)]
                reached.contains(x) implies !keys_of(stack@).contains(x) by {
                if reached.contains(x) {
                    let k = choose|k: int| 0 <= k < reached.len() && reached[k] == x;
                }
            }
            assert(keys_of(stack@).no_duplicates());
            assert(keys_of(visited@).no_duplicates());
            assert(reached.no_duplicates());
        }
    }
    while stack.len() > 0
        invariant
            search_state(calls@, start, keys_of(visited@), keys_of(stack@), reached),
            forall|i: int|
                0 <= i < calls@.len() && reached.contains(callee_key(#[trigger] calls@[i]))
                    ==> keys_of(visited@).contains(caller_key(calls@[i])),
            keys_of(edges@) == edges_of(calls@, reached),
            nodes_match(nodes@, calls@, reached),
            forall|i: int| 0 <= i < nodes@.len() ==> (#[trigger] nodes@[i]).1.1 == 0,
        decreases unvisited_count(calls@, keys_of(visited@)) + stack@.len(),
    {
        let ghost m0 = unvisited_count(calls@, keys_of(visited@)) + stack@.len();
        let ghost s0 = keys_of(stack@);
        let top = stack.pop().unwrap();
        let ghost s: MethodKey = key_of(top);
        let ghost r0 = reached;
        proof {
            assert(s0 =~= keys_of(stack@).push(s));
            assert(s0.last() == s);
            if r0.len() > 0 {
                assert(calls_reached(calls@, r0, s0[s0.len() - 1]));
            }
            assert(s0.contains(s));
            assert(!r0.contains(s));
            reached = r0.push(s);
            assert(reached.no_duplicates()) by {
                assert forall|a: int, b: int| 0 <= a < b < reached.len() implies reached[a] != reached[b] by {
                    if b == r0.len() {
                        assert(r0.contains(reached[a]));
                    } else {
                        assert(reached[a] == r0[a] && reached[b] == r0[b]);
                    }
                }
            }
            assert(keys_of(stack@).no_duplicates()) by {
                assert forall|a: int, b: int| 0 <= a < b < keys_of(stack@).len()
                    implies keys_of(stack@)[a] != keys_of(stack@)[b] by {
                    assert(keys_of(stack@)[a] == s0[a] && keys_of(stack@)[b] == s0[b]);
                }
            }
            assert forall|x: MethodKey| #[trigger] keys_of(visited@).contains(x) <==> (reached.contains(x)
                || keys_of(stack@).contains(x)) by {
                if keys_of(stack@).contains(x) {
                    let m = choose|m: int| 0 <= m < keys_of(stack@).len() && keys_of(stack@)[m] == x;
                    assert(s0[m] == x);
                }
                if reached.contains(x) {
                    let m = choose|m: int| 0 <= m < reached.len() && reached[m] == x;
                    if m < r0.len() {
                        assert(r0[m] == x);
                    }
                }
                if r0.contains(x) {
                    let m = choose|m: int| 0 <= m < r0.len() && r0[m] == x;
                    assert(reached[m] == x);
                }
                if s0.contains(x) {
                    let m = choose|m: int| 0 <= m < s0.len() && s0[m] == x;
                    if m < s0.len() - 1 {
                        assert(keys_of(stack@)[m] == x);
                    } else {
                        assert(reached[r0.len() as int] == x);
                    }
                }
            }
            assert forall|x: MethodKey| reached.contains(x) implies !(#[trigger] keys_of(stack@).contains(x)) by {
                if keys_of(stack@).contains(x) {
                    let m = choose|m: int| 0 <= m < keys_of(stack@).len() && keys_of(stack@)[m] == x;
                    assert(s0[m] == x);
                    assert(s0[s0.len() - 1] == s);
                    if x == s {
                        assert(s0[m] != s0[s0.len() - 1]);
                    } else {
                        let k = choose|k: int| 0 <= k < reached.len() && reached[k] == x;
                        assert(r0[k] == x);
                        assert(r0.contains(x));
                        assert(s0.contains(x));
                    }
                }
            }
            if r0.len() > 0 {
                assert(called_by_earlier(calls@, reached, r0.len() as int)) by {
                    let (i, j) = choose|i: int, j: int|
                        #![trigger calls@[i], r0[j]]
                        0 <= j < r0.len() && 0 <= i < calls@.len() && callee_key(calls@[i]) == r0[j]
                            && caller_key(calls@[i]) == s0[s0.len() - 1];
                    assert(reached[j] == r0[j]);
                    assert(reached[r0.len() as int] == s);
                }
            }
            if r0.len() == 0 {
                assert(s == start);
            }
            assert forall|k: int| 0 < k < reached.len() implies #[trigger] called_by_earlier(calls@, reached, k) by {
                if k < r0.len() {
                    assert(called_by_earlier(calls@, r0, k));
                    let (i, j) = choose|i: int, j: int|
                        #![trigger calls@[i], r0[j]]
                        0 <= j < k && 0 <= i < calls@.len() && callee_key(calls@[i]) == r0[j]
                            && caller_key(calls@[i]) == r0[k];
                    assert(reached[j] == r0[j] && reached[k] == r0[k]);
                }
            }
            assert forall|m: int| 0 <= m < keys_of(stack@).len() implies #[trigger] calls_reached(
                calls@,
                reached,
                keys_of(stack@)[m],
            ) by {
                assert(keys_of(stack@)[m] == s0[m]);
                if r0.len() == 0 {
                    assert(s0.len() == 1);
                }
                assert(calls_reached(calls@, r0, s0[m]));
                let (i, j) = choose|i: int, j: int|
                    #![trigger calls@[i], r0[j]]
                    0 <= j < r0.len() && 0 <= i < calls@.len() && callee_key(calls@[i]) == r0[j]
                        && caller_key(calls@[i]) == s0[m];
                assert(reached[j] == r0[j]);
            }
            assert(search_state(calls@, start, keys_of(visited@), keys_of(stack@), reached));
            assert(calls@.subrange(0, 0) =~= Seq::<CallSite>::empty());
        }
        let cls = top.0;
        let mtd = top.1;
        let node_id = join_dot(cls.as_str(), mtd.as_str());
        let mut count: usize = 0;
        let mut j: usize = 0;
        while j < calls.len()
            invariant
                j <= calls@.len(),
                s == (cls@, mtd@),
                node_id@ == key_id(s),
                reached == r0.push(s),
                search_state(calls@, start, keys_of(visited@), keys_of(stack@), reached),
                forall|i: int|
                    0 <= i < calls@.len() && r0.contains(callee_key(#[trigger] calls@[i]))
                        ==> keys_of(visited@).contains(caller_key(calls@[i])),
                forall|i: int|
                    0 <= i < j && callee_key(#[trigger] calls@[i]) == s ==> keys_of(visited@).contains(
                        caller_key(calls@[i]),
                    ),
                keys_of(edges@) == edges_of(calls@, r0) + edges_into(calls@.subrange(0, j as int), s),
                count == edges_into(calls@.subrange(0, j as int), s).len(),
                count <= j,
                unvisited_count(calls@, keys_of(visited@)) + keys_of(stack@).len() + 1 <= m0,
            decreases calls.len() - j,
        {
            let ghost pre = calls@.subrange(0, j + 1);
            proof {
                assert(pre.drop_last() =~= calls@.subrange(0, j as int));
                assert(pre.last() == calls@[j as int]);
            }
            let c = &calls[j];
            if str_eq(c.callee.as_str(), mtd.as_str()) && str_eq(c.callee_class.as_str(), cls.as_str()) {
                count = count + 1;
                let caller_id = join_dot(c.caller_class.as_str(), c.caller_method.as_str());
                let ghost e0 = edges@;
                edges.push((caller_id, node_id.clone()));
                proof {
                    assert(keys_of(edges@) =~= keys_of(e0).push(key_of((caller_id, node_id))));
                    assert(callee_key(calls@[j as int]) == s);
                }
                if !has_key(&visited, c.caller_class.as_str(), c.caller_method.as_str()) {
                    let ghost v0 = keys_of(visited@);
                    let ghost st0 = keys_of(stack@);
                    let ghost x = caller_key(calls@[j as int]);
                    visited.push((c.caller_class.clone(), c.caller_method.clone()));
                    stack.push((c.caller_class.clone(), c.caller_method.clone()));
                    proof {
                        assert(keys_of(visited@) =~= v0.push(x));
                        assert(keys_of(stack@) =~= st0.push(x));
                        lemma_unvisited_push_lt(calls@, v0, x, j as int);
                        assert(!reached.contains(x));
                        assert(!st0.contains(x));
                        assert(keys_of(visited@).no_duplicates()) by {
                            assert forall|a: int, b: int| 0 <= a < b < v0.len() + 1 implies keys_of(visited@)[a]
                                != keys_of(visited@)[b] by {
                                if b == v0.len() {
                                    assert(v0.contains(keys_of(visited@)[a]));
                                }
                            }
                        }
                        assert(keys_of(stack@).no_duplicates()) by {
                            assert forall|a: int, b: int| 0 <= a < b < st0.len() + 1 implies keys_of(stack@)[a]
                                != keys_of(stack@)[b] by {
                                if b == st0.len() {
                                    assert(st0.contains(keys_of(stack@)[a]));
                                }
                            }
                        }
                        assert forall|y: MethodKey| #[trigger] keys_of(visited@).contains(y) <==> (
                        reached.contains(y) || keys_of(stack@).contains(y)) by {
                            if keys_of(visited@).contains(y) && y != x {
                                let m = choose|m: int| 0 <= m < keys_of(visited@).len() && keys_of(visited@)[m] == y;
                                assert(v0[m] == y);
                            }
                            if keys_of(stack@).contains(y) && y != x {
                                let m = choose|m: int| 0 <= m < keys_of(stack@).len() && keys_of(stack@)[m] == y;
                                assert(st0[m] == y);
                            }
                            if v0.contains(y) {
                                let m = choose|m: int| 0 <= m < v0.len() && v0[m] == y;
                                assert(keys_of(visited@)[m] == y);
                            }
                            if st0.contains(y) {
                                let m = choose|m: int| 0 <= m < st0.len() && st0[m] == y;
                                assert(keys_of(stack@)[m] == y);
                            }
                            assert(keys_of(visited@)[v0.len() as int] == x);
                            assert(keys_of(stack@)[st0.len() as int] == x);
                        }
                        assert forall|y: MethodKey| reached.contains(y) implies !(#[trigger] keys_of(stack@).contains(y)) by {
                            if keys_of(stack@).contains(y) && y != x {
                                let m = choose|m: int| 0 <= m < keys_of(stack@).len() && keys_of(stack@)[m] == y;
                                assert(st0[m] == y);
                                assert(st0.contains(y));
                            }
                        }
                        assert forall|m: int| 0 <= m < keys_of(stack@).len() implies #[trigger] calls_reached(
                            calls@,
                            reached,
                            keys_of(stack@)[m],
                        ) by {
                            if m < st0.len() {
                                assert(keys_of(stack@)[m] == st0[m]);
                            } else {
                                assert(reached[r0.len() as int] == s);
                                assert(callee_key(calls@[j as int]) == reached[r0.len() as int]);
                            }
                        }
                        assert forall|i: int|
                            0 <= i < calls@.len() && r0.contains(callee_key(#[trigger] calls@[i]))
                                implies keys_of(visited@).contains(caller_key(calls@[i])) by {
                            let m = choose|m: int| 0 <= m < v0.len() && v0[m] == caller_key(calls@[i]);
                            assert(keys_of(visited@)[m] == v0[m]);
                        }
                        assert forall|i: int|
                            0 <= i < j && callee_key(#[trigger] calls@[i]) == s implies keys_of(visited@).contains(
                                caller_key(calls@[i]),
                            ) by {
                            let m = choose|m: int| 0 <= m < v0.len() && v0[m] == caller_key(calls@[i]);
                            assert(keys_of(visited@)[m] == v0[m]);
                        }
                        assert(keys_of(visited@)[v0.len() as int] == x);
                        assert(search_state(calls@, start, keys_of(visited@), keys_of(stack@), reached));
                    }
                }
            }
            j = j + 1;
        }
        proof {
            assert(calls@.subrange(0, calls@.len() as int) =~= calls@);
            assert(reached.drop_last() =~= r0);
            assert(edges_of(calls@, reached) == edges_of(calls@, r0) + edges_into(calls@, s));
            assert forall|i: int|
                0 <= i < calls@.len() && reached.contains(callee_key(#[trigger] calls@[i]))
                    implies keys_of(visited@).contains(caller_key(calls@[i])) by {
                let m = choose|m: int| 0 <= m < reached.len() && reached[m] == callee_key(calls@[i]);
                if m < r0.len() {
                    assert(r0[m] == reached[m]);
                }
            }
        }
        let ghost n0 = nodes@;
        let (p, found) = insert_or_keep(&mut nodes, node_id, count);
        proof {
            let n = nodes@;
            let id = key_id(s);
            assert forall|t: int| 0 <= t < reached.len() implies #[trigger] node_listed(n, key_id(reached[t])) by {
                if t < r0.len() {
                    assert(reached[t] == r0[t]);
                    assert(node_listed(n0, key_id(r0[t])));
                    let i = choose|i: int| 0 <= i < n0.len() && (#[trigger] n0[i]).0@ == key_id(r0[t]);
                    if found {
                        assert(n[i].0@ == n0[i].0@);
                    } else if i < p {
                        assert(n[i] == n0[i]);
                    } else {
                        assert(n[i + 1] == n0[i]);
                    }
                } else {
                    assert(n[p as int].0@ == id);
                }
            }
            assert forall|i: int| 0 <= i < n.len() implies #[trigger] node_reached(n[i].0@, reached) by {
                assert(reached[r0.len() as int] == s);
                if found {
                    assert(n[i].0@ == n0[i].0@);
                    assert(node_reached(n0[i].0@, r0));
                    let t = choose|t: int| 0 <= t < r0.len() && key_id(#[trigger] r0[t]) == n0[i].0@;
                    assert(reached[t] == r0[t]);
                } else if i == p {
                } else {
                    let i0 = if i < p { i } else { i - 1 };
                    assert(n[i] == n0[i0]);
                    assert(node_reached(n0[i0].0@, r0));
                    let t = choose|t: int| 0 <= t < r0.len() && key_id(#[trigger] r0[t]) == n0[i0].0@;
                    assert(reached[t] == r0[t]);
                }
            }
            assert forall|i: int| 0 <= i < n.len() implies (#[trigger] n[i]).1.0 == direct_count(calls@, reached, n[i].0@)
                && n[i].1.1 == 0 by {
                if n[i].0@ != id {
                    let i0 = if found || i < p { i } else { i - 1 };
                    assert(n[i] == n0[i0]);
                } else {
                    if found {
                        assert(i == p) by {
                            if i != p {
                                lemma_sorted_unique(n, i, p as int);
                            }
                        }
                        assert(n0[p as int].1.0 == direct_count(calls@, r0, id));
                        assert(node_reached(id, r0)) by {
                            assert(node_listed(n0, id));
                            let i0 = choose|i0: int| 0 <= i0 < n0.len() && (#[trigger] n0[i0]).0@ == id;
                            assert(node_reached(n0[i0].0@, r0));
                        }
                        assert(reached.drop_last() =~= r0);
                    } else {
                        assert(i == p) by {
                            if i != p {
                                let i0 = if i < p { i } else { i - 1 };
                                assert(n[i] == n0[i0]);
                                assert(node_listed(n0, id));
                            }
                        }
                        assert(!node_reached(id, r0)) by {
                            if node_reached(id, r0) {
                                let t = choose|t: int| 0 <= t < r0.len() && key_id(#[trigger] r0[t]) == id;
                                assert(node_listed(n0, key_id(r0[t])));
                            }
                        }
                        lemma_direct_count_absent(calls@, r0, id);
                    }
                }
            }
        }
    }
    proof {
        assert forall|x: MethodKey| keys_of(visited@).contains(x) implies reached.contains(x) by {
            if keys_of(stack@).contains(x) {
                let m = choose|m: int| 0 <= m < keys_of(stack@).len() && keys_of(stack@)[m] == x;
            }
        }
    }
    (nodes, edges, Ghost(reached))
}

proof fn lemma_edges_into_shape(calls: Seq<CallSite>, k: MethodKey, m: int)
    requires
        0 <= m < edges_into(calls, k).len(),
    ensures
        edges_into(calls, k)[m].1 == key_id(k),
        exists|i: int|
            0 <= i < calls.len() && callee_key(#[trigger] calls[i]) == k && edges_into(calls, k)[m].0
                == key_id(caller_key(calls[i])),
    decreases calls.len(),
{
    let rest = edges_into(calls.drop_last(), k);
    if m < rest.len() {
        lemma_edges_into_shape(calls.drop_last(), k, m);
        let i = choose|i: int|
            0 <= i < calls.drop_last().len() && callee_key(#[trigger] calls.drop_last()[i]) == k
                && rest[m].0 == key_id(caller_key(calls.drop_last()[i]));
        assert(calls[i] == calls.drop_last()[i]);
    } else {
        assert(callee_key(calls[calls.len() - 1]) == k);
    }
}

proof fn lemma_edges_of_shape(calls: Seq<CallSite>, ks: Seq<MethodKey>, m: int)
    requires
        0 <= m < edges_of(calls, ks).len(),
    ensures
        exists|t: int, i: int|
            #![trigger ks[t], calls[i]]
            0 <= t < ks.len() && 0 <= i < calls.len() && edges_of(calls, ks)[m].1 == key_id(ks[t])
                && callee_key(calls[i]) == ks[t] && edges_of(calls, ks)[m].0 == key_id(
                caller_key(calls[i]),
            ),
    decreases ks.len(),
{
    let front = edges_of(calls, ks.drop_last());
    if m < front.len() {
        lemma_edges_of_shape(calls, ks.drop_last(), m);
        let (t, i) = choose|t: int, i: int|
            #![trigger ks.drop_last()[t], calls[i]]
            0 <= t < ks.drop_last().len() && 0 <= i < calls.len() && front[m].1 == key_id(
                ks.drop_last()[t],
            ) && callee_key(calls[i]) == ks.drop_last()[t] && front[m].0 == key_id(
                caller_key(calls[i]),
            );
        assert(ks[t] == ks.drop_last()[t]);
    } else {
        lemma_edges_into_shape(calls, ks.last(), m - front.len());
        let i = choose|i: int|
            0 <= i < calls.len() && callee_key(#[trigger] calls[i]) == ks.last() && edges_into(
                calls,
                ks.last(),
            )[m - front.len()].0 == key_id(caller_key(calls[i]));
        assert(ks[ks.len() - 1] == ks.last());
    }
}

/// Both ends of every edge of the search are node ids.
proof fn lemma_edge_ends_listed(
    calls: Seq<CallSite>,
    start: MethodKey,
    reached: Seq<MethodKey>,
    ns: Seq<(String, (usize, usize))>,
    m: int,
)
    requires
        is_caller_closure(calls, reached, start),
        nodes_match(ns, calls, reached),
        0 <= m < edges_of(calls, reached).len(),
    ensures
        node_listed(ns, edges_of(calls, reached)[m].0),
        node_listed(ns, edges_of(calls, reached)[m].1),
{
    lemma_edges_of_shape(calls, reached, m);
    let (t, i) = choose|t: int, i: int|
        #![trigger reached[t], calls[i]]
        0 <= t < reached.len() && 0 <= i < calls.len() && edges_of(calls, reached)[m].1 == key_id(
            reached[t],
        ) && callee_key(calls[i]) == reached[t] && edges_of(calls, reached)[m].0 == key_id(
            caller_key(calls[i]),
        );
    assert(reached.contains(callee_key(calls[i])));
    assert(reached.contains(caller_key(calls[i])));
    let u = choose|u: int| 0 <= u < reached.len() && reached[u] == caller_key(calls[i]);
    assert(node_listed(ns, key_id(reached[u])));
    assert(node_listed(ns, key_id(reached[t])));
}

/// The position of the node `id`.
fn node_position(nodes: &Vec<(String, (usize, usize))>, id: &str) -> (r: usize)
    requires
        node_listed(nodes@, id@),
    ensures
        r < nodes@.len(),
        nodes@[r as int].0@ == id@,
{
    let mut i: usize = 0;
    while i < nodes.len()
        invariant
            i <= nodes@.len(),
            node_listed(nodes@, id@),
            forall|k: int| 0 <= k < i ==> (#[trigger] nodes@[k]).0@ != id@,
        decreases nodes.len() - i,
    {
        if str_eq(nodes[i].0.as_str(), id) {
            return i;
        }
        i = i + 1;
    }
    proof {
        let k = choose|k: int| 0 <= k < nodes@.len() && (#[trigger] nodes@[k]).0@ == id@;
    }
    0
}

/// Node positions of both ends of each edge.
fn edge_positions(nodes: &Vec<(String, (usize, usize))>, edges: &Vec<(String, String)>) -> (r: Vec<(usize, usize)>)
    requires
        forall|m: int|
            0 <= m < edges@.len() ==> node_listed(nodes@, (#[trigger] edges@[m]).0@) && node_listed(
                nodes@,
                edges@[m].1@,
            ),
    ensures
        r@.len() == edges@.len(),
        forall|m: int|
            0 <= m < r@.len() ==> (#[trigger] r@[m]).0 < nodes@.len() && r@[m].1 < nodes@.len()
                && nodes@[r@[m].0 as int].0@ == edges@[m].0@ && nodes@[r@[m].1 as int].0@
                == edges@[m].1@,
{
    let mut r: Vec<(usize, usize)> = Vec::new();
    let mut m: usize = 0;
    while m < edges.len()
        invariant
            m <= edges@.len(),
            r@.len() == m,
            forall|m: int|
                0 <= m < edges@.len() ==> node_listed(nodes@, (#[trigger] edges@[m]).0@) && node_listed(
                    nodes@,
                    edges@[m].1@,
                ),
            forall|k: int|
                0 <= k < m ==> (#[trigger] r@[k]).0 < nodes@.len() && r@[k].1 < nodes@.len()
                    && nodes@[r@[k].0 as int].0@ == edges@[k].0@ && nodes@[r@[k].1 as int].0@
                    == edges@[k].1@,
        decreases edges.len() - m,
    {
        let a = node_position(nodes, edges[m].0.as_str());
        let b = node_position(nodes, edges[m].1.as_str());
        r.push((a, b));
        m = m + 1;
    }
    r
}

proof fn lemma_walks_in_mono(es: Seq<(Seq<char>, Seq<char>)>, j: nat, k: nat, id: Seq<char>, r: nat)
    requires
        j <= k <= es.len(),
    ensures
        walks_in(es, j, id, r) <= walks_in(es, k, id, r),
    decreases k,
{
    if j < k {
        lemma_walks_in_mono(es, j, (k - 1) as nat, id, r);
    }
}

/// The edge list and node ids that the counting works on: the two ends of
/// edge `m` are nodes `pos[m].0` and `pos[m].1`, and the ids are distinct.
pub open spec fn counting_input(
    pos: Seq<(usize, usize)>,
    ids: Seq<Seq<char>>,
    es: Seq<(Seq<char>, Seq<char>)>,
) -> bool {
    &&& pos.len() == es.len()
    &&& forall|m: int|
        0 <= m < pos.len() ==> (#[trigger] pos[m]).0 < ids.len() && pos[m].1 < ids.len() && ids[pos[m].0 as int]
            == es[m].0 && ids[pos[m].1 as int] == es[m].1
    &&& forall|a: int, b: int| 0 <= a < b < ids.len() ==> #[trigger] ids[a] != #[trigger] ids[b]
}

/// One round of counting: from the walks of length up to `r` ending at
/// each node to those of length up to `r + 1`; `None` when a count does
/// not fit in `usize`.
fn count_round(
    prev: &Vec<usize>,
    pos: &Vec<(usize, usize)>,
    Ghost(ids): Ghost<Seq<Seq<char>>>,
    Ghost(es): Ghost<Seq<(Seq<char>, Seq<char>)>>,
    Ghost(r): Ghost<nat>,
) -> (res: Option<Vec<usize>>)
    requires
        counting_input(pos@, ids, es),
        prev@.len() == ids.len(),
        forall|i: int| 0 <= i < ids.len() ==> (#[trigger] prev@[i]) == walks(es, ids[i], r),
    ensures
        res matches Some(v) ==> v@.len() == ids.len() && forall|i: int|
            0 <= i < ids.len() ==> (#[trigger] v@[i]) == walks(es, ids[i], r + 1),
        res is None ==> exists|i: int| 0 <= i < ids.len() && walks(es, #[trigger] ids[i], r + 1) > usize::MAX,
{
    let mut next: Vec<usize> = Vec::new();
    let mut i: usize = 0;
    while i < prev.len()
        invariant
            i <= prev@.len(),
            next@.len() == i,
            forall|k: int| 0 <= k < i ==> (#[trigger] next@[k]) == 0,
        decreases prev.len() - i,
    {
        next.push(0);
        i = i + 1;
    }
    let mut j: usize = 0;
    while j < pos.len()
        invariant
            counting_input(pos@, ids, es),
            prev@.len() == ids.len(),
            forall|i: int| 0 <= i < ids.len() ==> (#[trigger] prev@[i]) == walks(es, ids[i], r),
            j <= pos@.len(),
            next@.len() == ids.len(),
            forall|i: int| 0 <= i < ids.len() ==> (#[trigger] next@[i]) == walks_in(es, j as nat, ids[i], r),
        decreases pos.len() - j,
    {
        let (a, b) = pos[j];
        proof {
            assert(pos@[j as int].0 == a && pos@[j as int].1 == b);
            assert forall|i: int| 0 <= i < ids.len() implies walks_in(es, (j + 1) as nat, #[trigger] ids[i], r)
                == walks_in(es, j as nat, ids[i], r) + if es[j as int].1 == ids[i] {
                1 + walks(es, es[j as int].0, r)
            } else {
                0
            } by {}
        }
        let add = prev[a].checked_add(1);
        let total = match add {
            Some(x) => next[b].checked_add(x),
            None => None,
        };
        match total {
            Some(v) => {
                next.set(b, v);
                proof {
                    assert forall|i: int| 0 <= i < ids.len() implies (#[trigger] next@[i]) == walks_in(
                        es,
                        (j + 1) as nat,
                        ids[i],
                        r,
                    ) by {
                        if i != b {
                            assert(ids[i] != ids[b as int]);
                        }
                    }
                }
            },
            None => {
                proof {
                    lemma_walks_in_mono(es, (j + 1) as nat, es.len() as nat, ids[b as int], r);
                    assert(walks(es, ids[b as int], r + 1) > usize::MAX);
                }
                return None;
            },
        }
        j = j + 1;
    }
    Some(next)
}

/// Transitive caller counts of the nodes `ids` over the edges `es` (given
/// by node positions `pos`): the number of walks of 1 to `n` edges ending
/// at each node, `n` being the number of nodes (every walk, when the
/// callers form no cycle); `CountOverflow` when a count does not fit in
/// `usize`.
fn transitive_counts(
    pos: &Vec<(usize, usize)>,
    n: usize,
    Ghost(ids): Ghost<Seq<Seq<char>>>,
    Ghost(es): Ghost<Seq<(Seq<char>, Seq<char>)>>,
) -> (res: Result<Vec<usize>, ImpactError>)
    requires
        counting_input(pos@, ids, es),
        n == ids.len(),
    ensures
        res matches Ok(v) ==> v@.len() == n && forall|i: int|
            0 <= i < n ==> (#[trigger] v@[i]) == walks(es, ids[i], n as nat),
        res matches Err(e) ==> counting_failure(e, ids, es),
{
    let mut cur: Vec<usize> = Vec::new();
    let mut i: usize = 0;
    while i < n
        invariant
            i <= n,
            cur@.len() == i,
            forall|k: int| 0 <= k < i ==> (#[trigger] cur@[k]) == 0,
        decreases n - i,
    {
        cur.push(0);
        i = i + 1;
    }
    let mut r: usize = 0;
    while r < n
        invariant
            counting_input(pos@, ids, es),
            n == ids.len(),
            r <= n,
            cur@.len() == n,
            forall|i: int| 0 <= i < n ==> (#[trigger] cur@[i]) == walks(es, ids[i], r as nat),
            forall|q: nat, i: int| q <= r && 0 <= i < n ==> #[trigger] walks(es, ids[i], q) <= usize::MAX,
        decreases n - r,
    {
        match count_round(&cur, pos, Ghost(ids), Ghost(es), Ghost(r as nat)) {
            Some(v) => {
                proof {
                    assert forall|q: nat, i: int| q <= r + 1 && 0 <= i < n implies #[trigger] walks(
                        es,
                        ids[i],
                        q,
                    ) <= usize::MAX by {
                        if q == r + 1 {
                            assert(v@[i] == walks(es, ids[i], q));
                        }
                    }
                }
                cur = v;
            },
            None => {
                return Err(ImpactError::CountOverflow);
            },
        }
        r = r + 1;
    }
    Ok(cur)
}

/// Why counting failed: a count past `usize::MAX` within `n` rounds.
pub open spec fn counting_failure(e: ImpactError, ids: Seq<Seq<char>>, es: Seq<(Seq<char>, Seq<char>)>) -> bool {
    let n = ids.len();
    match e {
        ImpactError::CountOverflow => exists|q: nat, i: int|
            q <= n && 0 <= i < n && #[trigger] walks(es, ids[i], q) > usize::MAX,
        _ => false,
    }
}

/// The edges without repeats, each at its first occurrence.
fn dedup_edges(edges: &Vec<(String, String)>) -> (r: Vec<(String, String)>)
    ensures
        keys_of(r@) == dedup_first(keys_of(edges@)),
{
    let mut out: Vec<(String, String)> = Vec::new();
    let mut j: usize = 0;
    while j < edges.len()
        invariant
            j <= edges@.len(),
            keys_of(out@) == dedup_first(keys_of(edges@).subrange(0, j as int)),
        decreases edges.len() - j,
    {
        let ghost pre = keys_of(edges@).subrange(0, j + 1);
        proof {
            assert(pre.drop_last() =~= keys_of(edges@).subrange(0, j as int));
            assert(pre.last() == key_of(edges@[j as int]));
        }
        if !has_key(&out, edges[j].0.as_str(), edges[j].1.as_str()) {
            let ghost o = out@;
            out.push((edges[j].0.clone(), edges[j].1.clone()));
            assert(keys_of(out@) =~= keys_of(o).push(key_of(edges@[j as int])));
        }
        j = j + 1;
    }
    assert(keys_of(edges@).subrange(0, edges@.len() as int) =~= keys_of(edges@));
    out
}

/// Why an impact analysis could not be made.
#[derive(Debug)]
pub enum ImpactError {
    /// The method is not in the class, but exactly one class matches both
    /// names when case is ignored.
    DidYouMean { method: String, class: String, actual_method: String, actual_class: String },
    /// The method is not in the class; several classes match both names when
    /// case is ignored.
    Candidates { method: String, class: String, candidates: Vec<String> },
    /// The method is not in the class and nothing matches when case is ignored.
    NotFound { method: String, class: String },
    /// A transitive count does not fit in `usize`.
    CountOverflow,
}

/// `g` is the impact graph of the method `start` over `calls`: the methods
/// reached backwards, one node per id with its direct count and its number
/// of caller walks of 1 to as many edges as there are nodes (all of them
/// when the callers form no cycle),
/// all edges with repeats, and the edges without repeats.
pub open spec fn impact_result(calls: Seq<CallSite>, start: MethodKey, g: ImpactGraph) -> bool {
    let n = g.nodes@.len();
    &&& g.target@ == key_id(start)
    &&& is_caller_closure(calls, g.reached@, start)
    &&& g.all_edges@ == edges_of(calls, g.reached@)
    &&& keys_of(g.edges@) == dedup_first(g.all_edges@)
    &&& nodes_match(g.nodes@, calls, g.reached@)
    &&& forall|i: int|
        0 <= i < n ==> (#[trigger] g.nodes@[i]).1.1 == walks(g.all_edges@, g.nodes@[i].0@, n as nat)
}

/// The search from `start` (methods reached and their nodes) ends in the
/// counting failure `e`.
pub open spec fn impact_failure(calls: Seq<CallSite>, start: MethodKey, e: ImpactError) -> bool {
    exists|reached: Seq<MethodKey>, ns: Seq<(String, (usize, usize))>|
        #![trigger nodes_match(ns, calls, reached)]
        is_caller_closure(calls, reached, start) && nodes_match(ns, calls, reached) && counting_failure(
            e,
            ids_of(ns),
            edges_of(calls, reached),
        )
}

/// The impact graph of `class.method` over the calls of `cg`: every method
/// that calls it, directly or through other methods, with the edges
/// between them and the direct and transitive caller counts of each.
pub fn impact_of(cg: &CallGraph, class: &str, method: &str) -> (r: Result<ImpactGraph, ImpactError>)
    ensures
        match r {
            Ok(g) => impact_result(cg.calls@, (class@, method@), g) && g.wf(),
            Err(e) => impact_failure(cg.calls@, (class@, method@), e),
        },
{
    let ghost start: MethodKey = (class@, method@);
    let (mut nodes, all_edges, Ghost(reached)) = collect_callers(&cg.calls, class, method);
    let ghost es = keys_of(all_edges@);
    proof {
        assert forall|m: int| 0 <= m < all_edges@.len() implies node_listed(nodes@, (#[trigger] all_edges@[m]).0@)
            && node_listed(nodes@, all_edges@[m].1@) by {
            assert(es[m] == key_of(all_edges@[m]));
            lemma_edge_ends_listed(cg.calls@, start, reached, nodes@, m);
        }
    }
    let pos = edge_positions(&nodes, &all_edges);
    let ghost ids = ids_of(nodes@);
    let ghost n0 = nodes@;
    proof {
        assert forall|m: int| 0 <= m < pos@.len() implies (#[trigger] pos@[m]).0 < ids.len() && pos@[m].1 < ids.len()
            && ids[pos@[m].0 as int] == es[m].0 && ids[pos@[m].1 as int] == es[m].1 by {
            assert(es[m] == key_of(all_edges@[m]));
        }
        assert forall|a: int, b: int| 0 <= a < b < ids.len() implies #[trigger] ids[a] != #[trigger] ids[b] by {
            lemma_sorted_unique(nodes@, a, b);
        }
        assert(counting_input(pos@, ids, es));
    }
    let n = nodes.len();
    let t = match transitive_counts(&pos, n, Ghost(ids), Ghost(es)) {
        Ok(t) => t,
        Err(e) => {
            proof {
                assert(is_caller_closure(cg.calls@, reached, start) && nodes_match(n0, cg.calls@, reached)
                    && counting_failure(e, ids_of(n0), edges_of(cg.calls@, reached)));
            }
            return Err(e);
        },
    };
    let mut i: usize = 0;
    while i < n
        invariant
            n == n0.len(),
            t@.len() == n,
            nodes@.len() == n,
            i <= n,
            forall|k: int|
                0 <= k < n ==> (#[trigger] nodes@[k]).0 == n0[k].0 && nodes@[k].1.0 == n0[k].1.0,
            forall|k: int| 0 <= k < i ==> (#[trigger] nodes@[k]).1.1 == t@[k],
        decreases n - i,
    {
        let name = nodes[i].0.clone();
        let d = nodes[i].1.0;
        nodes.set(i, (name, (d, t[i])));
        i = i + 1;
    }
    proof {
        assert forall|a: int, b: int| 0 <= a < b < nodes@.len() implies seq_lt(
            #[trigger] nodes@[a].0@,
            #[trigger] nodes@[b].0@,
        ) by {
            assert(seq_lt(n0[a].0@, n0[b].0@));
        }
        assert forall|k: int| 0 <= k < n implies #[trigger] node_reached(nodes@[k].0@, reached) by {
            assert(node_reached(n0[k].0@, reached));
        }
        assert forall|u: int| 0 <= u < reached.len() implies #[trigger] node_listed(nodes@, key_id(reached[u])) by {
            assert(node_listed(n0, key_id(reached[u])));
            let k = choose|k: int| 0 <= k < n0.len() && (#[trigger] n0[k]).0@ == key_id(reached[u]);
            assert(nodes@[k].0@ == n0[k].0@);
        }
        assert forall|k: int| 0 <= k < n implies (#[trigger] nodes@[k]).1.0 == direct_count(
            cg.calls@,
            reached,
            nodes@[k].0@,
        ) by {
            assert(n0[k].1.0 == direct_count(cg.calls@, reached, n0[k].0@));
        }
        assert forall|k: int| 0 <= k < n implies (#[trigger] nodes@[k]).1.1 == walks(es, nodes@[k].0@, n as nat) by {
            assert(ids[k] == n0[k].0@);
        }
    }
    let edges = dedup_edges(&all_edges);
    let g = ImpactGraph {
        nodes,
        edges,
        target: join_dot(class, method),
        reached: Ghost(reached),
        all_edges: Ghost(es),
    };
    Ok(g)
}

/// The first method of `ms` whose name equals `method` when both are
/// lowercased.
pub open spec fn first_ci_method(ms: Seq<MethodDescriptor>, method: Seq<char>) -> Option<Seq<char>>
    decreases ms.len(),
{
    if ms.len() == 0 {
        None
    } else if lowercase(ms[0].method@) == lowercase(method) {
        Some(ms[0].method@)
    } else {
        first_ci_method(ms.drop_first(), method)
    }
}

/// The classes whose name is `class` and that have a method named
/// `method`, both compared lowercased: (class name, actual method name), in
/// class order.
pub open spec fn ci_matches(cs: Seq<ClassInfo>, class: Seq<char>, method: Seq<char>) -> Seq<(Seq<char>, Seq<char>)>
    decreases cs.len(),
{
    if cs.len() == 0 {
        Seq::empty()
    } else {
        let rest = ci_matches(cs.drop_last(), class, method);
        let c = cs.last();
        if lowercase(c.name@) == lowercase(class) && first_ci_method(c.methods@, method) is Some {
            rest.push((c.name@, first_ci_method(c.methods@, method).unwrap()))
        } else {
            rest
        }
    }
}

/// The first method of `ms` whose lowercased name is `lower`.
fn first_ci_method_exec(ms: &Vec<MethodDescriptor>, lower: &str, Ghost(method): Ghost<Seq<char>>) -> (r: Option<String>)
    requires
        lower@ == lowercase(method),
    ensures
        match r {
            Some(m) => first_ci_method(ms@, method) == Some(m@),
            None => first_ci_method(ms@, method) is None,
        },
{
    let mut i: usize = 0;
    assert(ms@.subrange(0, ms@.len() as int) =~= ms@);
    while i < ms.len()
        invariant
            i <= ms@.len(),
            lower@ == lowercase(method),
            first_ci_method(ms@, method) == first_ci_method(ms@.subrange(i as int, ms@.len() as int), method),
        decreases ms.len() - i,
    {
        let ghost rest = ms@.subrange(i as int, ms@.len() as int);
        assert(rest[0] == ms@[i as int]);
        assert(rest.drop_first() =~= ms@.subrange(i + 1, ms@.len() as int));
        let l = to_lower(ms[i].method.as_str());
        if str_eq(l.as_str(), lower) {
            return Some(ms[i].method.clone());
        }
        i = i + 1;
    }
    None
}

/// The case-insensitive matches of `class.method` among the classes of
/// `tg`, in class order.
pub fn case_insensitive_matches(tg: &TypeGraph, class: &str, method: &str) -> (r: Vec<(String, String)>)
    ensures
        keys_of(r@) == ci_matches(tg.classes@, class@, method@),
{
    let lc = to_lower(class);
    let lm = to_lower(method);
    let mut r: Vec<(String, String)> = Vec::new();
    let mut i: usize = 0;
    while i < tg.classes.len()
        invariant
            i <= tg.classes@.len(),
            lc@ == lowercase(class@),
            lm@ == lowercase(method@),
            keys_of(r@) == ci_matches(tg.classes@.subrange(0, i as int), class@, method@),
        decreases tg.classes.len() - i,
    {
        let ghost pre = tg.classes@.subrange(0, i + 1);
        proof {
            assert(pre.drop_last() =~= tg.classes@.subrange(0, i as int));
            assert(pre.last() == tg.classes@[i as int]);
        }
        let c = &tg.classes[i];
        let ln = to_lower(c.name.as_str());
        if str_eq(ln.as_str(), lc.as_str()) {
            match first_ci_method_exec(&c.methods, lm.as_str(), Ghost(method@)) {
                Some(m) => {
                    let ghost r0 = r@;
                    r.push((c.name.clone(), m));
                    assert(keys_of(r@) =~= keys_of(r0).push(key_of(r@[r@.len() - 1])));
                },
                None => {},
            }
        }
        i = i + 1;
    }
    assert(tg.classes@.subrange(0, tg.classes@.len() as int) =~= tg.classes@);
    r
}

/// The error for a target method that is not in its class, given the
/// case-insensitive matches: a suggestion for exactly one, the candidate
/// classes for several, plain "not found" for none.
pub open spec fn missing_target(e: ImpactError, class: Seq<char>, method: Seq<char>, matches: Seq<(Seq<char>, Seq<char>)>) -> bool {
    if matches.len() == 1 {
        e matches ImpactError::DidYouMean { method: m, class: c, actual_method: am, actual_class: ac }
            && m@ == method && c@ == class && am@ == matches[0].1 && ac@ == matches[0].0
    } else if matches.len() > 1 {
        e matches ImpactError::Candidates { method: m, class: c, candidates: cs } && m@ == method && c@
            == class && cs@.map_values(|x: String| x@) == matches.map_values(
            |p: (Seq<char>, Seq<char>)| p.0,
        )
    } else {
        e matches ImpactError::NotFound { method: m, class: c } && m@ == method && c@ == class
    }
}

/// The error for a target method missing from its class.
pub fn missing_target_error(class: &str, method: &str, matches: &Vec<(String, String)>) -> (r: ImpactError)
    ensures
        missing_target(r, class@, method@, keys_of(matches@)),
{
    if matches.len() == 1 {
        ImpactError::DidYouMean {
            method: String::from_str(method),
            class: String::from_str(class),
            actual_method: matches[0].1.clone(),
            actual_class: matches[0].0.clone(),
        }
    } else if matches.len() > 1 {
        let mut cs: Vec<String> = Vec::new();
        let mut i: usize = 0;
        while i < matches.len()
            invariant
                i <= matches@.len(),
                cs@.len() == i,
                forall|k: int| 0 <= k < i ==> (#[trigger] cs@[k])@ == matches@[k].0@,
            decreases matches.len() - i,
        {
            cs.push(matches[i].0.clone());
            i = i + 1;
        }
        assert(cs@.map_values(|x: String| x@) =~= keys_of(matches@).map_values(
            |p: (Seq<char>, Seq<char>)| p.0,
        ));
        ImpactError::Candidates { method: String::from_str(method), class: String::from_str(class), candidates: cs }
    } else {
        ImpactError::NotFound { method: String::from_str(method), class: String::from_str(class) }
    }
}

/// Whether the class `class` of `tg` has a method named `method`.
pub open spec fn target_exists(tg: TypeGraph, class: Seq<char>, method: Seq<char>) -> bool {
    match tg.lookup_class(class) {
        Some(c) => has_method_named(c.methods@, method),
        None => false,
    }
}

/// What `build_impact_graph` gives for `class.method`: when the class has
/// the method, the impact graph or the counting failure; otherwise the
/// error for a missing target.
pub open spec fn impact_outcome(
    tg: TypeGraph,
    cg: CallGraph,
    class: Seq<char>,
    method: Seq<char>,
    r: Result<ImpactGraph, ImpactError>,
) -> bool {
    if target_exists(tg, class, method) {
        match r {
            Ok(g) => impact_result(cg.calls@, (class, method), g),
            Err(e) => impact_failure(cg.calls@, (class, method), e),
        }
    } else {
        r matches Err(e) && missing_target(e, class, method, ci_matches(tg.classes@, class, method))
    }
}

/// The impact graph of `class.method`: first checks that the class has
/// the method (and reports a near match otherwise), then traces every
/// caller through the call graph.
pub fn build_impact_graph(tg: &TypeGraph, cg: &CallGraph, class: &str, method: &str) -> (r: Result<ImpactGraph, ImpactError>)
    ensures
        impact_outcome(*tg, *cg, class@, method@, r),
{
    let exists = match tg.get_class(class) {
        Some(c) => any_method_named(&c.methods, method),
        None => false,
    };
    if !exists {
        let matches = case_insensitive_matches(tg, class, method);
        return Err(missing_target_error(class, method, &matches));
    }
    impact_of(cg, class, method)
}

/// The text of an impact error.
pub open spec fn error_text(e: ImpactError) -> Seq<char> {
    match e {
        ImpactError::DidYouMean { method, class, actual_method, actual_class } => "Method '"@ + method@
            + "' not found in '"@ + class@ + "'. Did you mean '"@ + actual_method@ + "' in '"@
            + actual_class@ + "'?"@,
        ImpactError::Candidates { method, class, candidates } => "Method '"@ + method@
            + "' not found in '"@ + class@ + "'. Candidates: "@ + joined(string_views(candidates@), ", "@),
        ImpactError::NotFound { method, class } => "Method '"@ + method@ + "' not found in class '"@
            + class@ + "'"@,
        ImpactError::CountOverflow => "A transitive caller count does not fit in usize"@,
    }
}

impl ImpactError {
    /// The message for this error.
    pub fn message(&self) -> (r: String)
        ensures
            r@ == error_text(*self),
    {
        match self {
            ImpactError::DidYouMean { method, class, actual_method, actual_class } => {
                let mut m = String::from_str("Method '");
                m.append(method.as_str());
                m.append("' not found in '");
                m.append(class.as_str());
                m.append("'. Did you mean '");
                m.append(actual_method.as_str());
                m.append("' in '");
                m.append(actual_class.as_str());
                m.append("'?");
                m
            },
            ImpactError::Candidates { method, class, candidates } => {
                let mut m = String::from_str("Method '");
                m.append(method.as_str());
                m.append("' not found in '");
                m.append(class.as_str());
                m.append("'. Candidates: ");
                let list = join(candidates, ", ");
                m.append(list.as_str());
                m
            },
            ImpactError::NotFound { method, class } => {
                let mut m = String::from_str("Method '");
                m.append(method.as_str());
                m.append("' not found in class '");
                m.append(class.as_str());
                m.append("'");
                m
            },
            ImpactError::CountOverflow => String::from_str("A transitive caller count does not fit in usize"),
        }
    }
}

/// The DOT line of one node, filled with `fill`, with `extra` attributes.
pub open spec fn node_line(id: Seq<char>, transitive: nat, fill: Seq<char>, extra: Seq<char>) -> Seq<char> {
    "  \""@ + id + "\" [label=\""@ + replaced(id, '"', "'"@) + " (affects "@ + decimal(transitive)
        + " sites)\" style=filled fillcolor="@ + fill + extra + "];\n"@
}

/// The DOT line of one impact node: the target in red and wider.
pub open spec fn impact_node_line(id: Seq<char>, transitive: nat, is_target: bool) -> Seq<char> {
    if is_target {
        node_line(id, transitive, "lightcoral"@, " penwidth=2"@)
    } else {
        node_line(id, transitive, "lightblue"@, ""@)
    }
}

/// The DOT lines of the nodes, in order.
pub open spec fn impact_node_lines(ns: Seq<(String, (usize, usize))>, target: Seq<char>) -> Seq<char>
    decreases ns.len(),
{
    if ns.len() == 0 {
        Seq::empty()
    } else {
        impact_node_lines(ns.drop_last(), target) + impact_node_line(
            ns.last().0@,
            ns.last().1.1 as nat,
            ns.last().0@ == target,
        )
    }
}

/// The DOT lines of the edges, in order.
pub open spec fn edge_lines(es: Seq<(Seq<char>, Seq<char>)>) -> Seq<char>
    decreases es.len(),
{
    if es.len() == 0 {
        Seq::empty()
    } else {
        edge_lines(es.drop_last()) + "  \""@ + es.last().0 + "\" -> \""@ + es.last().1 + "\";\n"@
    }
}

/// The opening of a DOT graph named `name` with a title.
pub open spec fn dot_header(name: Seq<char>, title: Seq<char>) -> Seq<char> {
    "digraph "@ + name + " {\n  rankdir=BT;\n  node [shape=box style=rounded];\n\n"@ + "  label=\""@
        + title + "\";\n  labelloc=t;\n  fontsize=14;\n\n"@
}

/// The DOT text of an impact graph.
pub open spec fn impact_dot(ig: ImpactGraph, title: Seq<char>) -> Seq<char> {
    dot_header("Impact"@, title) + impact_node_lines(ig.nodes@, ig.target@) + "\n"@ + edge_lines(
        dedup_first(keys_of(ig.edges@)),
    ) + "}\n"@
}

/// Appends the DOT header.
pub fn push_dot_header(dot: &mut String, name: &str, title: &str)
    ensures
        final(dot)@ == old(dot)@ + dot_header(name@, title@),
{
    dot.append("digraph ");
    dot.append(name);
    dot.append(" {\n  rankdir=BT;\n  node [shape=box style=rounded];\n\n");
    dot.append("  label=\"");
    dot.append(title);
    dot.append("\";\n  labelloc=t;\n  fontsize=14;\n\n");
}

/// Appends the DOT line of one node.
pub fn push_node_line(dot: &mut String, id: &str, transitive: usize, fill: &str, extra: &str)
    ensures
        final(dot)@ == old(dot)@ + node_line(id@, transitive as nat, fill@, extra@),
{
    let label = replace_char(id, '"', "'");
    let count = decimal_string(transitive);
    let mut line = String::from_str("  \"");
    line.append(id);
    line.append("\" [label=\"");
    line.append(label.as_str());
    line.append(" (affects ");
    line.append(count.as_str());
    line.append(" sites)\" style=filled fillcolor=");
    line.append(fill);
    line.append(extra);
    line.append("];\n");
    dot.append(line.as_str());
}

/// Appends the edge lines of `edges` with repeats dropped.
pub fn push_edge_lines(dot: &mut String, edges: &Vec<(String, String)>)
    ensures
        final(dot)@ == old(dot)@ + edge_lines(dedup_first(keys_of(edges@))),
{
    let unique = dedup_edges(edges);
    let ghost d0 = dot@;
    let mut i: usize = 0;
    while i < unique.len()
        invariant
            i <= unique@.len(),
            dot@ == d0 + edge_lines(keys_of(unique@).subrange(0, i as int)),
        decreases unique.len() - i,
    {
        let ghost pre = keys_of(unique@).subrange(0, i + 1);
        assert(pre.drop_last() =~= keys_of(unique@).subrange(0, i as int));
        let mut line = String::from_str("  \"");
        line.append(unique[i].0.as_str());
        line.append("\" -> \"");
        line.append(unique[i].1.as_str());
        line.append("\";\n");
        let ghost before = dot@;
        dot.append(line.as_str());
        proof {
            assert(dot@ =~= d0 + (edge_lines(keys_of(unique@).subrange(0, i as int)) + line@));
        }
        i = i + 1;
    }
    assert(keys_of(unique@).subrange(0, unique@.len() as int) =~= keys_of(unique@));
}

/// Renders an impact graph as DOT: one box per method labelled with the
/// number of sites it affects (the target in red), then the edges.
pub fn impact_to_dot(ig: &ImpactGraph, title: &str) -> (r: String)
    requires
        ig.wf(),
    ensures
        r@ == impact_dot(*ig, title@),
{
    let mut dot = String::new();
    push_dot_header(&mut dot, "Impact", title);
    let ghost d0 = dot@;
    let mut i: usize = 0;
    while i < ig.nodes.len()
        invariant
            i <= ig.nodes@.len(),
            dot@ == d0 + impact_node_lines(ig.nodes@.subrange(0, i as int), ig.target@),
        decreases ig.nodes.len() - i,
    {
        let ghost pre = ig.nodes@.subrange(0, i + 1);
        assert(pre.drop_last() =~= ig.nodes@.subrange(0, i as int));
        let node_id = ig.nodes[i].0.as_str();
        let is_target = str_eq(node_id, ig.target.as_str());
        let ghost before = dot@;
        if is_target {
            push_node_line(&mut dot, node_id, ig.nodes[i].1.1, "lightcoral", " penwidth=2");
        } else {
            push_node_line(&mut dot, node_id, ig.nodes[i].1.1, "lightblue", "");
        }
        proof {
            let line = impact_node_line(node_id@, ig.nodes@[i as int].1.1 as nat, is_target);
            assert(dot@ =~= d0 + (impact_node_lines(ig.nodes@.subrange(0, i as int), ig.target@) + line));
        }
        i = i + 1;
    }
    assert(ig.nodes@.subrange(0, ig.nodes@.len() as int) =~= ig.nodes@);
    let ghost d1 = dot@;
    dot.append("\n");
    push_edge_lines(&mut dot, &ig.edges);
    dot.append("}\n");
    proof {
        assert(dot@ =~= impact_dot(*ig, title@));
    }
    dot
}

} // verus!
