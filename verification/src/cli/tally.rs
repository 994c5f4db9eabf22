//! Counting names and ranking them by how often they occur.

use vstd::prelude::*;
use crate::text::{str_eq, string_views};

verus! {

/// The names of `s`, each once, in order of first appearance.
pub open spec fn distinct_names(s: Seq<Seq<char>>) -> Seq<Seq<char>>
    decreases s.len(),
{
    if s.len() == 0 {
        Seq::empty()
    } else {
        let d = distinct_names(s.drop_last());
        if d.contains(s.last()) {
            d
        } else {
            d.push(s.last())
        }
    }
}

/// How many times `n` occurs in `s`.
pub open spec fn count_of(s: Seq<Seq<char>>, n: Seq<char>) -> nat {
    s.filter(|x: Seq<char>| x == n).len()
}

/// Each name of `s` with the number of its occurrences, in order of first
/// appearance.
pub open spec fn tally(s: Seq<Seq<char>>) -> Seq<(Seq<char>, nat)> {
    distinct_names(s).map_values(|n: Seq<char>| (n, count_of(s, n)))
}

/// The entries of `es` whose count is `v`, then those with count `v - 1`,
/// and so on down to 1.
pub open spec fn count_groups(es: Seq<(Seq<char>, nat)>, v: nat) -> Seq<(Seq<char>, nat)>
    decreases v,
{
    if v == 0 {
        Seq::empty()
    } else {
        with_count(es, v) + count_groups(es, (v - 1) as nat)
    }
}

/// The entries of `es` whose count is `v`.
pub open spec fn with_count(es: Seq<(Seq<char>, nat)>, v: nat) -> Seq<(Seq<char>, nat)> {
    es.filter(|e: (Seq<char>, nat)| e.1 == v)
}

proof fn lemma_with_count_push(es: Seq<(Seq<char>, nat)>, x: (Seq<char>, nat), v: nat)
    ensures
        with_count(es.push(x), v) == if x.1 == v {
            with_count(es, v).push(x)
        } else {
            with_count(es, v)
        },
{
    reveal(Seq::filter);
    assert(es.push(x).drop_last() =~= es);
}

proof fn lemma_count_of_push(s: Seq<Seq<char>>, x: Seq<char>, n: Seq<char>)
    ensures
        count_of(s.push(x), n) == count_of(s, n) + if x == n {
            1nat
        } else {
            0nat
        },
{
    reveal(Seq::filter);
    assert(s.push(x).drop_last() =~= s);
}

/// The largest count in `es` (0 when empty).
pub open spec fn max_count(es: Seq<(Seq<char>, nat)>) -> nat
    decreases es.len(),
{
    if es.len() == 0 {
        0
    } else {
        let m = max_count(es.drop_last());
        if es.last().1 > m {
            es.last().1
        } else {
            m
        }
    }
}

/// The entries of `es` from the most to the least frequent; entries with
/// the same count keep their order.
pub open spec fn ranked(es: Seq<(Seq<char>, nat)>) -> Seq<(Seq<char>, nat)> {
    count_groups(es, max_count(es))
}

/// Counted names with their strings as characters.
pub open spec fn tally_views(v: Seq<(String, usize)>) -> Seq<(Seq<char>, nat)> {
    v.map_values(|e: (String, usize)| (e.0@, e.1 as nat))
}

proof fn lemma_max_count_bound(es: Seq<(Seq<char>, nat)>, k: int)
    requires
        0 <= k < es.len(),
    ensures
        es[k].1 <= max_count(es),
    decreases es.len(),
{
    if k < es.len() - 1 {
        lemma_max_count_bound(es.drop_last(), k);
    }
}

/// Counts each name of `names`, in order of first appearance.
pub fn tally_names(names: &Vec<String>) -> (r: Vec<(String, usize)>)
    ensures
        tally_views(r@) == tally(string_views(names@)),
{
    let mut r: Vec<(String, usize)> = Vec::new();
    let mut i: usize = 0;
    while i < names.len()
        invariant
            i <= names@.len(),
            tally_views(r@) == tally(string_views(names@.subrange(0, i as int))),
            forall|k: int| 0 <= k < r@.len() ==> (#[trigger] r@[k]).1 <= i,
        decreases names.len() - i,
    {
        let x = names[i].as_str();
        let ghost s0 = string_views(names@.subrange(0, i as int));
        let ghost s1 = string_views(names@.subrange(0, i + 1));
        assert(s1 =~= s0.push(x@));
        assert(s1.drop_last() == s0 && s1.last() == x@);
        let ghost d0 = distinct_names(s0);
        let ghost t0 = tally_views(r@);
        assert(t0 == d0.map_values(|n: Seq<char>| (n, count_of(s0, n))));
        assert forall|n: Seq<char>| #[trigger] count_of(s1, n) == count_of(s0, n) + if x@ == n { 1nat } else { 0nat } by {
            lemma_count_of_push(s0, x@, n);
        }
        let mut p: usize = 0;
        while p < r.len() && !str_eq(r[p].0.as_str(), x)
            invariant
                p <= r@.len(),
                t0 == tally_views(r@),
                forall|k: int| 0 <= k < p ==> (#[trigger] r@[k]).0@ != x@,
            decreases r.len() - p,
        {
            p = p + 1;
        }
        if p < r.len() {
            let c = r[p].1;
            assert(c <= i);
            assert(t0.len() == d0.len());
            assert(t0[p as int] == (d0[p as int], count_of(s0, d0[p as int])));
            assert(t0[p as int].0 == r@[p as int].0@);
            assert(d0[p as int] == x@);
            assert(d0.contains(x@));
            let name = r[p].0.clone();
            r.set(p, (name, c + 1));
            proof {
                assert(distinct_names(s1) == d0);
                lemma_distinct_names_unique(s0);
                let t1 = tally_views(r@);
                assert forall|k: int| 0 <= k < t1.len() implies #[trigger] t1[k] == tally(s1)[k] by {
                    assert(t0[k] == (d0[k], count_of(s0, d0[k])));
                    if k != p {
                        assert(d0[k] != d0[p as int]);
                    }
                }
                assert(tally_views(r@) =~= tally(s1));
            }
        } else {
            proof {
                if d0.contains(x@) {
                    let k = choose|k: int| 0 <= k < d0.len() && d0[k] == x@;
                    assert(t0.len() == d0.len());
                    assert(t0[k] == (d0[k], count_of(s0, d0[k])));
                    assert(t0[k].0 == r@[k].0@);
                }
                assert(!d0.contains(x@));
                assert(t0.len() == d0.len());
            }
            r.push((String::from_str(x), 1));
            proof {
                assert(distinct_names(s1) == d0.push(x@));
                assert(count_of(s0, x@) == 0) by {
                    if count_of(s0, x@) > 0 {
                        lemma_counted_is_distinct(s0, x@);
                    }
                }
                let t1 = tally_views(r@);
                assert forall|k: int| 0 <= k < t1.len() implies #[trigger] t1[k] == tally(s1)[k] by {
                    if k < d0.len() {
                        assert(t0[k] == (d0[k], count_of(s0, d0[k])));
                        assert(d0[k] != x@);
                        assert(count_of(s1, d0[k]) == count_of(s0, d0[k]));
                    } else {
                        assert(count_of(s1, x@) == count_of(s0, x@) + 1);
                    }
                }
                assert(tally_views(r@) =~= tally(s1));
            }
        }
        i = i + 1;
    }
    assert(names@.subrange(0, names@.len() as int) =~= names@);
    r
}

/// The distinct names of `s` hold no name twice.
proof fn lemma_distinct_names_unique(s: Seq<Seq<char>>)
    ensures
        forall|i: int, j: int|
            0 <= i < j < distinct_names(s).len() ==> #[trigger] distinct_names(s)[i] != #[trigger] distinct_names(s)[j],
    decreases s.len(),
{
    if s.len() > 0 {
        lemma_distinct_names_unique(s.drop_last());
        let d0 = distinct_names(s.drop_last());
        if !d0.contains(s.last()) {
            let d = distinct_names(s);
            assert forall|i: int, j: int| 0 <= i < j < d.len() implies #[trigger] d[i] != #[trigger] d[j] by {
                if j == d0.len() {
                    assert(d[i] == d0[i]);
                } else {
                    assert(d[i] == d0[i] && d[j] == d0[j]);
                }
            }
        }
    }
}

/// A name that occurs in `s` is among its distinct names.
proof fn lemma_counted_is_distinct(s: Seq<Seq<char>>, x: Seq<char>)
    requires
        count_of(s, x) > 0,
    ensures
        distinct_names(s).contains(x),
    decreases s.len(),
{
    if s.len() == 0 {
        reveal(Seq::filter);
    } else {
        let t = s.drop_last();
        assert(s =~= t.push(s.last()));
        lemma_count_of_push(t, s.last(), x);
        let d0 = distinct_names(t);
        if s.last() == x {
            if !d0.contains(x) {
                assert(distinct_names(s)[d0.len() as int] == x);
            }
        } else {
            lemma_counted_is_distinct(t, x);
            let k = choose|k: int| 0 <= k < d0.len() && d0[k] == x;
            if !d0.contains(s.last()) {
                assert(distinct_names(s)[k] == x);
            }
        }
    }
}

/// The entries of `es` from the most to the least frequent, entries with
/// the same count in their order in `es`.
pub fn rank_by_count(es: &Vec<(String, usize)>) -> (r: Vec<(String, usize)>)
    ensures
        tally_views(r@) == ranked(tally_views(es@)),
{
    let ghost ev = tally_views(es@);
    let mut top: usize = 0;
    let mut k: usize = 0;
    while k < es.len()
        invariant
            ev == tally_views(es@),
            k <= es@.len(),
            top == max_count(ev.subrange(0, k as int)),
        decreases es.len() - k,
    {
        let ghost pre = ev.subrange(0, k + 1);
        assert(pre.drop_last() =~= ev.subrange(0, k as int));
        if es[k].1 > top {
            top = es[k].1;
        }
        k = k + 1;
    }
    assert(ev.subrange(0, ev.len() as int) =~= ev);
    let mut r: Vec<(String, usize)> = Vec::new();
    let mut v: usize = top;
    assert(tally_views(r@) + count_groups(ev, v as nat) =~= ranked(ev));
    while v > 0
        invariant
            ev == tally_views(es@),
            v <= top,
            tally_views(r@) + count_groups(ev, v as nat) == ranked(ev),
        decreases v,
    {
        let ghost r0 = tally_views(r@);
        let mut j: usize = 0;
        while j < es.len()
            invariant
                ev == tally_views(es@),
                j <= es@.len(),
                v > 0,
                tally_views(r@) == r0 + with_count(ev.subrange(0, j as int), v as nat),
            decreases es.len() - j,
        {
            let ghost pre = ev.subrange(0, j + 1);
            assert(pre =~= ev.subrange(0, j as int).push(ev[j as int]));
            proof {
                lemma_with_count_push(ev.subrange(0, j as int), ev[j as int], v as nat);
            }
            if es[j].1 == v {
                let ghost before = tally_views(r@);
                r.push((es[j].0.clone(), es[j].1));
                assert(tally_views(r@) =~= before.push(ev[j as int]));
            }
            j = j + 1;
        }
        assert(ev.subrange(0, ev.len() as int) =~= ev);
        v = v - 1;
    }
    assert(tally_views(r@) =~= ranked(ev));
    r
}


proof fn lemma_with_count_members(es: Seq<(Seq<char>, nat)>, v: nat)
    ensures
        forall|i: int| 0 <= i < with_count(es, v).len() ==> (#[trigger] with_count(es, v)[i]).1 == v,
        forall|x: (Seq<char>, nat)| #[trigger] with_count(es, v).contains(x) <==> (es.contains(x) && x.1 == v),
    decreases es.len(),
{
    if es.len() == 0 {
        reveal(Seq::filter);
        assert(with_count(es, v) =~= Seq::<(Seq<char>, nat)>::empty());
    } else {
        let d = es.drop_last();
        let x0 = es.last();
        lemma_with_count_members(d, v);
        assert(d.push(x0) =~= es);
        lemma_with_count_push(d, x0, v);
        let w = with_count(es, v);
        let wd = with_count(d, v);
        assert forall|i: int| 0 <= i < w.len() implies (#[trigger] w[i]).1 == v by {
            if i < wd.len() {
                assert(w[i] == wd[i]);
            }
        }
        assert forall|x: (Seq<char>, nat)| #[trigger] w.contains(x) <==> (es.contains(x) && x.1 == v) by {
            if w.contains(x) {
                let i = choose|i: int| 0 <= i < w.len() && w[i] == x;
                if i < wd.len() {
                    assert(wd[i] == x);
                    assert(wd.contains(x));
                    let k = choose|k: int| 0 <= k < d.len() && d[k] == x;
                    assert(es[k] == x);
                } else {
                    assert(x == x0);
                    assert(es[es.len() - 1] == x);
                }
            }
            if es.contains(x) && x.1 == v {
                let k = choose|k: int| 0 <= k < es.len() && es[k] == x;
                if k < es.len() - 1 {
                    assert(d[k] == x);
                    assert(wd.contains(x));
                    let i = choose|i: int| 0 <= i < wd.len() && wd[i] == x;
                    assert(w[i] == x);
                } else {
                    assert(w[w.len() - 1] == x);
                }
            }
        }
    }
}

proof fn lemma_count_groups(es: Seq<(Seq<char>, nat)>, v: nat)
    ensures
        forall|i: int| 0 <= i < count_groups(es, v).len() ==> 1 <= (#[trigger] count_groups(es, v)[i]).1 <= v,
        forall|i: int, j: int|
            0 <= i < j < count_groups(es, v).len() ==> (#[trigger] count_groups(es, v)[i]).1 >= (
            #[trigger] count_groups(es, v)[j]).1,
        forall|x: (Seq<char>, nat)| #[trigger] count_groups(es, v).contains(x) <==> (es.contains(x) && 1 <= x.1 <= v),
    decreases v,
{
    if v > 0 {
        lemma_count_groups(es, (v - 1) as nat);
        lemma_with_count_members(es, v);
        let w = with_count(es, v);
        let rest = count_groups(es, (v - 1) as nat);
        let g = w + rest;
        assert forall|i: int| 0 <= i < g.len() implies 1 <= (#[trigger] g[i]).1 <= v by {
            if i < w.len() {
                assert(g[i] == w[i]);
            } else {
                assert(g[i] == rest[i - w.len()]);
            }
        }
        assert forall|i: int, j: int| 0 <= i < j < g.len() implies (#[trigger] g[i]).1 >= (#[trigger] g[j]).1 by {
            if j < w.len() {
                assert(g[i] == w[i] && g[j] == w[j]);
            } else if i < w.len() {
                assert(g[i] == w[i] && g[j] == rest[j - w.len()]);
            } else {
                assert(g[i] == rest[i - w.len()] && g[j] == rest[j - w.len()]);
            }
        }
        assert forall|x: (Seq<char>, nat)| #[trigger] g.contains(x) <==> (es.contains(x) && 1 <= x.1 <= v) by {
            if g.contains(x) {
                let i = choose|i: int| 0 <= i < g.len() && g[i] == x;
                if i < w.len() {
                    assert(g[i] == w[i]);
                    assert(w.contains(x));
                } else {
                    assert(g[i] == rest[i - w.len()]);
                    assert(rest.contains(x));
                }
            }
            if es.contains(x) && 1 <= x.1 <= v {
                if x.1 == v {
                    assert(w.contains(x));
                    let i = choose|i: int| 0 <= i < w.len() && w[i] == x;
                    assert(g[i] == x);
                } else {
                    assert(rest.contains(x));
                    let i = choose|i: int| 0 <= i < rest.len() && rest[i] == x;
                    assert(g[i + w.len()] == x);
                }
            }
        }
    }
}

/// Ranked entries come from the most to the least frequent, and they are
/// exactly the entries counted at least once.
pub proof fn law_ranked(es: Seq<(Seq<char>, nat)>)
    ensures
        forall|i: int, j: int| 0 <= i < j < ranked(es).len() ==> (#[trigger] ranked(es)[i]).1 >= (#[trigger] ranked(es)[j]).1,
        forall|x: (Seq<char>, nat)| #[trigger] ranked(es).contains(x) <==> (es.contains(x) && x.1 >= 1),
{
    lemma_count_groups(es, max_count(es));
    assert forall|x: (Seq<char>, nat)| #[trigger] ranked(es).contains(x) <==> (es.contains(x) && x.1 >= 1) by {
        if es.contains(x) {
            let k = choose|k: int| 0 <= k < es.len() && es[k] == x;
            lemma_max_count_bound(es, k);
        }
    }
}

} // verus!
