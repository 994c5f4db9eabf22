//! Sorted sets of names in the character order of `str`.

use vstd::prelude::*;
use crate::text::{seq_lt, str_lt, str_eq, string_views, lemma_seq_lt_irreflexive, lemma_seq_lt_transitive,
    lemma_seq_lt_total, lemma_seq_lt_asymmetric};

verus! {

/// Strictly increasing in the character order.
pub open spec fn strictly_sorted(s: Seq<Seq<char>>) -> bool {
    forall|i: int, j: int| 0 <= i < j < s.len() ==> seq_lt(#[trigger] s[i], #[trigger] s[j])
}

/// `a` and `b` hold the same names.
pub open spec fn same_names(a: Seq<Seq<char>>, b: Seq<Seq<char>>) -> bool {
    forall|x: Seq<char>| #![trigger a.contains(x)] #![trigger b.contains(x)] a.contains(x) <==> b.contains(x)
}

/// The names of `s`, each once, in increasing order.
pub open spec fn sorted_set(s: Seq<Seq<char>>) -> Seq<Seq<char>> {
    choose|r: Seq<Seq<char>>| strictly_sorted(r) && same_names(r, s)
}

/// Two strictly sorted sequences holding the same names are equal: a set
/// of names has one sorted form.
pub proof fn lemma_sorted_unique(a: Seq<Seq<char>>, b: Seq<Seq<char>>)
    requires
        strictly_sorted(a),
        strictly_sorted(b),
        same_names(a, b),
    ensures
        a == b,
    decreases a.len(),
{
    if a.len() == 0 {
        if b.len() > 0 {
            assert(b.contains(b[0]));
        }
        assert(a =~= b);
    } else {
        assert(a.contains(a[0]));
        assert(b.len() > 0);
        assert(b.contains(b[0]));
        let j = choose|j: int| 0 <= j < b.len() && b[j] == a[0];
        let i = choose|i: int| 0 <= i < a.len() && a[i] == b[0];
        if j > 0 && i > 0 {
            assert(seq_lt(b[0], b[j]));
            assert(seq_lt(a[0], a[i]));
            lemma_seq_lt_asymmetric(b[0], a[0]);
        }
        assert(a[0] == b[0]);
        let ta = a.drop_first();
        let tb = b.drop_first();
        assert forall|x: Seq<char>| #[trigger] ta.contains(x) <==> tb.contains(x) by {
            if ta.contains(x) {
                let k = choose|k: int| 0 <= k < ta.len() && ta[k] == x;
                assert(a[k + 1] == x);
                assert(seq_lt(a[0], x));
                lemma_seq_lt_irreflexive(x);
                assert(a.contains(x));
                let m = choose|m: int| 0 <= m < b.len() && b[m] == x;
                assert(m != 0);
                assert(tb[m - 1] == x);
            }
            if tb.contains(x) {
                let k = choose|k: int| 0 <= k < tb.len() && tb[k] == x;
                assert(b[k + 1] == x);
                assert(seq_lt(b[0], x));
                lemma_seq_lt_irreflexive(x);
                assert(b.contains(x));
                let m = choose|m: int| 0 <= m < a.len() && a[m] == x;
                assert(m != 0);
                assert(ta[m - 1] == x);
            }
        }
        lemma_sorted_unique(ta, tb);
        assert(a =~= seq![a[0]] + ta);
        assert(b =~= seq![b[0]] + tb);
    }
}

/// A strictly sorted sequence with the names of `s` is their sorted set.
pub proof fn lemma_is_sorted_set(r: Seq<Seq<char>>, s: Seq<Seq<char>>)
    requires
        strictly_sorted(r),
        same_names(r, s),
    ensures
        sorted_set(s) == r,
{
    let q = sorted_set(s);
    assert(strictly_sorted(q) && same_names(q, s));
    assert forall|x: Seq<char>| #[trigger] q.contains(x) <==> r.contains(x) by {
        assert(q.contains(x) <==> s.contains(x));
        assert(r.contains(x) <==> s.contains(x));
    }
    lemma_sorted_unique(q, r);
}

/// The names of `names`, each once, in increasing order.
pub fn sorted_unique(names: &Vec<String>) -> (r: Vec<String>)
    ensures
        string_views(r@) == sorted_set(string_views(names@)),
        strictly_sorted(string_views(r@)),
        same_names(string_views(r@), string_views(names@)),
{
    let mut r: Vec<String> = Vec::new();
    let mut i: usize = 0;
    while i < names.len()
        invariant
            i <= names@.len(),
            strictly_sorted(string_views(r@)),
            same_names(string_views(r@), string_views(names@.subrange(0, i as int))),
        decreases names.len() - i,
    {
        let x = names[i].as_str();
        let ghost rv = string_views(r@);
        let ghost sub1 = string_views(names@.subrange(0, i + 1));
        assert(sub1 =~= string_views(names@.subrange(0, i as int)).push(x@));
        let mut p: usize = 0;
        while p < r.len() && str_lt(r[p].as_str(), x)
            invariant
                p <= r@.len(),
                rv == string_views(r@),
                forall|k: int| 0 <= k < p ==> seq_lt(#[trigger] rv[k], x@),
            decreases r.len() - p,
        {
            p = p + 1;
        }
        let present = p < r.len() && str_eq(r[p].as_str(), x);
        if !present {
            proof {
                if p < r@.len() {
                    assert(!seq_lt(rv[p as int], x@));
                    assert(rv[p as int] != x@);
                    lemma_seq_lt_total(rv[p as int], x@);
                }
            }
            r.insert(p, String::from_str(x));
            proof {
                let nv = string_views(r@);
                assert(nv =~= rv.insert(p as int, x@));
                assert forall|a: int, b: int| 0 <= a < b < nv.len() implies seq_lt(#[trigger] nv[a], #[trigger] nv[b]) by {
                    if a < p && b < p {
                        assert(nv[a] == rv[a] && nv[b] == rv[b]);
                    } else if a < p && b == p {
                        assert(nv[a] == rv[a]);
                    } else if a < p && b > p {
                        assert(nv[a] == rv[a] && nv[b] == rv[b - 1]);
                        if b - 1 > p {
                            assert(seq_lt(rv[p as int], rv[b - 1]));
                            lemma_seq_lt_transitive(x@, rv[p as int], rv[b - 1]);
                        }
                        lemma_seq_lt_transitive(rv[a], x@, rv[b - 1]);
                    } else if a == p {
                        assert(nv[b] == rv[b - 1]);
                        if b - 1 > p {
                            assert(seq_lt(rv[p as int], rv[b - 1]));
                            lemma_seq_lt_transitive(x@, rv[p as int], rv[b - 1]);
                        }
                    } else {
                        assert(nv[a] == rv[a - 1] && nv[b] == rv[b - 1]);
                    }
                }
                assert forall|y: Seq<char>| #[trigger] nv.contains(y) <==> sub1.contains(y) by {
                    let sub0 = string_views(names@.subrange(0, i as int));
                    if nv.contains(y) {
                        let k = choose|k: int| 0 <= k < nv.len() && nv[k] == y;
                        if k != p {
                            if k < p {
                                assert(rv[k] == y);
                            } else {
                                assert(rv[k - 1] == y);
                            }
                            assert(rv.contains(y));
                            assert(sub0.contains(y));
                            let m = choose|m: int| 0 <= m < sub0.len() && sub0[m] == y;
                            assert(sub1[m] == y);
                        } else {
                            assert(sub1[i as int] == y);
                        }
                    }
                    if sub1.contains(y) {
                        let k = choose|k: int| 0 <= k < sub1.len() && sub1[k] == y;
                        if k < i {
                            assert(string_views(names@.subrange(0, i as int))[k] == y);
                            assert(rv.contains(y));
                            let m = choose|m: int| 0 <= m < rv.len() && rv[m] == y;
                            if m < p {
                                assert(nv[m] == y);
                            } else {
                                assert(nv[m + 1] == y);
                            }
                        } else {
                            assert(nv[p as int] == y);
                        }
                    }
                }
            }
        } else {
            proof {
                assert forall|y: Seq<char>| #[trigger] rv.contains(y) <==> sub1.contains(y) by {
                    if sub1.contains(y) {
                        let k = choose|k: int| 0 <= k < sub1.len() && sub1[k] == y;
                        if k < i {
                            assert(string_views(names@.subrange(0, i as int))[k] == y);
                        } else {
                            assert(rv[p as int] == y);
                        }
                    }
                    if rv.contains(y) {
                        assert(string_views(names@.subrange(0, i as int)).contains(y));
                        let k = choose|k: int|
                            0 <= k < string_views(names@.subrange(0, i as int)).len() && string_views(
                                names@.subrange(0, i as int),
                            )[k] == y;
                        assert(sub1[k] == y);
                    }
                }
            }
        }
        i = i + 1;
    }
    assert(names@.subrange(0, names@.len() as int) =~= names@);
    proof {
        lemma_is_sorted_set(string_views(r@), string_views(names@));
    }
    r
}

} // verus!
