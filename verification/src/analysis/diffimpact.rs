//! Comparison of two versions of a project: which methods were added or
//! removed, whose callers changed, and the impact of a chosen change.

use vstd::prelude::*;
use crate::text::{str_eq, seq_lt, string_views, dotted, join_dot, lemma_seq_lt_irreflexive, lemma_seq_lt_transitive, lemma_seq_lt_total};
use crate::resolve::types::TypeGraph;
use crate::analysis::callgraph::{CallGraph, CallSite};
use crate::analysis::impact::{
    ImpactGraph, ImpactError, MethodKey, callee_key, caller_key, key_id, dedup_first, keys_of,
    build_impact_graph, impact_outcome, node_line, edge_lines, dot_header, push_dot_header,
    push_node_line, push_edge_lines,
};

verus! {

/// `k` is the caller or the callee of some call.
pub open spec fn key_in_calls(calls: Seq<CallSite>, k: MethodKey) -> bool {
    exists|i: int|
        0 <= i < calls.len() && (callee_key(#[trigger] calls[i]) == k || caller_key(calls[i]) == k)
}

/// Some method of `a` with id `id` is not a method of `b`.
pub open spec fn lost_key_with_id(a: Seq<CallSite>, b: Seq<CallSite>, id: Seq<char>) -> bool {
    exists|i: int|
        0 <= i < a.len() && ((key_id(callee_key(#[trigger] a[i])) == id && !key_in_calls(
            b,
            callee_key(a[i]),
        )) || (key_id(caller_key(a[i])) == id && !key_in_calls(b, caller_key(a[i]))))
}

/// The ids of the callers of the calls into the method with id `id`, in
/// call order, with repeats.
pub open spec fn callers_of(calls: Seq<CallSite>, id: Seq<char>) -> Seq<Seq<char>>
    decreases calls.len(),
{
    if calls.len() == 0 {
        Seq::empty()
    } else {
        let rest = callers_of(calls.drop_last(), id);
        if key_id(callee_key(calls.last())) == id {
            rest.push(key_id(caller_key(calls.last())))
        } else {
            rest
        }
    }
}

/// The elements of `a` that are not in `b`, in order.
pub open spec fn minus(a: Seq<Seq<char>>, b: Seq<Seq<char>>) -> Seq<Seq<char>>
    decreases a.len(),
{
    if a.len() == 0 {
        a
    } else {
        let m = minus(a.drop_last(), b);
        if b.contains(a.last()) {
            m
        } else {
            m.push(a.last())
        }
    }
}

/// The ids of the methods of the calls: callee then caller, call by call.
pub open spec fn key_ids(calls: Seq<CallSite>) -> Seq<Seq<char>>
    decreases calls.len(),
{
    if calls.len() == 0 {
        Seq::empty()
    } else {
        key_ids(calls.drop_last()).push(key_id(callee_key(calls.last()))).push(
            key_id(caller_key(calls.last())),
        )
    }
}

/// How a method changed between two versions.
#[derive(Debug)]
pub enum ChangeKind {
    Added,
    Removed,
    CallersChanged { removed_callers: Vec<String>, added_callers: Vec<String> },
}

/// A change, with the caller lists by their characters.
pub enum ChangeView {
    Added,
    Removed,
    CallersChanged(Seq<Seq<char>>, Seq<Seq<char>>),
}

impl View for ChangeKind {
    type V = ChangeView;

    open spec fn view(&self) -> ChangeView {
        match self {
            ChangeKind::Added => ChangeView::Added,
            ChangeKind::Removed => ChangeView::Removed,
            ChangeKind::CallersChanged { removed_callers, added_callers } => ChangeView::CallersChanged(
                string_views(removed_callers@),
                string_views(added_callers@),
            ),
        }
    }
}

/// The change of the method id `id` from the calls `c1` to the calls `c2`:
/// removed when one of its methods is gone, added when one is new, and
/// otherwise, for a method called in `c2`, the callers that went away and
/// those that came (each listed once) when there are any.
pub open spec fn change_of(c1: Seq<CallSite>, c2: Seq<CallSite>, id: Seq<char>) -> Option<ChangeView> {
    if lost_key_with_id(c1, c2, id) {
        Some(ChangeView::Removed)
    } else if lost_key_with_id(c2, c1, id) {
        Some(ChangeView::Added)
    } else {
        let before = callers_of(c1, id);
        let after = callers_of(c2, id);
        let removed = dedup_first(minus(before, after));
        let added = dedup_first(minus(after, before));
        if after.len() > 0 && (removed.len() > 0 || added.len() > 0) {
            Some(ChangeView::CallersChanged(removed, added))
        } else {
            None
        }
    }
}

/// Lists keyed by strings, ordered strictly by key.
pub open spec fn keys_sorted<V>(s: Seq<(String, V)>) -> bool {
    forall|i: int, j: int| 0 <= i < j < s.len() ==> seq_lt(#[trigger] s[i].0@, #[trigger] s[j].0@)
}

/// Some entry of `s` has key `k`.
pub open spec fn key_listed<V>(s: Seq<(String, V)>, k: Seq<char>) -> bool {
    exists|i: int| 0 <= i < s.len() && (#[trigger] s[i]).0@ == k
}

/// `ch` lists exactly the changed method ids, in order, each with its change.
pub open spec fn changes_match(ch: Seq<(String, ChangeKind)>, c1: Seq<CallSite>, c2: Seq<CallSite>) -> bool {
    &&& keys_sorted(ch)
    &&& forall|i: int| 0 <= i < ch.len() ==> change_of(c1, c2, (#[trigger] ch[i]).0@) == Some(ch[i].1@)
    &&& forall|id: Seq<char>| #[trigger] change_of(c1, c2, id) is Some ==> key_listed(ch, id)
}

/// Inserts `(key, val)` at its place in a list ordered by key that does
/// not hold `key`.
fn insert_sorted<V>(v: &mut Vec<(String, V)>, key: String, val: V) -> (p: usize)
    requires
        keys_sorted(old(v)@),
        !key_listed(old(v)@, key@),
    ensures
        p <= old(v)@.len(),
        final(v)@ == old(v)@.insert(p as int, (key, val)),
        keys_sorted(final(v)@),
{
    let ghost o = v@;
    let mut i: usize = 0;
    while i < v.len() && crate::text::str_lt(v[i].0.as_str(), key.as_str())
        invariant
            v@ == o,
            keys_sorted(o),
            i <= o.len(),
            forall|k: int| 0 <= k < i ==> seq_lt((#[trigger] o[k]).0@, key@),
        decreases v.len() - i,
    {
        i = i + 1;
    }
    proof {
        if i < o.len() {
            assert(o[i as int].0@ != key@);
            lemma_seq_lt_total(o[i as int].0@, key@);
        }
    }
    let ghost e = (key, val);
    v.insert(i, (key, val));
    proof {
        let n = v@;
        assert forall|a: int, b: int| 0 <= a < b < n.len() implies seq_lt(#[trigger] n[a].0@, #[trigger] n[b].0@) by {
            if b < i {
                assert(n[a] == o[a] && n[b] == o[b]);
            } else if b == i {
                assert(n[a] == o[a]);
            } else if a < i {
                assert(n[a] == o[a] && n[b] == o[b - 1]);
                assert(seq_lt(o[a].0@, e.0@));
                if b - 1 > i {
                    assert(seq_lt(o[i as int].0@, o[b - 1].0@));
                    lemma_seq_lt_transitive(e.0@, o[i as int].0@, o[b - 1].0@);
                }
                lemma_seq_lt_transitive(o[a].0@, e.0@, o[b - 1].0@);
            } else if a == i {
                assert(n[b] == o[b - 1]);
                if b - 1 > i {
                    assert(seq_lt(o[i as int].0@, o[b - 1].0@));
                    lemma_seq_lt_transitive(e.0@, o[i as int].0@, o[b - 1].0@);
                }
            } else {
                assert(n[a] == o[a - 1] && n[b] == o[b - 1]);
            }
        }
    }
    i
}

/// Whether some entry of `v` has key `k`.
fn has_entry<V>(v: &Vec<(String, V)>, k: &str) -> (r: bool)
    ensures
        r == key_listed(v@, k@),
{
    let mut i: usize = 0;
    while i < v.len()
        invariant
            i <= v@.len(),
            forall|j: int| 0 <= j < i ==> (#[trigger] v@[j]).0@ != k@,
        decreases v.len() - i,
    {
        if str_eq(v[i].0.as_str(), k) {
            return true;
        }
        i = i + 1;
    }
    false
}

/// Whether `(class, method)` is the caller or the callee of a call.
fn key_in(calls: &Vec<CallSite>, class: &str, method: &str) -> (r: bool)
    ensures
        r == key_in_calls(calls@, (class@, method@)),
{
    let mut i: usize = 0;
    while i < calls.len()
        invariant
            i <= calls@.len(),
            forall|j: int|
                0 <= j < i ==> callee_key(#[trigger] calls@[j]) != (class@, method@) && caller_key(calls@[j])
                    != (class@, method@),
        decreases calls.len() - i,
    {
        let c = &calls[i];
        if (str_eq(c.callee_class.as_str(), class) && str_eq(c.callee.as_str(), method)) || (str_eq(
            c.caller_class.as_str(),
            class,
        ) && str_eq(c.caller_method.as_str(), method)) {
            return true;
        }
        i = i + 1;
    }
    false
}

/// Whether some method of `a` with id `id` is missing from `b`.
fn lost_key(a: &Vec<CallSite>, b: &Vec<CallSite>, id: &str) -> (r: bool)
    ensures
        r == lost_key_with_id(a@, b@, id@),
{
    let mut i: usize = 0;
    while i < a.len()
        invariant
            i <= a@.len(),
            forall|j: int|
                0 <= j < i ==> !((key_id(callee_key(#[trigger] a@[j])) == id@ && !key_in_calls(
                    b@,
                    callee_key(a@[j]),
                )) || (key_id(caller_key(a@[j])) == id@ && !key_in_calls(b@, caller_key(a@[j])))),
        decreases a.len() - i,
    {
        let c = &a[i];
        let callee_id = join_dot(c.callee_class.as_str(), c.callee.as_str());
        if str_eq(callee_id.as_str(), id) && !key_in(b, c.callee_class.as_str(), c.callee.as_str()) {
            return true;
        }
        let caller_id = join_dot(c.caller_class.as_str(), c.caller_method.as_str());
        if str_eq(caller_id.as_str(), id) && !key_in(b, c.caller_class.as_str(), c.caller_method.as_str()) {
            return true;
        }
        i = i + 1;
    }
    false
}

/// The caller ids of the calls into `id`.
fn callers_of_exec(calls: &Vec<CallSite>, id: &str) -> (r: Vec<String>)
    ensures
        string_views(r@) == callers_of(calls@, id@),
{
    let mut r: Vec<String> = Vec::new();
    let mut i: usize = 0;
    while i < calls.len()
        invariant
            i <= calls@.len(),
            string_views(r@) == callers_of(calls@.subrange(0, i as int), id@),
        decreases calls.len() - i,
    {
        let ghost pre = calls@.subrange(0, i + 1);
        assert(pre.drop_last() =~= calls@.subrange(0, i as int));
        let c = &calls[i];
        let callee_id = join_dot(c.callee_class.as_str(), c.callee.as_str());
        if str_eq(callee_id.as_str(), id) {
            let ghost r0 = r@;
            r.push(join_dot(c.caller_class.as_str(), c.caller_method.as_str()));
            assert(string_views(r@) =~= string_views(r0).push(r@[r@.len() - 1]@));
        }
        i = i + 1;
    }
    assert(calls@.subrange(0, calls@.len() as int) =~= calls@);
    r
}

/// Whether `name` is among the strings of `v`.
fn contains_name(v: &Vec<String>, name: &str) -> (r: bool)
    ensures
        r == string_views(v@).contains(name@),
{
    let mut i: usize = 0;
    while i < v.len()
        invariant
            i <= v@.len(),
            forall|j: int| 0 <= j < i ==> (#[trigger] v@[j])@ != name@,
        decreases v.len() - i,
    {
        if str_eq(v[i].as_str(), name) {
            assert(string_views(v@)[i as int] == name@);
            return true;
        }
        i = i + 1;
    }
    proof {
        if string_views(v@).contains(name@) {
            let j = choose|j: int| 0 <= j < string_views(v@).len() && string_views(v@)[j] == name@;
            assert(v@[j]@ == name@);
        }
    }
    false
}

/// The strings of `a` that are not in `b`, each once, in order.
fn minus_dedup(a: &Vec<String>, b: &Vec<String>) -> (r: Vec<String>)
    ensures
        string_views(r@) == dedup_first(minus(string_views(a@), string_views(b@))),
{
    let mut m: Vec<String> = Vec::new();
    let mut i: usize = 0;
    while i < a.len()
        invariant
            i <= a@.len(),
            string_views(m@) == minus(string_views(a@).subrange(0, i as int), string_views(b@)),
        decreases a.len() - i,
    {
        let ghost pre = string_views(a@).subrange(0, i + 1);
        assert(pre.drop_last() =~= string_views(a@).subrange(0, i as int));
        if !contains_name(b, a[i].as_str()) {
            let ghost m0 = m@;
            m.push(a[i].clone());
            assert(string_views(m@) =~= string_views(m0).push(a@[i as int]@));
        }
        i = i + 1;
    }
    assert(string_views(a@).subrange(0, a@.len() as int) =~= string_views(a@));
    let mut d: Vec<String> = Vec::new();
    let mut j: usize = 0;
    while j < m.len()
        invariant
            j <= m@.len(),
            string_views(d@) == dedup_first(string_views(m@).subrange(0, j as int)),
        decreases m.len() - j,
    {
        let ghost pre = string_views(m@).subrange(0, j + 1);
        assert(pre.drop_last() =~= string_views(m@).subrange(0, j as int));
        if !contains_name(&d, m[j].as_str()) {
            let ghost d0 = d@;
            d.push(m[j].clone());
            assert(string_views(d@) =~= string_views(d0).push(m@[j as int]@));
        }
        j = j + 1;
    }
    assert(string_views(m@).subrange(0, m@.len() as int) =~= string_views(m@));
    d
}

/// The change of the method id `id` between the two call lists.
pub fn change_kind(c1: &Vec<CallSite>, c2: &Vec<CallSite>, id: &str) -> (r: Option<ChangeKind>)
    ensures
        match r {
            Some(k) => change_of(c1@, c2@, id@) == Some(k@),
            None => change_of(c1@, c2@, id@) is None,
        },
{
    if lost_key(c1, c2, id) {
        return Some(ChangeKind::Removed);
    }
    if lost_key(c2, c1, id) {
        return Some(ChangeKind::Added);
    }
    let before = callers_of_exec(c1, id);
    let after = callers_of_exec(c2, id);
    let removed = minus_dedup(&before, &after);
    let added = minus_dedup(&after, &before);
    if after.len() > 0 && (removed.len() > 0 || added.len() > 0) {
        Some(ChangeKind::CallersChanged { removed_callers: removed, added_callers: added })
    } else {
        None
    }
}

/// Adds the change of `id` to `ch` unless it is listed already or `id` did
/// not change.
fn note_change(ch: &mut Vec<(String, ChangeKind)>, c1: &Vec<CallSite>, c2: &Vec<CallSite>, id: String)
    requires
        keys_sorted(old(ch)@),
        forall|i: int| 0 <= i < old(ch)@.len() ==> change_of(c1@, c2@, (#[trigger] old(ch)@[i]).0@) == Some(
            old(ch)@[i].1@,
        ),
    ensures
        keys_sorted(final(ch)@),
        forall|i: int| 0 <= i < final(ch)@.len() ==> change_of(c1@, c2@, (#[trigger] final(ch)@[i]).0@) == Some(
            final(ch)@[i].1@,
        ),
        forall|k: Seq<char>| key_listed(old(ch)@, k) ==> #[trigger] key_listed(final(ch)@, k),
        change_of(c1@, c2@, id@) is Some ==> key_listed(final(ch)@, id@),
{
    if has_entry(ch, id.as_str()) {
        return;
    }
    match change_kind(c1, c2, id.as_str()) {
        Some(k) => {
            let ghost o = ch@;
            let ghost idv = id@;
            let p = insert_sorted(ch, id, k);
            proof {
                assert(ch@[p as int].0@ == idv);
                assert forall|k: Seq<char>| key_listed(o, k) implies #[trigger] key_listed(ch@, k) by {
                    let i = choose|i: int| 0 <= i < o.len() && (#[trigger] o[i]).0@ == k;
                    if i < p {
                        assert(ch@[i] == o[i]);
                    } else {
                        assert(ch@[i + 1] == o[i]);
                    }
                }
                assert forall|i: int| 0 <= i < ch@.len() implies change_of(c1@, c2@, (#[trigger] ch@[i]).0@)
                    == Some(ch@[i].1@) by {
                    if i < p {
                        assert(ch@[i] == o[i]);
                    } else if i > p {
                        assert(ch@[i] == o[i - 1]);
                    }
                }
            }
        },
        None => {},
    }
}

proof fn lemma_change_has_key(c1: Seq<CallSite>, c2: Seq<CallSite>, id: Seq<char>)
    requires
        change_of(c1, c2, id) is Some,
    ensures
        (exists|i: int|
            0 <= i < c1.len() && (key_id(callee_key(#[trigger] c1[i])) == id || key_id(caller_key(c1[i]))
                == id)) || (exists|i: int|
            0 <= i < c2.len() && (key_id(callee_key(#[trigger] c2[i])) == id || key_id(caller_key(c2[i]))
                == id)),
{
    if !lost_key_with_id(c1, c2, id) && !lost_key_with_id(c2, c1, id) {
        lemma_callers_of_nonempty(c2, id);
    }
}

proof fn lemma_callers_of_nonempty(calls: Seq<CallSite>, id: Seq<char>)
    requires
        callers_of(calls, id).len() > 0,
    ensures
        exists|i: int| 0 <= i < calls.len() && key_id(callee_key(#[trigger] calls[i])) == id,
    decreases calls.len(),
{
    if key_id(callee_key(calls.last())) != id {
        lemma_callers_of_nonempty(calls.drop_last(), id);
        let i = choose|i: int| 0 <= i < calls.drop_last().len() && key_id(callee_key(#[trigger] calls.drop_last()[i])) == id;
        assert(calls[i] == calls.drop_last()[i]);
    } else {
        assert(key_id(callee_key(calls[calls.len() - 1])) == id);
    }
}

/// When `id` changed, `ch` lists it.
pub open spec fn noted(ch: Seq<(String, ChangeKind)>, c1: Seq<CallSite>, c2: Seq<CallSite>, id: Seq<char>) -> bool {
    change_of(c1, c2, id) is Some ==> key_listed(ch, id)
}

/// Both methods of the call `c` are noted when changed.
pub open spec fn call_noted(ch: Seq<(String, ChangeKind)>, c1: Seq<CallSite>, c2: Seq<CallSite>, c: CallSite) -> bool {
    noted(ch, c1, c2, key_id(callee_key(c))) && noted(ch, c1, c2, key_id(caller_key(c)))
}

/// Every entry of `ch` is a change with its kind.
pub open spec fn entries_right(ch: Seq<(String, ChangeKind)>, c1: Seq<CallSite>, c2: Seq<CallSite>) -> bool {
    &&& keys_sorted(ch)
    &&& forall|k: int| 0 <= k < ch.len() ==> change_of(c1, c2, (#[trigger] ch[k]).0@) == Some(ch[k].1@)
}

/// Notes the changes of both methods of `c`.
fn note_call(ch: &mut Vec<(String, ChangeKind)>, c1: &Vec<CallSite>, c2: &Vec<CallSite>, c: &CallSite)
    requires
        entries_right(old(ch)@, c1@, c2@),
    ensures
        entries_right(final(ch)@, c1@, c2@),
        forall|k: Seq<char>| key_listed(old(ch)@, k) ==> #[trigger] key_listed(final(ch)@, k),
        call_noted(final(ch)@, c1@, c2@, *c),
{
    let ghost o = ch@;
    note_change(ch, c1, c2, join_dot(c.callee_class.as_str(), c.callee.as_str()));
    note_change(ch, c1, c2, join_dot(c.caller_class.as_str(), c.caller_method.as_str()));
}

/// Every changed method id between the two call lists, in id order, with
/// its change.
pub fn collect_changes(c1: &Vec<CallSite>, c2: &Vec<CallSite>) -> (r: Vec<(String, ChangeKind)>)
    ensures
        changes_match(r@, c1@, c2@),
{
    let mut ch: Vec<(String, ChangeKind)> = Vec::new();
    let mut i: usize = 0;
    while i < c1.len()
        invariant
            i <= c1@.len(),
            entries_right(ch@, c1@, c2@),
            forall|j: int| 0 <= j < i ==> #[trigger] call_noted(ch@, c1@, c2@, c1@[j]),
        decreases c1.len() - i,
    {
        let ghost o = ch@;
        note_call(&mut ch, c1, c2, &c1[i]);
        proof {
            assert forall|j: int| 0 <= j < i + 1 implies #[trigger] call_noted(ch@, c1@, c2@, c1@[j]) by {
                if j < i {
                    assert(call_noted(o, c1@, c2@, c1@[j]));
                    if change_of(c1@, c2@, key_id(callee_key(c1@[j]))) is Some {
                        assert(key_listed(o, key_id(callee_key(c1@[j]))));
                    }
                    if change_of(c1@, c2@, key_id(caller_key(c1@[j]))) is Some {
                        assert(key_listed(o, key_id(caller_key(c1@[j]))));
                    }
                }
            }
        }
        i = i + 1;
    }
    let mut i: usize = 0;
    while i < c2.len()
        invariant
            i <= c2@.len(),
            entries_right(ch@, c1@, c2@),
            forall|j: int| 0 <= j < c1@.len() ==> #[trigger] call_noted(ch@, c1@, c2@, c1@[j]),
            forall|j: int| 0 <= j < i ==> #[trigger] call_noted(ch@, c1@, c2@, c2@[j]),
        decreases c2.len() - i,
    {
        let ghost o = ch@;
        note_call(&mut ch, c1, c2, &c2[i]);
        proof {
            assert forall|j: int| 0 <= j < c1@.len() implies #[trigger] call_noted(ch@, c1@, c2@, c1@[j]) by {
                assert(call_noted(o, c1@, c2@, c1@[j]));
                if change_of(c1@, c2@, key_id(callee_key(c1@[j]))) is Some {
                    assert(key_listed(o, key_id(callee_key(c1@[j]))));
                }
                if change_of(c1@, c2@, key_id(caller_key(c1@[j]))) is Some {
                    assert(key_listed(o, key_id(caller_key(c1@[j]))));
                }
            }
            assert forall|j: int| 0 <= j < i + 1 implies #[trigger] call_noted(ch@, c1@, c2@, c2@[j]) by {
                if j < i {
                    assert(call_noted(o, c1@, c2@, c2@[j]));
                    if change_of(c1@, c2@, key_id(callee_key(c2@[j]))) is Some {
                        assert(key_listed(o, key_id(callee_key(c2@[j]))));
                    }
                    if change_of(c1@, c2@, key_id(caller_key(c2@[j]))) is Some {
                        assert(key_listed(o, key_id(caller_key(c2@[j]))));
                    }
                }
            }
        }
        i = i + 1;
    }
    proof {
        assert forall|id: Seq<char>| #[trigger] change_of(c1@, c2@, id) is Some implies key_listed(ch@, id) by {
            lemma_change_has_key(c1@, c2@, id);
            if exists|i: int|
                0 <= i < c1@.len() && (key_id(callee_key(#[trigger] c1@[i])) == id || key_id(
                    caller_key(c1@[i]),
                ) == id) {
                let i = choose|i: int|
                    0 <= i < c1@.len() && (key_id(callee_key(#[trigger] c1@[i])) == id || key_id(
                        caller_key(c1@[i]),
                    ) == id);
                assert(call_noted(ch@, c1@, c2@, c1@[i]));
            } else {
                let i = choose|i: int|
                    0 <= i < c2@.len() && (key_id(callee_key(#[trigger] c2@[i])) == id || key_id(
                        caller_key(c2@[i]),
                    ) == id);
                assert(call_noted(ch@, c1@, c2@, c2@[i]));
            }
        }
    }
    ch
}

/// The method ids of the calls, each once, in order.
pub fn method_ids(calls: &Vec<CallSite>) -> (r: Vec<String>)
    ensures
        string_views(r@) == dedup_first(key_ids(calls@)),
{
    let mut r: Vec<String> = Vec::new();
    let mut i: usize = 0;
    while i < calls.len()
        invariant
            i <= calls@.len(),
            string_views(r@) == dedup_first(key_ids(calls@.subrange(0, i as int))),
        decreases calls.len() - i,
    {
        let ghost pre = calls@.subrange(0, i + 1);
        assert(pre.drop_last() =~= calls@.subrange(0, i as int));
        let ghost k0 = key_ids(calls@.subrange(0, i as int));
        let ghost a = key_id(callee_key(calls@[i as int]));
        let ghost b = key_id(caller_key(calls@[i as int]));
        assert(key_ids(pre) == k0.push(a).push(b));
        assert(k0.push(a).push(b).drop_last() == k0.push(a));
        assert(k0.push(a).drop_last() == k0);
        let callee_id = join_dot(calls[i].callee_class.as_str(), calls[i].callee.as_str());
        if !contains_name(&r, callee_id.as_str()) {
            let ghost r0 = r@;
            r.push(callee_id);
            assert(string_views(r@) =~= string_views(r0).push(a));
        }
        assert(string_views(r@) == dedup_first(k0.push(a)));
        let caller_id = join_dot(calls[i].caller_class.as_str(), calls[i].caller_method.as_str());
        if !contains_name(&r, caller_id.as_str()) {
            let ghost r0 = r@;
            r.push(caller_id);
            assert(string_views(r@) =~= string_views(r0).push(b));
        }
        assert(string_views(r@) == dedup_first(k0.push(a).push(b)));
        i = i + 1;
    }
    assert(calls@.subrange(0, calls@.len() as int) =~= calls@);
    r
}

/// `p` is the position of the first `.` in `s`.
pub open spec fn dot_at(s: Seq<char>, p: int) -> bool {
    0 <= p < s.len() && s[p] == '.' && forall|q: int| 0 <= q < p ==> s[q] != '.'
}

/// `s` holds a `.`.
pub open spec fn has_dot(s: Seq<char>) -> bool {
    exists|p: int| 0 <= p < s.len() && s[p] == '.'
}

/// Splits `s` at its first `.`.
pub fn split_once_dot(s: &str) -> (r: Option<(String, String)>)
    ensures
        match r {
            Some(parts) => exists|p: int|
                dot_at(s@, p) && parts.0@ == s@.subrange(0, p) && parts.1@ == s@.subrange(p + 1, s@.len() as int),
            None => !has_dot(s@),
        },
{
    let n = s.unicode_len();
    let mut i: usize = 0;
    while i < n
        invariant
            n == s@.len(),
            i <= n,
            forall|q: int| 0 <= q < i ==> s@[q] != '.',
        decreases n - i,
    {
        if s.get_char(i) == '.' {
            let a = String::from_str(s.substring_char(0, i));
            let b = String::from_str(s.substring_char(i + 1, n));
            assert(dot_at(s@, i as int));
            return Some((a, b));
        }
        i = i + 1;
    }
    None
}

/// `i` is the first change whose id is a method of the new version and
/// holds a `.`.
pub open spec fn first_changed_in(ch: Seq<(String, ChangeKind)>, v2: Seq<Seq<char>>, i: int) -> bool {
    &&& 0 <= i < ch.len()
    &&& v2.contains(ch[i].0@) && has_dot(ch[i].0@)
    &&& forall|k: int| 0 <= k < i ==> !(v2.contains((#[trigger] ch[k]).0@) && has_dot(ch[k].0@))
}

/// The impact to show for a comparison: that of the target when it changed
/// or is a method of the new version, else that of the first changed method
/// of the new version (split at its first `.`), else an empty graph.
pub open spec fn impact_choice(
    tg: TypeGraph,
    cg2: CallGraph,
    class: Seq<char>,
    method: Seq<char>,
    ch: Seq<(String, ChangeKind)>,
    v2: Seq<Seq<char>>,
    r: Result<ImpactGraph, ImpactError>,
) -> bool {
    let target = dotted(class, method);
    if key_listed(ch, target) || v2.contains(target) {
        impact_outcome(tg, cg2, class, method, r)
    } else if exists|i: int| first_changed_in(ch, v2, i) {
        let i = choose|i: int| first_changed_in(ch, v2, i);
        let id = ch[i].0@;
        let p = choose|p: int| dot_at(id, p);
        impact_outcome(tg, cg2, id.subrange(0, p), id.subrange(p + 1, id.len() as int), r)
    } else {
        r matches Ok(g) && g.nodes@.len() == 0 && g.edges@.len() == 0 && g.target@.len() == 0
    }
}

/// Result of a comparison of two versions.
pub struct DiffImpactResult {
    /// The changed methods by id, in id order, with their changes
    pub changes: Vec<(String, ChangeKind)>,
    /// The impact (in the new version) of the target or of a changed method
    pub impact: ImpactGraph,
    /// The method ids of the new version, each once
    pub v2_methods: Vec<String>,
}

impl DiffImpactResult {
    /// The changes are in increasing order of id, so each id occurs once
    /// (as the keys of an ordered map), and so are the impact's nodes.
    pub open spec fn wf(self) -> bool {
        keys_sorted(self.changes@) && self.impact.wf()
    }
}

/// The first position of a `.` in `s` is unique.
proof fn lemma_dot_at_unique(s: Seq<char>, p: int, q: int)
    requires
        dot_at(s, p),
        dot_at(s, q),
    ensures
        p == q,
{
}

/// The first changed method of the new version, split at its first `.`.
fn first_changed_split(changes: &Vec<(String, ChangeKind)>, v2: &Vec<String>) -> (r: Option<(String, String)>)
    ensures
        match r {
            Some(parts) => (exists|i: int| first_changed_in(changes@, string_views(v2@), i)) && {
                let i = choose|i: int| first_changed_in(changes@, string_views(v2@), i);
                let id = changes@[i].0@;
                let p = choose|p: int| dot_at(id, p);
                parts.0@ == id.subrange(0, p) && parts.1@ == id.subrange(p + 1, id.len() as int)
            },
            None => !exists|i: int| first_changed_in(changes@, string_views(v2@), i),
        },
{
    let ghost v2v = string_views(v2@);
    let mut i: usize = 0;
    while i < changes.len()
        invariant
            i <= changes@.len(),
            v2v == string_views(v2@),
            forall|k: int| 0 <= k < i ==> !(v2v.contains((#[trigger] changes@[k]).0@) && has_dot(
                changes@[k].0@,
            )),
        decreases changes.len() - i,
    {
        if contains_name(v2, changes[i].0.as_str()) {
            match split_once_dot(changes[i].0.as_str()) {
                Some(parts) => {
                    proof {
                        let id = changes@[i as int].0@;
                        let p = choose|p: int| dot_at(id, p) && parts.0@ == id.subrange(0, p) && parts.1@
                            == id.subrange(p + 1, id.len() as int);
                        assert(has_dot(id));
                        assert(first_changed_in(changes@, v2v, i as int));
                        let j = choose|j: int| first_changed_in(changes@, v2v, j);
                        if j < i {
                            assert(!(v2v.contains(changes@[j].0@) && has_dot(changes@[j].0@)));
                        } else if j > i {
                            assert(!(v2v.contains(changes@[i as int].0@) && has_dot(changes@[i as int].0@)));
                        }
                        let q = choose|q: int| dot_at(id, q);
                        lemma_dot_at_unique(id, p, q);
                    }
                    return Some(parts);
                },
                None => {},
            }
        }
        i = i + 1;
    }
    proof {
        if exists|j: int| first_changed_in(changes@, v2v, j) {
            let j = choose|j: int| first_changed_in(changes@, v2v, j);
            assert(!(v2v.contains(changes@[j].0@) && has_dot(changes@[j].0@)));
        }
    }
    None
}

/// Compares the calls of two versions of a project (`cg1` before, `cg2`
/// after): finds the changed methods, and traces in the new version the
/// callers of the target method (or of the first changed method).
pub fn build_diff_impact(
    tg2: &TypeGraph,
    cg1: &CallGraph,
    cg2: &CallGraph,
    target_class: &str,
    target_method: &str,
) -> (r: Result<DiffImpactResult, ImpactError>)
    ensures
        match r {
            Ok(res) => res.wf() && changes_match(res.changes@, cg1.calls@, cg2.calls@) && string_views(res.v2_methods@)
                == dedup_first(key_ids(cg2.calls@)) && impact_choice(
                *tg2,
                *cg2,
                target_class@,
                target_method@,
                res.changes@,
                string_views(res.v2_methods@),
                Ok(res.impact),
            ),
            Err(e) => exists|ch: Seq<(String, ChangeKind)>|
                #[trigger] changes_match(ch, cg1.calls@, cg2.calls@) && impact_choice(
                    *tg2,
                    *cg2,
                    target_class@,
                    target_method@,
                    ch,
                    dedup_first(key_ids(cg2.calls@)),
                    Err(e),
                ),
        },
{
    let changes = collect_changes(&cg1.calls, &cg2.calls);
    let v2 = method_ids(&cg2.calls);
    let target_key = join_dot(target_class, target_method);
    let has_target = has_entry(&changes, target_key.as_str()) || contains_name(&v2, target_key.as_str());
    let ghost v2v = string_views(v2@);
    let impact = if has_target {
        build_impact_graph(tg2, cg2, target_class, target_method)
    } else {
        match first_changed_split(&changes, &v2) {
            Some(parts) => build_impact_graph(tg2, cg2, parts.0.as_str(), parts.1.as_str()),
            None => Ok(
                ImpactGraph {
                    nodes: Vec::new(),
                    edges: Vec::new(),
                    target: String::new(),
                    reached: Ghost(Seq::empty()),
                    all_edges: Ghost(Seq::empty()),
                },
            ),
        }
    };
    match impact {
        Ok(g) => Ok(DiffImpactResult { changes, impact: g, v2_methods: v2 }),
        Err(e) => Err(e),
    }
}

/// The label of a change.
pub open spec fn change_label(k: ChangeView) -> Seq<char> {
    match k {
        ChangeView::Added => "ADDED"@,
        ChangeView::Removed => "REMOVED"@,
        ChangeView::CallersChanged(_, _) => "CALLERS CHANGED"@,
    }
}

/// The fill colour of a change.
pub open spec fn change_fill(k: ChangeView) -> Seq<char> {
    match k {
        ChangeView::Added => "lightgreen"@,
        ChangeView::Removed => "lightcoral"@,
        ChangeView::CallersChanged(_, _) => "lightyellow"@,
    }
}

/// The DOT line of one change: a box labelled with the id and the kind.
pub open spec fn change_line(key: Seq<char>, k: ChangeView) -> Seq<char> {
    "  \""@ + key + "\" [label=\""@ + key + "\\n"@ + change_label(k) + "\" style=filled fillcolor="@
        + change_fill(k) + "];\n"@
}

/// The DOT lines of the changes.
pub open spec fn change_lines(ch: Seq<(String, ChangeKind)>) -> Seq<char>
    decreases ch.len(),
{
    if ch.len() == 0 {
        Seq::empty()
    } else {
        change_lines(ch.drop_last()) + change_line(ch.last().0@, ch.last().1@)
    }
}

/// Appends the DOT line of one change.
fn push_change_line(dot: &mut String, key: &str, k: &ChangeKind)
    ensures
        final(dot)@ == old(dot)@ + change_line(key@, k@),
{
    let mut line = String::from_str("  \"");
    line.append(key);
    line.append("\" [label=\"");
    line.append(key);
    line.append("\\n");
    match k {
        ChangeKind::Added => {
            line.append("ADDED");
            line.append("\" style=filled fillcolor=");
            line.append("lightgreen");
        },
        ChangeKind::Removed => {
            line.append("REMOVED");
            line.append("\" style=filled fillcolor=");
            line.append("lightcoral");
        },
        ChangeKind::CallersChanged { .. } => {
            line.append("CALLERS CHANGED");
            line.append("\" style=filled fillcolor=");
            line.append("lightyellow");
        },
    }
    line.append("];\n");
    dot.append(line.as_str());
}

/// The DOT line of a node of the impact of a comparison: the target red,
/// changed methods yellow, both wider.
pub open spec fn diff_node_line(id: Seq<char>, transitive: nat, is_target: bool, changed: bool) -> Seq<char> {
    if is_target {
        node_line(id, transitive, "lightcoral"@, " penwidth=2"@)
    } else if changed {
        node_line(id, transitive, "lightyellow"@, " penwidth=2"@)
    } else {
        node_line(id, transitive, "lightblue"@, ""@)
    }
}

/// The DOT lines of the impact nodes of a comparison.
pub open spec fn diff_node_lines(ns: Seq<(String, (usize, usize))>, target: Seq<char>, ch: Seq<(String, ChangeKind)>) -> Seq<char>
    decreases ns.len(),
{
    if ns.len() == 0 {
        Seq::empty()
    } else {
        let id = ns.last().0@;
        diff_node_lines(ns.drop_last(), target, ch) + diff_node_line(
            id,
            ns.last().1.1 as nat,
            id == target,
            key_listed(ch, id),
        )
    }
}

/// The DOT text of a comparison: its impact graph with changed methods
/// marked, or the changed methods alone when there is no target.
pub open spec fn diff_dot(res: DiffImpactResult, title: Seq<char>) -> Seq<char> {
    dot_header("DiffImpact"@, title) + (if res.impact.target@.len() > 0 {
        diff_node_lines(res.impact.nodes@, res.impact.target@, res.changes@) + "\n"@ + edge_lines(
            dedup_first(keys_of(res.impact.edges@)),
        )
    } else {
        "  // Changed methods (no specific target)\n"@ + change_lines(res.changes@)
    }) + "}\n"@
}

/// Renders a comparison as DOT.
pub fn diff_impact_to_dot(result: &DiffImpactResult, title: &str) -> (r: String)
    requires
        result.wf(),
    ensures
        r@ == diff_dot(*result, title@),
{
    let mut dot = String::new();
    push_dot_header(&mut dot, "DiffImpact", title);
    let ghost d0 = dot@;
    let ig = &result.impact;
    if ig.target.unicode_len() > 0 {
        let mut i: usize = 0;
        while i < ig.nodes.len()
            invariant
                i <= ig.nodes@.len(),
                dot@ == d0 + diff_node_lines(ig.nodes@.subrange(0, i as int), ig.target@, result.changes@),
            decreases ig.nodes.len() - i,
        {
            let ghost pre = ig.nodes@.subrange(0, i + 1);
            assert(pre.drop_last() =~= ig.nodes@.subrange(0, i as int));
            let node_id = ig.nodes[i].0.as_str();
            let t = ig.nodes[i].1.1;
            if str_eq(node_id, ig.target.as_str()) {
                push_node_line(&mut dot, node_id, t, "lightcoral", " penwidth=2");
            } else if has_entry(&result.changes, node_id) {
                push_node_line(&mut dot, node_id, t, "lightyellow", " penwidth=2");
            } else {
                push_node_line(&mut dot, node_id, t, "lightblue", "");
            }
            proof {
                let line = diff_node_line(node_id@, t as nat, node_id@ == ig.target@, key_listed(result.changes@, node_id@));
                assert(dot@ =~= d0 + (diff_node_lines(ig.nodes@.subrange(0, i as int), ig.target@, result.changes@) + line));
            }
            i = i + 1;
        }
        assert(ig.nodes@.subrange(0, ig.nodes@.len() as int) =~= ig.nodes@);
        dot.append("\n");
        push_edge_lines(&mut dot, &ig.edges);
    } else {
        dot.append("  // Changed methods (no specific target)\n");
        let ghost d1 = dot@;
        let mut i: usize = 0;
        while i < result.changes.len()
            invariant
                i <= result.changes@.len(),
                dot@ == d1 + change_lines(result.changes@.subrange(0, i as int)),
            decreases result.changes.len() - i,
        {
            let ghost pre = result.changes@.subrange(0, i + 1);
            assert(pre.drop_last() =~= result.changes@.subrange(0, i as int));
            let ghost before = dot@;
            push_change_line(&mut dot, result.changes[i].0.as_str(), &result.changes[i].1);
            proof {
                let line = change_line(result.changes@[i as int].0@, result.changes@[i as int].1@);
                assert(dot@ =~= d1 + (change_lines(result.changes@.subrange(0, i as int)) + line));
            }
            i = i + 1;
        }
        assert(result.changes@.subrange(0, result.changes@.len() as int) =~= result.changes@);
    }
    dot.append("}\n");
    proof {
        assert(dot@ =~= diff_dot(*result, title@));
    }
    dot
}

} // verus!
