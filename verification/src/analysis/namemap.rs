//! A map from names to lists of names, kept as a vector of entries in
//! insertion order (keys are unique).

use vstd::prelude::*;
use crate::text::{str_eq, string_views};
use crate::resolve::types::{clone_vec, names_contain, vec_contains_str};

verus! {

/// Name-keyed lists of names. Used both as a map to sets (with `insert`)
/// and as a map to lists (with `push`).
#[derive(Debug)]
pub struct NameMap {
    pub entries: Vec<(String, Vec<String>)>,
}

/// The first entry of `s` whose key is `key`.
pub open spec fn find_entry(s: Seq<(String, Vec<String>)>, key: Seq<char>) -> Option<(String, Vec<String>)>
    decreases s.len(),
{
    if s.len() == 0 {
        None
    } else if s[0].0@ == key {
        Some(s[0])
    } else {
        find_entry(s.drop_first(), key)
    }
}

proof fn lemma_find_entry_first(s: Seq<(String, Vec<String>)>, k: int, key: Seq<char>)
    requires
        0 <= k < s.len(),
        s[k].0@ == key,
        forall|i: int| 0 <= i < k ==> (#[trigger] s[i]).0@ != key,
    ensures
        find_entry(s, key) == Some(s[k]),
    decreases s.len(),
{
    if k > 0 {
        assert forall|i: int| 0 <= i < k - 1 implies (#[trigger] s.drop_first()[i]).0@ != key by {
            assert(s.drop_first()[i] == s[i + 1]);
        }
        lemma_find_entry_first(s.drop_first(), k - 1, key);
    }
}

proof fn lemma_find_entry_absent(s: Seq<(String, Vec<String>)>, key: Seq<char>)
    requires
        forall|i: int| 0 <= i < s.len() ==> (#[trigger] s[i]).0@ != key,
    ensures
        find_entry(s, key) is None,
    decreases s.len(),
{
    if s.len() > 0 {
        assert forall|i: int| 0 <= i < s.len() - 1 implies (#[trigger] s.drop_first()[i]).0@ != key by {
            assert(s.drop_first()[i] == s[i + 1]);
        }
        lemma_find_entry_absent(s.drop_first(), key);
    }
}

/// Changing or adding the entry for one key leaves the lookup of every
/// other key unchanged.
proof fn lemma_find_entry_other(
    s: Seq<(String, Vec<String>)>,
    t: Seq<(String, Vec<String>)>,
    key: Seq<char>,
    other: Seq<char>,
)
    requires
        other != key,
        s.len() <= t.len() <= s.len() + 1,
        forall|i: int| 0 <= i < s.len() && s[i].0@ != key ==> #[trigger] t[i] == s[i],
        forall|i: int| 0 <= i < t.len() && t[i].0@ == key ==> #[trigger] t[i].0@ == key,
        forall|i: int| 0 <= i < s.len() ==> (#[trigger] s[i].0@ == key <==> t[i].0@ == key),
        t.len() == s.len() + 1 ==> t[s.len() as int].0@ == key,
    ensures
        find_entry(t, other) == find_entry(s, other),
    decreases s.len(),
{
    if s.len() == 0 {
        if t.len() == 1 {
            assert(t[0].0@ == key);
            assert(t.drop_first().len() == 0);
        }
    } else {
        assert(s[0].0@ == key <==> t[0].0@ == key);
        if s[0].0@ != key {
            assert(t[0] == s[0]);
        }
        assert forall|i: int| 0 <= i < s.drop_first().len() && s.drop_first()[i].0@ != key implies #[trigger] t.drop_first()[i]
            == s.drop_first()[i] by {
            assert(s.drop_first()[i] == s[i + 1]);
            assert(t.drop_first()[i] == t[i + 1]);
        }
        assert forall|i: int| 0 <= i < s.drop_first().len() implies (#[trigger] s.drop_first()[i].0@ == key
            <==> t.drop_first()[i].0@ == key) by {
            assert(s.drop_first()[i] == s[i + 1]);
            assert(t.drop_first()[i] == t[i + 1]);
        }
        lemma_find_entry_other(s.drop_first(), t.drop_first(), key, other);
    }
}

/// `new` is `old` with one more name, `v`, at the end.
pub open spec fn pushed_name(old: Seq<String>, new: Seq<String>, v: Seq<char>) -> bool {
    &&& new.len() == old.len() + 1
    &&& new.subrange(0, old.len() as int) == old
    &&& new[old.len() as int]@ == v
}

impl NameMap {
    /// The names recorded under `key` (empty when there is no entry).
    pub open spec fn values(self, key: Seq<char>) -> Seq<String> {
        match find_entry(self.entries@, key) {
            Some(e) => e.1@,
            None => Seq::empty(),
        }
    }

    /// Is there an entry for `key`?
    pub open spec fn has_key(self, key: Seq<char>) -> bool {
        find_entry(self.entries@, key) is Some
    }

    pub fn new() -> (r: Self)
        ensures
            r.entries@.len() == 0,
            forall|k: Seq<char>| (#[trigger] r.values(k)).len() == 0,
    {
        NameMap { entries: Vec::new() }
    }

    /// Position of the first entry for `key`.
    pub(crate) fn position(&self, key: &str) -> (r: Option<usize>)
        ensures
            match r {
                Some(i) => i < self.entries@.len() && self.entries@[i as int].0@ == key@
                    && find_entry(self.entries@, key@) == Some(self.entries@[i as int])
                    && forall|j: int| 0 <= j < i ==> (#[trigger] self.entries@[j]).0@ != key@,
                None => find_entry(self.entries@, key@) is None && forall|j: int|
                    0 <= j < self.entries@.len() ==> (#[trigger] self.entries@[j]).0@ != key@,
            },
    {
        let mut i: usize = 0;
        while i < self.entries.len()
            invariant
                i <= self.entries@.len(),
                forall|j: int| 0 <= j < i ==> (#[trigger] self.entries@[j]).0@ != key@,
            decreases self.entries.len() - i,
        {
            if str_eq(self.entries[i].0.as_str(), key) {
                proof {
                    lemma_find_entry_first(self.entries@, i as int, key@);
                }
                return Some(i);
            }
            i = i + 1;
        }
        proof {
            lemma_find_entry_absent(self.entries@, key@);
        }
        None
    }

    /// The names recorded under `key`.
    pub fn get(&self, key: &str) -> (r: Option<&Vec<String>>)
        ensures
            match r {
                Some(v) => self.has_key(key@) && v@ == self.values(key@),
                None => !self.has_key(key@) && self.values(key@).len() == 0,
            },
    {
        match self.position(key) {
            Some(i) => Some(&self.entries[i].1),
            None => None,
        }
    }

    /// Is `value` recorded under `key`?
    pub fn contains(&self, key: &str, value: &str) -> (r: bool)
        ensures
            r == names_contain(self.values(key@), value@),
    {
        match self.get(key) {
            Some(v) => vec_contains_str(v, value),
            None => false,
        }
    }

    /// Append `value` to the names under `key` (`only_new`: unless present).
    fn add(&mut self, key: &str, value: &str, only_new: bool)
        ensures
            if only_new && names_contain(old(self).values(key@), value@) {
                final(self).values(key@) == old(self).values(key@)
            } else {
                pushed_name(old(self).values(key@), final(self).values(key@), value@)
            },
            final(self).values(key@).len() > 0,
            forall|k: Seq<char>| k != key@ ==> #[trigger] final(self).values(k) == old(self).values(k),
            forall|k: Seq<char>| #[trigger] final(self).has_key(k) == (old(self).has_key(k) || k == key@),
    {
        let ghost old_entries = self.entries@;
        let v = String::from_str(value);
        match self.position(key) {
            Some(i) => {
                if only_new && vec_contains_str(&self.entries[i].1, value) {
                    return;
                }
                let mut names = clone_vec(&self.entries[i].1);
                let ghost prev = names@;
                names.push(v);
                assert(names@.subrange(0, prev.len() as int) =~= prev);
                let k = String::from_str(key);
                self.entries.set(i, (k, names));
                proof {
                    assert forall|j: int| 0 <= j < i implies (#[trigger] self.entries@[j]).0@ != key@ by {
                        assert(self.entries@[j] == old_entries[j]);
                    }
                    lemma_find_entry_first(self.entries@, i as int, key@);
                    assert forall|other: Seq<char>| other != key@ implies #[trigger] find_entry(self.entries@, other)
                        == find_entry(old_entries, other) by {
                        lemma_find_entry_other(old_entries, self.entries@, key@, other);
                    }
                }
            },
            None => {
                let mut names: Vec<String> = Vec::new();
                names.push(v);
                let k = String::from_str(key);
                self.entries.push((k, names));
                proof {
                    assert forall|j: int| 0 <= j < old_entries.len() implies (#[trigger] self.entries@[j]).0@ != key@ by {
                        assert(self.entries@[j] == old_entries[j]);
                    }
                    lemma_find_entry_first(self.entries@, old_entries.len() as int, key@);
                    assert(names@.subrange(0, 0) =~= Seq::<String>::empty());
                    assert(names@[0]@ == value@);
                    assert forall|other: Seq<char>| other != key@ implies #[trigger] find_entry(self.entries@, other)
                        == find_entry(old_entries, other) by {
                        lemma_find_entry_other(old_entries, self.entries@, key@, other);
                    }
                }
            },
        }
    }
}


impl NameMap {
    /// Add `value` to the set of names under `key`.
    pub fn insert(&mut self, key: &str, value: &str)
        ensures
            if names_contain(old(self).values(key@), value@) {
                final(self).values(key@) == old(self).values(key@)
            } else {
                pushed_name(old(self).values(key@), final(self).values(key@), value@)
            },
            names_contain(final(self).values(key@), value@),
            forall|k: Seq<char>| k != key@ ==> #[trigger] final(self).values(k) == old(self).values(k),
    {
        self.add(key, value, true);
        proof {
            if !names_contain(old(self).values(key@), value@) {
                let n = old(self).values(key@).len() as int;
                assert(self.values(key@)[n]@ == value@);
            }
        }
    }

    /// Append `value` to the list of names under `key`.
    pub fn push(&mut self, key: &str, value: &str)
        ensures
            pushed_name(old(self).values(key@), final(self).values(key@), value@),
            forall|k: Seq<char>| k != key@ ==> #[trigger] final(self).values(k) == old(self).values(k),
    {
        self.add(key, value, false);
    }
}

/// Whether a list of names holds `v`, seen on the names' characters.
pub proof fn lemma_names_contain(s: Seq<String>, v: Seq<char>)
    ensures
        names_contain(s, v) == string_views(s).contains(v),
{
    if names_contain(s, v) {
        let i = choose|i: int| 0 <= i < s.len() && (#[trigger] s[i])@ == v;
        assert(string_views(s)[i] == v);
    }
    if string_views(s).contains(v) {
        let i = choose|i: int| 0 <= i < string_views(s).len() && string_views(s)[i] == v;
        assert(s[i]@ == v);
    }
}

/// `a` extended, in order, by the names of `b` it does not hold yet.
pub open spec fn union_views(a: Seq<Seq<char>>, b: Seq<Seq<char>>) -> Seq<Seq<char>>
    decreases b.len(),
{
    if b.len() == 0 {
        a
    } else {
        let u = union_views(a, b.drop_last());
        if u.contains(b.last()) {
            u
        } else {
            u.push(b.last())
        }
    }
}

/// Some entry before `i` has the key `k`.
pub open spec fn key_before(s: Seq<(String, Vec<String>)>, k: Seq<char>, i: int) -> bool {
    exists|j: int| 0 <= j < i && (#[trigger] s[j]).0@ == k
}

impl NameMap {
    /// Add to the names under each key those that `other` records under it
    /// (a union of name sets, in order of first mention).
    pub fn absorb(&mut self, other: &NameMap)
        ensures
            forall|k: Seq<char>|
                #[trigger] string_views(final(self).values(k)) == union_views(
                    string_views(old(self).values(k)),
                    string_views(other.values(k)),
                ),
    {
        let ghost o = old(self);
        let mut i: usize = 0;
        while i < other.entries.len()
            invariant
                i <= other.entries@.len(),
                forall|k: Seq<char>|
                    #[trigger] string_views(self.values(k)) == if key_before(other.entries@, k, i as int) {
                        union_views(string_views(o.values(k)), string_views(other.values(k)))
                    } else {
                        string_views(o.values(k))
                    },
            decreases other.entries.len() - i,
        {
            let key = other.entries[i].0.as_str();
            let first = match other.position(key) {
                Some(p) => p == i,
                None => false,
            };
            if first {
                proof {
                    assert(!key_before(other.entries@, key@, i as int));
                    assert(other.values(key@) == other.entries@[i as int].1@);
                }
                let vals = &other.entries[i].1;
                let ghost start = string_views(self.values(key@));
                let mut j: usize = 0;
                while j < vals.len()
                    invariant
                        vals@ == other.values(key@),
                        j <= vals@.len(),
                        start == string_views(o.values(key@)),
                        string_views(self.values(key@)) == union_views(start, string_views(vals@.subrange(0, j as int))),
                        forall|k: Seq<char>|
                            k != key@ ==> #[trigger] string_views(self.values(k)) == if key_before(
                                other.entries@,
                                k,
                                i as int,
                            ) {
                                union_views(string_views(o.values(k)), string_views(other.values(k)))
                            } else {
                                string_views(o.values(k))
                            },
                    decreases vals.len() - j,
                {
                    let ghost before = self.values(key@);
                    let ghost sub = string_views(vals@.subrange(0, j + 1));
                    assert(sub.drop_last() =~= string_views(vals@.subrange(0, j as int)));
                    assert(sub.last() == vals@[j as int]@);
                    proof {
                        lemma_names_contain(before, vals@[j as int]@);
                    }
                    self.insert(key, vals[j].as_str());
                    proof {
                        if !names_contain(before, vals@[j as int]@) {
                            assert(string_views(self.values(key@)) =~= string_views(before).push(vals@[j as int]@));
                        }
                    }
                    j = j + 1;
                }
                assert(vals@.subrange(0, vals@.len() as int) =~= vals@);
                proof {
                    assert forall|k: Seq<char>|
                        #[trigger] string_views(self.values(k)) == if key_before(other.entries@, k, i + 1) {
                            union_views(string_views(o.values(k)), string_views(other.values(k)))
                        } else {
                            string_views(o.values(k))
                        } by {
                        if k == key@ {
                            assert(other.entries@[i as int].0@ == k);
                        } else {
                            if key_before(other.entries@, k, i + 1) {
                                let jj = choose|jj: int| 0 <= jj < i + 1 && (#[trigger] other.entries@[jj]).0@ == k;
                                assert(jj != i);
                            }
                        }
                    }
                }
            } else {
                proof {
                    let p = choose|p: int|
                        0 <= p < i && (#[trigger] other.entries@[p]).0@ == key@;
                    assert forall|k: Seq<char>|
                        #[trigger] string_views(self.values(k)) == if key_before(other.entries@, k, i + 1) {
                            union_views(string_views(o.values(k)), string_views(other.values(k)))
                        } else {
                            string_views(o.values(k))
                        } by {
                        if k == key@ {
                            assert(key_before(other.entries@, k, i as int));
                        } else if key_before(other.entries@, k, i + 1) {
                            let jj = choose|jj: int| 0 <= jj < i + 1 && (#[trigger] other.entries@[jj]).0@ == k;
                            assert(jj != i);
                        }
                    }
                }
            }
            i = i + 1;
        }
        proof {
            assert forall|k: Seq<char>|
                #[trigger] string_views(self.values(k)) == union_views(
                    string_views(o.values(k)),
                    string_views(other.values(k)),
                ) by {
                if !key_before(other.entries@, k, i as int) {
                    lemma_find_entry_absent(other.entries@, k);
                    assert(string_views(other.values(k)) =~= Seq::<Seq<char>>::empty());
                }
            }
        }
    }
}


impl NameMap {
    /// Append to the names under each key those that `other` records under
    /// it, in order (the lists are concatenated).
    pub fn extend_from(&mut self, other: &NameMap)
        ensures
            forall|k: Seq<char>|
                #[trigger] string_views(final(self).values(k)) == string_views(old(self).values(k)) + string_views(
                    other.values(k),
                ),
    {
        let ghost o = old(self);
        let mut i: usize = 0;
        while i < other.entries.len()
            invariant
                i <= other.entries@.len(),
                forall|k: Seq<char>|
                    #[trigger] string_views(self.values(k)) == if key_before(other.entries@, k, i as int) {
                        string_views(o.values(k)) + string_views(other.values(k))
                    } else {
                        string_views(o.values(k))
                    },
            decreases other.entries.len() - i,
        {
            let key = other.entries[i].0.as_str();
            let first = match other.position(key) {
                Some(p) => p == i,
                None => false,
            };
            if first {
                proof {
                    assert(!key_before(other.entries@, key@, i as int));
                    assert(other.values(key@) == other.entries@[i as int].1@);
                }
                let vals = &other.entries[i].1;
                let ghost start = string_views(self.values(key@));
                let mut j: usize = 0;
                assert(string_views(vals@.subrange(0, 0)) =~= Seq::<Seq<char>>::empty());
                assert(start =~= start + Seq::<Seq<char>>::empty());
                while j < vals.len()
                    invariant
                        vals@ == other.values(key@),
                        j <= vals@.len(),
                        start == string_views(o.values(key@)),
                        string_views(self.values(key@)) == start + string_views(vals@.subrange(0, j as int)),
                        forall|k: Seq<char>|
                            k != key@ ==> #[trigger] string_views(self.values(k)) == if key_before(
                                other.entries@,
                                k,
                                i as int,
                            ) {
                                string_views(o.values(k)) + string_views(other.values(k))
                            } else {
                                string_views(o.values(k))
                            },
                    decreases vals.len() - j,
                {
                    let ghost before = self.values(key@);
                    self.push(key, vals[j].as_str());
                    proof {
                        let after = self.values(key@);
                        assert(after =~= before.push(after[before.len() as int]));
                        assert(string_views(after) =~= string_views(before).push(vals@[j as int]@));
                        assert(string_views(vals@.subrange(0, j + 1)) =~= string_views(vals@.subrange(0, j as int)).push(
                            vals@[j as int]@,
                        ));
                        assert(string_views(self.values(key@)) =~= start + string_views(vals@.subrange(0, j + 1)));
                    }
                    j = j + 1;
                }
                assert(vals@.subrange(0, vals@.len() as int) =~= vals@);
                proof {
                    assert forall|k: Seq<char>|
                        #[trigger] string_views(self.values(k)) == if key_before(other.entries@, k, i + 1) {
                            string_views(o.values(k)) + string_views(other.values(k))
                        } else {
                            string_views(o.values(k))
                        } by {
                        if k == key@ {
                            assert(other.entries@[i as int].0@ == k);
                        } else {
                            if key_before(other.entries@, k, i + 1) {
                                let jj = choose|jj: int| 0 <= jj < i + 1 && (#[trigger] other.entries@[jj]).0@ == k;
                                assert(jj != i);
                            }
                        }
                    }
                }
            } else {
                proof {
                    let p = choose|p: int|
                        0 <= p < i && (#[trigger] other.entries@[p]).0@ == key@;
                    assert forall|k: Seq<char>|
                        #[trigger] string_views(self.values(k)) == if key_before(other.entries@, k, i + 1) {
                            string_views(o.values(k)) + string_views(other.values(k))
                        } else {
                            string_views(o.values(k))
                        } by {
                        if k == key@ {
                            assert(key_before(other.entries@, k, i as int));
                        } else if key_before(other.entries@, k, i + 1) {
                            let jj = choose|jj: int| 0 <= jj < i + 1 && (#[trigger] other.entries@[jj]).0@ == k;
                            assert(jj != i);
                        }
                    }
                }
            }
            i = i + 1;
        }
        proof {
            assert forall|k: Seq<char>|
                #[trigger] string_views(self.values(k)) == string_views(o.values(k)) + string_views(other.values(k)) by {
                if !key_before(other.entries@, k, i as int) {
                    lemma_find_entry_absent(other.entries@, k);
                    assert(string_views(other.values(k)) =~= Seq::<Seq<char>>::empty());
                    assert(string_views(o.values(k)) =~= string_views(o.values(k)) + Seq::<Seq<char>>::empty());
                }
            }
        }
    }
}

/// A name is in the union of two name lists exactly when it is in one of
/// them.
pub proof fn law_union_members(a: Seq<Seq<char>>, b: Seq<Seq<char>>, x: Seq<char>)
    ensures
        union_views(a, b).contains(x) <==> (a.contains(x) || b.contains(x)),
    decreases b.len(),
{
    if b.len() > 0 {
        law_union_members(a, b.drop_last(), x);
        let u = union_views(a, b.drop_last());
        assert(b.drop_last().push(b.last()) =~= b);
        if b.drop_last().contains(x) {
            let i = choose|i: int| 0 <= i < b.drop_last().len() && b.drop_last()[i] == x;
            assert(b[i] == x);
        }
        if b.contains(x) && !b.drop_last().contains(x) {
            let i = choose|i: int| 0 <= i < b.len() && b[i] == x;
            if i < b.len() - 1 {
                assert(b.drop_last()[i] == x);
            }
        }
        if !u.contains(b.last()) {
            assert(u.push(b.last())[u.len() as int] == b.last());
            if u.push(b.last()).contains(x) {
                let i = choose|i: int| 0 <= i < u.push(b.last()).len() && u.push(b.last())[i] == x;
                if i < u.len() {
                    assert(u[i] == x);
                }
            }
            if u.contains(x) {
                let i = choose|i: int| 0 <= i < u.len() && u[i] == x;
                assert(u.push(b.last())[i] == x);
            }
        }
    }
}

} // verus!
