//! Helpers shared by the detectors: return types, accessors, names.

use vstd::prelude::*;
use crate::text::{is_prefix, starts_with, string_views};
use crate::resolve::types::{MethodDescriptor, TypeGraph, ClassInfo};

verus! {

/// Unicode white space, as `char::is_whitespace` defines it.
pub open spec fn is_ws(c: char) -> bool {
    c == ' ' || c == '\t' || c == '\n' || c == '\x0B' || c == '\x0C' || c == '\r' || c == '\u{85}'
        || c == '\u{A0}' || c == '\u{1680}' || ('\u{2000}' <= c && c <= '\u{200A}') || c == '\u{2028}'
        || c == '\u{2029}' || c == '\u{202F}' || c == '\u{205F}' || c == '\u{3000}'
}

/// Whether `c` is white space.
pub fn is_whitespace(c: char) -> (r: bool)
    ensures
        r == is_ws(c),
{
    c == ' ' || c == '\t' || c == '\n' || c == '\x0B' || c == '\x0C' || c == '\r' || c == '\u{85}'
        || c == '\u{A0}' || c == '\u{1680}' || ('\u{2000}' <= c && c <= '\u{200A}') || c == '\u{2028}'
        || c == '\u{2029}' || c == '\u{202F}' || c == '\u{205F}' || c == '\u{3000}'
}

/// The position of the first non-space character of `s` from `i` on.
pub open spec fn skip_ws(s: Seq<char>, i: int) -> int
    decreases s.len() - i,
{
    if i < 0 || i >= s.len() {
        i
    } else if is_ws(s[i]) {
        skip_ws(s, i + 1)
    } else {
        i
    }
}

/// The position of the first space character of `s` from `i` on (or the end).
pub open spec fn skip_word(s: Seq<char>, i: int) -> int
    decreases s.len() - i,
{
    if i < 0 || i >= s.len() {
        i
    } else if is_ws(s[i]) {
        i
    } else {
        skip_word(s, i + 1)
    }
}

/// The first word of `s` (empty when there is none).
pub open spec fn first_word(s: Seq<char>) -> Seq<char> {
    let a = skip_ws(s, 0);
    s.subrange(a, skip_word(s, a))
}

/// The return type written first in a signature, `void` when it is blank.
pub open spec fn return_type_spec(sig: Seq<char>) -> Seq<char> {
    if first_word(sig).len() == 0 {
        "void"@
    } else {
        first_word(sig)
    }
}

proof fn lemma_skip_bounds(s: Seq<char>, i: int)
    requires
        0 <= i <= s.len(),
    ensures
        i <= skip_ws(s, i) <= s.len(),
        skip_ws(s, i) <= skip_word(s, skip_ws(s, i)) <= s.len(),
    decreases s.len() - i,
{
    if i < s.len() && is_ws(s[i]) {
        lemma_skip_bounds(s, i + 1);
    } else {
        lemma_word_bounds(s, i);
    }
}

proof fn lemma_word_bounds(s: Seq<char>, i: int)
    requires
        0 <= i <= s.len(),
    ensures
        i <= skip_word(s, i) <= s.len(),
    decreases s.len() - i,
{
    if i < s.len() && !is_ws(s[i]) {
        lemma_word_bounds(s, i + 1);
    }
}

/// The first word of `s`.
pub fn first_word_of(s: &str) -> (r: String)
    ensures
        r@ == first_word(s@),
{
    let n = s.unicode_len();
    let mut a: usize = 0;
    proof {
        lemma_skip_bounds(s@, 0);
    }
    while a < n && is_whitespace(s.get_char(a))
        invariant
            n == s@.len(),
            a <= n,
            skip_ws(s@, 0) == skip_ws(s@, a as int),
        decreases n - a,
    {
        a = a + 1;
    }
    let mut b: usize = a;
    while b < n && !is_whitespace(s.get_char(b))
        invariant
            n == s@.len(),
            a <= b <= n,
            a as int == skip_ws(s@, 0),
            skip_word(s@, a as int) == skip_word(s@, b as int),
        decreases n - b,
    {
        b = b + 1;
    }
    String::from_str(s.substring_char(a, b))
}

/// The return type of a method: the first word of its signature, or `void`.
pub fn return_type_of(m: &MethodDescriptor) -> (r: String)
    ensures
        r@ == return_type_spec(m.signature@),
{
    let w = first_word_of(m.signature.as_str());
    if w.unicode_len() == 0 {
        String::from_str("void")
    } else {
        w
    }
}

/// Property accessors, named `get_...` or `set_...`.
pub open spec fn is_accessor(name: Seq<char>) -> bool {
    is_prefix("get_"@, name) || is_prefix("set_"@, name)
}

/// Whether `name` is a property accessor's.
pub fn accessor_name(name: &str) -> (r: bool)
    ensures
        r == is_accessor(name@),
{
    starts_with(name, "get_") || starts_with(name, "set_")
}

/// The methods of `ms` that are not property accessors.
pub open spec fn non_accessors(ms: Seq<MethodDescriptor>) -> Seq<MethodDescriptor> {
    ms.filter(|m: MethodDescriptor| !is_accessor(m.method@))
}

/// The methods of `ms` that are not property accessors.
pub fn non_accessor_methods(ms: &Vec<MethodDescriptor>) -> (r: Vec<&MethodDescriptor>)
    ensures
        r@.map_values(|m: &MethodDescriptor| *m) == non_accessors(ms@),
{
    let mut r: Vec<&MethodDescriptor> = Vec::new();
    let mut i: usize = 0;
    while i < ms.len()
        invariant
            i <= ms@.len(),
            r@.map_values(|m: &MethodDescriptor| *m) == non_accessors(ms@.subrange(0, i as int)),
        decreases ms.len() - i,
    {
        let ghost pre = ms@.subrange(0, i + 1);
        assert(pre.drop_last() =~= ms@.subrange(0, i as int));
        reveal(Seq::filter);
        let ghost before = r@;
        if !accessor_name(ms[i].method.as_str()) {
            r.push(&ms[i]);
            assert(r@.map_values(|m: &MethodDescriptor| *m) =~= before.map_values(|m: &MethodDescriptor| *m).push(
                ms@[i as int],
            ));
        }
        i = i + 1;
    }
    assert(ms@.subrange(0, ms@.len() as int) =~= ms@);
    r
}

/// The names of a list of methods.
pub open spec fn method_names(ms: Seq<MethodDescriptor>) -> Seq<Seq<char>> {
    ms.map_values(|m: MethodDescriptor| m.method@)
}

/// The names of the methods.
pub fn names_of(ms: &Vec<&MethodDescriptor>) -> (r: Vec<String>)
    ensures
        string_views(r@) == method_names(ms@.map_values(|m: &MethodDescriptor| *m)),
{
    let mut r: Vec<String> = Vec::new();
    let mut i: usize = 0;
    while i < ms.len()
        invariant
            i <= ms@.len(),
            r@.len() == i,
            forall|k: int| 0 <= k < i ==> (#[trigger] r@[k])@ == ms@[k].method@,
        decreases ms.len() - i,
    {
        r.push(ms[i].method.clone());
        i = i + 1;
    }
    assert(string_views(r@) =~= method_names(ms@.map_values(|m: &MethodDescriptor| *m)));
    r
}

/// The names of all methods.
pub fn all_names(ms: &Vec<MethodDescriptor>) -> (r: Vec<String>)
    ensures
        string_views(r@) == method_names(ms@),
{
    let mut r: Vec<String> = Vec::new();
    let mut i: usize = 0;
    while i < ms.len()
        invariant
            i <= ms@.len(),
            r@.len() == i,
            forall|k: int| 0 <= k < i ==> (#[trigger] r@[k])@ == ms@[k].method@,
        decreases ms.len() - i,
    {
        r.push(ms[i].method.clone());
        i = i + 1;
    }
    assert(string_views(r@) =~= method_names(ms@));
    r
}

/// `true` or `false`.
pub open spec fn bool_text(b: bool) -> Seq<char> {
    if b {
        "true"@
    } else {
        "false"@
    }
}

/// `true` or `false`.
pub fn bool_string(b: bool) -> (r: String)
    ensures
        r@ == bool_text(b),
{
    if b {
        String::from_str("true")
    } else {
        String::from_str("false")
    }
}

/// A one-element list of names.
pub fn one_name(a: &str) -> (r: Vec<String>)
    ensures
        string_views(r@) == seq![a@],
{
    let mut r: Vec<String> = Vec::new();
    r.push(String::from_str(a));
    assert(string_views(r@) =~= seq![a@]);
    r
}

/// A two-element list of names.
pub fn two_names(a: &str, b: &str) -> (r: Vec<String>)
    ensures
        string_views(r@) == seq![a@, b@],
{
    let mut r: Vec<String> = Vec::new();
    r.push(String::from_str(a));
    r.push(String::from_str(b));
    assert(string_views(r@) =~= seq![a@, b@]);
    r
}

/// The first position of `c` in `s`.
pub open spec fn first_index_of(s: Seq<char>, c: char) -> Option<int> {
    if exists|i: int| 0 <= i < s.len() && s[i] == c {
        Some(choose|i: int| 0 <= i < s.len() && s[i] == c && forall|j: int| 0 <= j < i ==> s[j] != c)
    } else {
        None
    }
}

/// The first position of `c` in `s`.
pub fn find_char(s: &str, c: char) -> (r: Option<usize>)
    ensures
        match r {
            Some(i) => first_index_of(s@, c) == Some(i as int) && i < s@.len(),
            None => first_index_of(s@, c) is None,
        },
{
    let n = s.unicode_len();
    let mut i: usize = 0;
    while i < n
        invariant
            n == s@.len(),
            i <= n,
            forall|j: int| 0 <= j < i ==> s@[j] != c,
        decreases n - i,
    {
        if s.get_char(i) == c {
            proof {
                assert(exists|k: int| 0 <= k < s@.len() && s@[k] == c);
                let k = choose|k: int| 0 <= k < s@.len() && s@[k] == c && forall|j: int| 0 <= j < k ==> s@[j] != c;
                if k < i {
                    assert(s@[k] != c);
                } else if k > i {
                    assert(s@[i as int] != c);
                }
            }
            return Some(i);
        }
        i = i + 1;
    }
    None
}

/// A signature whose first `)` does not come before its first `(` (when
/// it has both): its parameter section can be cut out.
pub open spec fn params_ordered(sig: Seq<char>) -> bool {
    match (first_index_of(sig, '('), first_index_of(sig, ')')) {
        (Some(a), Some(b)) => a < b,
        _ => true,
    }
}

/// The text between the first `(` and the first `)` of a signature.
pub open spec fn param_section(sig: Seq<char>) -> Option<Seq<char>> {
    match (first_index_of(sig, '('), first_index_of(sig, ')')) {
        (Some(a), Some(b)) => Some(sig.subrange(a + 1, b)),
        _ => None,
    }
}

/// The text between the first `(` and the first `)` of `sig`.
pub fn param_section_of(sig: &str) -> (r: Option<String>)
    requires
        params_ordered(sig@),
    ensures
        opt_seq(r) == param_section(sig@),
{
    match find_char(sig, '(') {
        Some(a) => match find_char(sig, ')') {
            Some(b) => Some(String::from_str(sig.substring_char(a + 1, b))),
            None => None,
        },
        None => None,
    }
}

/// The view of an optional string.
pub open spec fn opt_seq(o: Option<String>) -> Option<Seq<char>> {
    match o {
        Some(s) => Some(s@),
        None => None,
    }
}

/// Every method signature of every class can have its parameter section
/// cut out.
pub open spec fn signatures_ordered(tg: TypeGraph) -> bool {
    forall|k: int, j: int|
        0 <= k < tg.classes@.len() && 0 <= j < tg.classes@[k].methods@.len() ==> params_ordered(
            #[trigger] tg.classes@[k].methods@[j].signature@,
        )
}

/// With all signatures ordered, those of the class at `i` are.
pub proof fn lemma_class_signatures_ordered(tg: TypeGraph, i: int)
    requires
        signatures_ordered(tg),
        0 <= i < tg.classes@.len(),
    ensures
        forall|j: int|
            0 <= j < tg.classes@[i].methods@.len() ==> params_ordered(#[trigger] tg.classes@[i].methods@[j].signature@),
{
}

/// Whether the parameter section of `sig` can be cut out.
pub fn sig_ordered(sig: &str) -> (r: bool)
    ensures
        r == params_ordered(sig@),
{
    match (find_char(sig, '('), find_char(sig, ')')) {
        (Some(a), Some(b)) => a < b,
        _ => true,
    }
}

/// Whether every method signature of every class can have its parameter
/// section cut out.
pub fn signatures_are_ordered(tg: &TypeGraph) -> (r: bool)
    ensures
        r == signatures_ordered(*tg),
{
    let mut k: usize = 0;
    while k < tg.classes.len()
        invariant
            k <= tg.classes@.len(),
            forall|a: int, j: int|
                0 <= a < k && 0 <= j < tg.classes@[a].methods@.len() ==> params_ordered(
                    #[trigger] tg.classes@[a].methods@[j].signature@,
                ),
        decreases tg.classes.len() - k,
    {
        let ms = &tg.classes[k].methods;
        let mut j: usize = 0;
        while j < ms.len()
            invariant
                k < tg.classes@.len(),
                ms@ == tg.classes@[k as int].methods@,
                j <= ms@.len(),
                forall|a: int, b: int|
                    0 <= a < k && 0 <= b < tg.classes@[a].methods@.len() ==> params_ordered(
                        #[trigger] tg.classes@[a].methods@[b].signature@,
                    ),
                forall|b: int| 0 <= b < j ==> params_ordered(#[trigger] ms@[b].signature@),
            decreases ms.len() - j,
        {
            if !sig_ordered(ms[j].signature.as_str()) {
                assert(!params_ordered(tg.classes@[k as int].methods@[j as int].signature@));
                return false;
            }
            j = j + 1;
        }
        k = k + 1;
    }
    true
}

/// The names of a list of classes.
pub open spec fn class_names(cs: Seq<ClassInfo>) -> Seq<Seq<char>> {
    cs.map_values(|c: ClassInfo| c.name@)
}

/// The names of the classes.
pub fn class_names_of(cs: &Vec<&ClassInfo>) -> (r: Vec<String>)
    ensures
        string_views(r@) == class_names(cs@.map_values(|c: &ClassInfo| *c)),
{
    let mut r: Vec<String> = Vec::new();
    let mut i: usize = 0;
    while i < cs.len()
        invariant
            i <= cs@.len(),
            r@.len() == i,
            forall|k: int| 0 <= k < i ==> (#[trigger] r@[k])@ == cs@[k].name@,
        decreases cs.len() - i,
    {
        r.push(cs[i].name.clone());
        i = i + 1;
    }
    assert(string_views(r@) =~= class_names(cs@.map_values(|c: &ClassInfo| *c)));
    r
}

/// `s` without white space at either end.
pub open spec fn trimmed(s: Seq<char>) -> Seq<char>
    decreases s.len(),
{
    if s.len() > 0 && is_ws(s[0]) {
        trimmed(s.drop_first())
    } else if s.len() > 0 && is_ws(s.last()) {
        trimmed(s.drop_last())
    } else {
        s
    }
}

/// `s` without white space at either end.
pub fn trim(s: &str) -> (r: String)
    ensures
        r@ == trimmed(s@),
{
    let n = s.unicode_len();
    let mut a: usize = 0;
    let mut b: usize = n;
    assert(s@.subrange(0, n as int) =~= s@);
    while a < b && (is_whitespace(s.get_char(a)) || is_whitespace(s.get_char(b - 1)))
        invariant
            n == s@.len(),
            a <= b <= n,
            trimmed(s@) == trimmed(s@.subrange(a as int, b as int)),
        decreases b - a,
    {
        let ghost cur = s@.subrange(a as int, b as int);
        if is_whitespace(s.get_char(a)) {
            assert(cur[0] == s@[a as int]);
            assert(cur.drop_first() =~= s@.subrange(a + 1, b as int));
            a = a + 1;
        } else {
            assert(cur[0] == s@[a as int]);
            assert(cur.last() == s@[b - 1]);
            assert(cur.drop_last() =~= s@.subrange(a as int, b - 1));
            b = b - 1;
        }
    }
    String::from_str(s.substring_char(a, b))
}

/// The pieces of `s` between commas.
pub open spec fn comma_pieces(s: Seq<char>) -> Seq<Seq<char>>
    decreases s.len(),
{
    match first_index_of(s, ',') {
        Some(i) => if 0 <= i < s.len() {
            seq![s.subrange(0, i)] + comma_pieces(s.subrange(i + 1, s.len() as int))
        } else {
            seq![s]
        },
        None => seq![s],
    }
}

/// The pieces of `s` between commas.
pub fn split_commas(s: &str) -> (r: Vec<String>)
    ensures
        string_views(r@) == comma_pieces(s@),
    decreases s@.len(),
{
    match find_char(s, ',') {
        Some(i) => {
            let n = s.unicode_len();
            let head = String::from_str(s.substring_char(0, i));
            let rest = s.substring_char(i + 1, n);
            let mut r: Vec<String> = Vec::new();
            r.push(head);
            let mut tail = split_commas(rest);
            let ghost r0 = r@;
            r.append(&mut tail);
            assert(string_views(r@) =~= string_views(r0) + comma_pieces(rest@));
            r
        },
        None => {
            let r = one_name(s);
            r
        },
    }
}

} // verus!
