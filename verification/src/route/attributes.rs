//! Reading C# attributes off a syntax tree: `[Route("...")]` on a
//! controller and `[HttpGet("...")]` and the like on its actions.

use vstd::prelude::*;
use crate::text::{str_eq, ends_with, is_suffix};
use crate::parse::syntax::{SyntaxTree, text_view, field_text, field_text_of};

verus! {

/// The text of node `c`.
pub open spec fn text_at(t: SyntaxTree, c: int) -> Option<Seq<char>> {
    text_view(t.nodes@[c].text)
}

/// The text of the first child of node `i`.
pub open spec fn first_child_text(t: SyntaxTree, i: int) -> Option<Seq<char>> {
    if t.children_of(i).len() > 0 {
        text_at(t, t.children_of(i)[0] as int)
    } else {
        None
    }
}

/// The first of `cs` of kind `kind`.
pub open spec fn first_of_kind(t: SyntaxTree, cs: Seq<usize>, kind: Seq<char>) -> Option<usize>
    decreases cs.len(),
{
    if cs.len() == 0 {
        None
    } else if t.kind_of(cs[0] as int) == kind {
        Some(cs[0])
    } else {
        first_of_kind(t, cs.drop_first(), kind)
    }
}

/// The content of a string literal node: the text of its first
/// `string_literal_content` child.
pub open spec fn string_content(t: SyntaxTree, i: int) -> Option<Seq<char>> {
    match first_of_kind(t, t.children_of(i), "string_literal_content"@) {
        Some(c) => text_at(t, c as int),
        None => None,
    }
}

/// The first string literal among `cs` that has content.
pub open spec fn string_in(t: SyntaxTree, cs: Seq<usize>) -> Option<Seq<char>>
    decreases cs.len(),
{
    if cs.len() == 0 {
        None
    } else if t.kind_of(cs[0] as int) == "string_literal"@ && string_content(t, cs[0] as int) is Some {
        string_content(t, cs[0] as int)
    } else {
        string_in(t, cs.drop_first())
    }
}

/// The first string literal argument among the attribute arguments `cs`.
pub open spec fn string_in_args(t: SyntaxTree, cs: Seq<usize>) -> Option<Seq<char>>
    decreases cs.len(),
{
    if cs.len() == 0 {
        None
    } else {
        let r = if t.kind_of(cs[0] as int) == "attribute_argument"@ {
            string_in(t, t.children_of(cs[0] as int))
        } else {
            None
        };
        if r is Some {
            r
        } else {
            string_in_args(t, cs.drop_first())
        }
    }
}

/// The first string literal argument among the argument lists `cs`.
pub open spec fn string_in_lists(t: SyntaxTree, cs: Seq<usize>) -> Option<Seq<char>>
    decreases cs.len(),
{
    if cs.len() == 0 {
        None
    } else {
        let r = if t.kind_of(cs[0] as int) == "attribute_argument_list"@ {
            string_in_args(t, t.children_of(cs[0] as int))
        } else {
            None
        };
        if r is Some {
            r
        } else {
            string_in_lists(t, cs.drop_first())
        }
    }
}

/// The first string literal argument of attribute node `i`.
pub open spec fn string_argument(t: SyntaxTree, i: int) -> Option<Seq<char>> {
    string_in_lists(t, t.children_of(i))
}

/// Among the attributes `cs`, the argument of the first `Route` one
/// (`Some` of its argument, which may be absent), if there is one.
pub open spec fn route_in_attrs(t: SyntaxTree, cs: Seq<usize>) -> Option<Option<Seq<char>>>
    decreases cs.len(),
{
    if cs.len() == 0 {
        None
    } else if t.kind_of(cs[0] as int) == "attribute"@ && first_child_text(t, cs[0] as int) == Some("Route"@) {
        Some(string_argument(t, cs[0] as int))
    } else {
        route_in_attrs(t, cs.drop_first())
    }
}

/// Among the attribute lists `cs`, the first `Route` attribute's argument.
pub open spec fn route_in_lists(t: SyntaxTree, cs: Seq<usize>) -> Option<Option<Seq<char>>>
    decreases cs.len(),
{
    if cs.len() == 0 {
        None
    } else {
        let r = if t.kind_of(cs[0] as int) == "attribute_list"@ {
            route_in_attrs(t, t.children_of(cs[0] as int))
        } else {
            None
        };
        if r is Some {
            r
        } else {
            route_in_lists(t, cs.drop_first())
        }
    }
}

/// The base route of class node `i`: the argument of its first `Route`
/// attribute.
pub open spec fn route_attribute(t: SyntaxTree, i: int) -> Option<Seq<char>> {
    match route_in_lists(t, t.children_of(i)) {
        Some(r) => r,
        None => None,
    }
}

/// The HTTP method of an attribute name.
pub open spec fn http_verb(name: Option<Seq<char>>) -> Option<Seq<char>> {
    match name {
        Some(n) => if n == "HttpGet"@ {
            Some("GET"@)
        } else if n == "HttpPost"@ {
            Some("POST"@)
        } else if n == "HttpPut"@ {
            Some("PUT"@)
        } else if n == "HttpDelete"@ {
            Some("DELETE"@)
        } else if n == "HttpPatch"@ {
            Some("PATCH"@)
        } else {
            None
        },
        None => None,
    }
}

/// The HTTP method attributes among the attributes `cs`, each with its
/// route argument.
pub open spec fn verbs_in_attrs(t: SyntaxTree, cs: Seq<usize>) -> Seq<(Seq<char>, Option<Seq<char>>)>
    decreases cs.len(),
{
    if cs.len() == 0 {
        Seq::empty()
    } else {
        let c = cs.last() as int;
        verbs_in_attrs(t, cs.drop_last()) + if t.kind_of(c) == "attribute"@ && http_verb(first_child_text(t, c)) is Some {
            seq![(http_verb(first_child_text(t, c)).unwrap(), string_argument(t, c))]
        } else {
            Seq::empty()
        }
    }
}

/// The HTTP method attributes in the attribute lists among `cs`.
pub open spec fn verbs_in_lists(t: SyntaxTree, cs: Seq<usize>) -> Seq<(Seq<char>, Option<Seq<char>>)>
    decreases cs.len(),
{
    if cs.len() == 0 {
        Seq::empty()
    } else {
        let c = cs.last() as int;
        verbs_in_lists(t, cs.drop_last()) + if t.kind_of(c) == "attribute_list"@ {
            verbs_in_attrs(t, t.children_of(c))
        } else {
            Seq::empty()
        }
    }
}

/// The HTTP methods of method node `i` with their routes; `GET` without a
/// route when it has none.
pub open spec fn http_attributes(t: SyntaxTree, i: int) -> Seq<(Seq<char>, Option<Seq<char>>)> {
    let r = verbs_in_lists(t, t.children_of(i));
    if r.len() == 0 {
        seq![("GET"@, None)]
    } else {
        r
    }
}

/// Class node `i` named `name` is a controller: its name ends with
/// `Controller`, or its base list names `Controller` or `ControllerBase`.
pub open spec fn is_controller(t: SyntaxTree, i: int, name: Seq<char>) -> bool {
    is_suffix("Controller"@, name) || exists|k: int, j: int|
        0 <= k < t.children_of(i).len() && t.kind_of(#[trigger] t.children_of(i)[k] as int) == "base_list"@ && 0 <= j
            < t.children_of(t.children_of(i)[k] as int).len() && controller_base_name(
            t,
            #[trigger] t.children_of(t.children_of(i)[k] as int)[j] as int,
        )
}

/// Node `b` is the identifier `Controller` or `ControllerBase`.
pub open spec fn controller_base_name(t: SyntaxTree, b: int) -> bool {
    t.kind_of(b) == "identifier"@ && (text_at(t, b) == Some("Controller"@) || text_at(t, b) == Some(
        "ControllerBase"@,
    ))
}

/// A child of node `i` is below `i` in the arena.
pub proof fn lemma_child_below(t: SyntaxTree, i: int, k: int)
    requires
        t.wf(),
        0 <= i < t.nodes@.len(),
        0 <= k < t.children_of(i).len(),
    ensures
        t.children_of(i)[k] < i,
{
    assert(t.nodes@[i].children@[k] < i);
}

/// The text of node `c`.
pub fn text_of_node(t: &SyntaxTree, c: usize) -> (r: Option<String>)
    requires
        c < t.nodes@.len(),
    ensures
        text_view(r) == text_at(*t, c as int),
{
    match &t.nodes[c].text {
        Some(s) => Some(s.clone()),
        None => None,
    }
}

/// Whether the text of node `c` is `s`.
fn text_is(t: &SyntaxTree, c: usize, s: &str) -> (r: bool)
    requires
        c < t.nodes@.len(),
    ensures
        r == (text_at(*t, c as int) == Some(s@)),
{
    match &t.nodes[c].text {
        Some(x) => str_eq(x.as_str(), s),
        None => false,
    }
}

/// The text of the first child of node `i`.
fn first_child_text_exec(t: &SyntaxTree, i: usize) -> (r: Option<String>)
    requires
        t.wf(),
        i < t.nodes@.len(),
    ensures
        text_view(r) == first_child_text(*t, i as int),
{
    if t.nodes[i].children.len() > 0 {
        proof {
            lemma_child_below(*t, i as int, 0);
        }
        text_of_node(t, t.nodes[i].children[0])
    } else {
        None
    }
}

/// The content of string literal node `i`.
pub fn string_content_exec(t: &SyntaxTree, i: usize) -> (r: Option<String>)
    requires
        t.wf(),
        i < t.nodes@.len(),
    ensures
        text_view(r) == string_content(*t, i as int),
{
    let cs = &t.nodes[i].children;
    let mut k: usize = 0;
    assert(cs@.subrange(0, cs@.len() as int) =~= cs@);
    while k < cs.len()
        invariant
            t.wf(),
            i < t.nodes@.len(),
            cs@ == t.children_of(i as int),
            k <= cs@.len(),
            first_of_kind(*t, cs@, "string_literal_content"@) == first_of_kind(
                *t,
                cs@.subrange(k as int, cs@.len() as int),
                "string_literal_content"@,
            ),
        decreases cs.len() - k,
    {
        assert(cs@.subrange(k as int, cs@.len() as int).drop_first() =~= cs@.subrange(k + 1, cs@.len() as int));
        proof {
            lemma_child_below(*t, i as int, k as int);
        }
        let c = cs[k];
        if str_eq(t.nodes[c].kind.as_str(), "string_literal_content") {
            return text_of_node(t, c);
        }
        k = k + 1;
    }
    None
}

/// The first string literal with content among the children of node `i`.
fn string_in_exec(t: &SyntaxTree, i: usize) -> (r: Option<String>)
    requires
        t.wf(),
        i < t.nodes@.len(),
    ensures
        text_view(r) == string_in(*t, t.children_of(i as int)),
{
    let cs = &t.nodes[i].children;
    let mut k: usize = 0;
    assert(cs@.subrange(0, cs@.len() as int) =~= cs@);
    while k < cs.len()
        invariant
            t.wf(),
            i < t.nodes@.len(),
            cs@ == t.children_of(i as int),
            k <= cs@.len(),
            string_in(*t, cs@) == string_in(*t, cs@.subrange(k as int, cs@.len() as int)),
        decreases cs.len() - k,
    {
        assert(cs@.subrange(k as int, cs@.len() as int).drop_first() =~= cs@.subrange(k + 1, cs@.len() as int));
        proof {
            lemma_child_below(*t, i as int, k as int);
        }
        let c = cs[k];
        if str_eq(t.nodes[c].kind.as_str(), "string_literal") {
            let content = string_content_exec(t, c);
            if content.is_some() {
                return content;
            }
        }
        k = k + 1;
    }
    None
}

/// The first string literal argument among the attribute arguments that
/// are children of node `i`.
fn string_in_args_exec(t: &SyntaxTree, i: usize) -> (r: Option<String>)
    requires
        t.wf(),
        i < t.nodes@.len(),
    ensures
        text_view(r) == string_in_args(*t, t.children_of(i as int)),
{
    let cs = &t.nodes[i].children;
    let mut k: usize = 0;
    assert(cs@.subrange(0, cs@.len() as int) =~= cs@);
    while k < cs.len()
        invariant
            t.wf(),
            i < t.nodes@.len(),
            cs@ == t.children_of(i as int),
            k <= cs@.len(),
            string_in_args(*t, cs@) == string_in_args(*t, cs@.subrange(k as int, cs@.len() as int)),
        decreases cs.len() - k,
    {
        assert(cs@.subrange(k as int, cs@.len() as int).drop_first() =~= cs@.subrange(k + 1, cs@.len() as int));
        proof {
            lemma_child_below(*t, i as int, k as int);
        }
        let c = cs[k];
        if str_eq(t.nodes[c].kind.as_str(), "attribute_argument") {
            let r = string_in_exec(t, c);
            if r.is_some() {
                return r;
            }
        }
        k = k + 1;
    }
    None
}

/// The first string literal argument of attribute node `i`.
pub fn string_argument_exec(t: &SyntaxTree, i: usize) -> (r: Option<String>)
    requires
        t.wf(),
        i < t.nodes@.len(),
    ensures
        text_view(r) == string_argument(*t, i as int),
{
    let cs = &t.nodes[i].children;
    let mut k: usize = 0;
    assert(cs@.subrange(0, cs@.len() as int) =~= cs@);
    while k < cs.len()
        invariant
            t.wf(),
            i < t.nodes@.len(),
            cs@ == t.children_of(i as int),
            k <= cs@.len(),
            string_in_lists(*t, cs@) == string_in_lists(*t, cs@.subrange(k as int, cs@.len() as int)),
        decreases cs.len() - k,
    {
        assert(cs@.subrange(k as int, cs@.len() as int).drop_first() =~= cs@.subrange(k + 1, cs@.len() as int));
        proof {
            lemma_child_below(*t, i as int, k as int);
        }
        let c = cs[k];
        if str_eq(t.nodes[c].kind.as_str(), "attribute_argument_list") {
            let r = string_in_args_exec(t, c);
            if r.is_some() {
                return r;
            }
        }
        k = k + 1;
    }
    None
}

/// Among the attributes that are children of node `i`, the argument of the
/// first `Route` one, if there is one.
fn route_in_attrs_exec(t: &SyntaxTree, i: usize) -> (r: Option<Option<String>>)
    requires
        t.wf(),
        i < t.nodes@.len(),
    ensures
        match r {
            Some(x) => route_in_attrs(*t, t.children_of(i as int)) == Some(text_view(x)),
            None => route_in_attrs(*t, t.children_of(i as int)) is None,
        },
{
    let cs = &t.nodes[i].children;
    let mut k: usize = 0;
    assert(cs@.subrange(0, cs@.len() as int) =~= cs@);
    while k < cs.len()
        invariant
            t.wf(),
            i < t.nodes@.len(),
            cs@ == t.children_of(i as int),
            k <= cs@.len(),
            route_in_attrs(*t, cs@) == route_in_attrs(*t, cs@.subrange(k as int, cs@.len() as int)),
        decreases cs.len() - k,
    {
        assert(cs@.subrange(k as int, cs@.len() as int).drop_first() =~= cs@.subrange(k + 1, cs@.len() as int));
        proof {
            lemma_child_below(*t, i as int, k as int);
        }
        let c = cs[k];
        if str_eq(t.nodes[c].kind.as_str(), "attribute") {
            let name = first_child_text_exec(t, c);
            let is_route = match &name {
                Some(n) => str_eq(n.as_str(), "Route"),
                None => false,
            };
            if is_route {
                return Some(string_argument_exec(t, c));
            }
        }
        k = k + 1;
    }
    None
}

/// The base route of class node `i`.
pub fn route_attribute_exec(t: &SyntaxTree, i: usize) -> (r: Option<String>)
    requires
        t.wf(),
        i < t.nodes@.len(),
    ensures
        text_view(r) == route_attribute(*t, i as int),
{
    let cs = &t.nodes[i].children;
    let mut k: usize = 0;
    assert(cs@.subrange(0, cs@.len() as int) =~= cs@);
    while k < cs.len()
        invariant
            t.wf(),
            i < t.nodes@.len(),
            cs@ == t.children_of(i as int),
            k <= cs@.len(),
            route_in_lists(*t, cs@) == route_in_lists(*t, cs@.subrange(k as int, cs@.len() as int)),
        decreases cs.len() - k,
    {
        assert(cs@.subrange(k as int, cs@.len() as int).drop_first() =~= cs@.subrange(k + 1, cs@.len() as int));
        proof {
            lemma_child_below(*t, i as int, k as int);
        }
        let c = cs[k];
        if str_eq(t.nodes[c].kind.as_str(), "attribute_list") {
            match route_in_attrs_exec(t, c) {
                Some(x) => {
                    return x;
                },
                None => {},
            }
        }
        k = k + 1;
    }
    None
}

/// The HTTP method of an attribute name.
fn http_verb_exec(name: &Option<String>) -> (r: Option<String>)
    ensures
        text_view(r) == http_verb(text_view(*name)),
{
    match name {
        Some(n) => {
            let n = n.as_str();
            if str_eq(n, "HttpGet") {
                Some(String::from_str("GET"))
            } else if str_eq(n, "HttpPost") {
                Some(String::from_str("POST"))
            } else if str_eq(n, "HttpPut") {
                Some(String::from_str("PUT"))
            } else if str_eq(n, "HttpDelete") {
                Some(String::from_str("DELETE"))
            } else if str_eq(n, "HttpPatch") {
                Some(String::from_str("PATCH"))
            } else {
                None
            }
        },
        None => None,
    }
}

/// An HTTP method with its optional route, as characters.
pub open spec fn verb_view(v: (String, Option<String>)) -> (Seq<char>, Option<Seq<char>>) {
    (v.0@, text_view(v.1))
}

/// The views of a list of HTTP methods with their routes.
pub open spec fn verb_views(s: Seq<(String, Option<String>)>) -> Seq<(Seq<char>, Option<Seq<char>>)> {
    s.map_values(|v: (String, Option<String>)| verb_view(v))
}

/// Appends the HTTP method attributes among the attributes that are
/// children of node `i`.
fn verbs_in_attrs_exec(t: &SyntaxTree, i: usize, out: &mut Vec<(String, Option<String>)>)
    requires
        t.wf(),
        i < t.nodes@.len(),
    ensures
        verb_views(final(out)@) == verb_views(old(out)@) + verbs_in_attrs(*t, t.children_of(i as int)),
{
    let ghost o0 = verb_views(out@);
    let cs = &t.nodes[i].children;
    let mut k: usize = 0;
    while k < cs.len()
        invariant
            t.wf(),
            i < t.nodes@.len(),
            cs@ == t.children_of(i as int),
            k <= cs@.len(),
            verb_views(out@) == o0 + verbs_in_attrs(*t, cs@.subrange(0, k as int)),
        decreases cs.len() - k,
    {
        assert(cs@.subrange(0, k + 1).drop_last() =~= cs@.subrange(0, k as int));
        proof {
            lemma_child_below(*t, i as int, k as int);
        }
        let c = cs[k];
        let ghost ok = verb_views(out@);
        if str_eq(t.nodes[c].kind.as_str(), "attribute") {
            let name = first_child_text_exec(t, c);
            match http_verb_exec(&name) {
                Some(v) => {
                    let arg = string_argument_exec(t, c);
                    out.push((v, arg));
                    assert(verb_views(out@) =~= ok + seq![(http_verb(first_child_text(*t, c as int)).unwrap(), string_argument(*t, c as int))]);
                },
                None => {
                    assert(verb_views(out@) =~= ok + Seq::<(Seq<char>, Option<Seq<char>>)>::empty());
                },
            }
        } else {
            assert(verb_views(out@) =~= ok + Seq::<(Seq<char>, Option<Seq<char>>)>::empty());
        }
        k = k + 1;
    }
    assert(cs@.subrange(0, cs@.len() as int) =~= cs@);
}

/// The HTTP methods of method node `i` with their routes; `GET` without a
/// route when it has none.
pub fn http_attributes_exec(t: &SyntaxTree, i: usize) -> (r: Vec<(String, Option<String>)>)
    requires
        t.wf(),
        i < t.nodes@.len(),
    ensures
        verb_views(r@) == http_attributes(*t, i as int),
{
    let mut out: Vec<(String, Option<String>)> = Vec::new();
    let cs = &t.nodes[i].children;
    let mut k: usize = 0;
    assert(verb_views(out@) =~= Seq::<(Seq<char>, Option<Seq<char>>)>::empty());
    while k < cs.len()
        invariant
            t.wf(),
            i < t.nodes@.len(),
            cs@ == t.children_of(i as int),
            k <= cs@.len(),
            verb_views(out@) == verbs_in_lists(*t, cs@.subrange(0, k as int)),
        decreases cs.len() - k,
    {
        assert(cs@.subrange(0, k + 1).drop_last() =~= cs@.subrange(0, k as int));
        proof {
            lemma_child_below(*t, i as int, k as int);
        }
        let c = cs[k];
        let ghost ok = verb_views(out@);
        if str_eq(t.nodes[c].kind.as_str(), "attribute_list") {
            verbs_in_attrs_exec(t, c, &mut out);
        } else {
            assert(verb_views(out@) =~= ok + Seq::<(Seq<char>, Option<Seq<char>>)>::empty());
        }
        k = k + 1;
    }
    assert(cs@.subrange(0, cs@.len() as int) =~= cs@);
    if out.len() == 0 {
        out.push((String::from_str("GET"), None));
        assert(verb_views(out@) =~= seq![("GET"@, None::<Seq<char>>)]);
    }
    out
}

/// Whether class node `i` named `name` is a controller.
pub fn is_controller_exec(t: &SyntaxTree, i: usize, name: &str) -> (r: bool)
    requires
        t.wf(),
        i < t.nodes@.len(),
    ensures
        r == is_controller(*t, i as int, name@),
{
    if ends_with(name, "Controller") {
        return true;
    }
    let cs = &t.nodes[i].children;
    let mut k: usize = 0;
    while k < cs.len()
        invariant
            t.wf(),
            i < t.nodes@.len(),
            cs@ == t.children_of(i as int),
            k <= cs@.len(),
            forall|a: int, j: int|
                0 <= a < k && t.kind_of(#[trigger] cs@[a] as int) == "base_list"@ && 0 <= j < t.children_of(
                    cs@[a] as int,
                ).len() ==> !controller_base_name(*t, #[trigger] t.children_of(cs@[a] as int)[j] as int),
        decreases cs.len() - k,
    {
        proof {
            lemma_child_below(*t, i as int, k as int);
        }
        let c = cs[k];
        if str_eq(t.nodes[c].kind.as_str(), "base_list") {
            let bs = &t.nodes[c].children;
            let mut j: usize = 0;
            while j < bs.len()
                invariant
                    t.wf(),
                    i < t.nodes@.len(),
                    c < t.nodes@.len(),
                    c == cs@[k as int],
                    t.kind_of(c as int) == "base_list"@,
                    k < cs@.len(),
                    cs@ == t.children_of(i as int),
                    bs@ == t.children_of(c as int),
                    j <= bs@.len(),
                    forall|b: int| 0 <= b < j ==> !controller_base_name(*t, #[trigger] bs@[b] as int),
                decreases bs.len() - j,
            {
                proof {
                    lemma_child_below(*t, c as int, j as int);
                }
                let b = bs[j];
                if str_eq(t.nodes[b].kind.as_str(), "identifier") && (text_is(t, b, "Controller") || text_is(
                    t,
                    b,
                    "ControllerBase",
                )) {
                    proof {
                        let ci = t.children_of(i as int)[k as int];
                        assert(ci == c);
                        assert(t.kind_of(ci as int) == "base_list"@);
                        assert(t.children_of(ci as int)[j as int] == b);
                        assert(controller_base_name(*t, t.children_of(ci as int)[j as int] as int));
                        assert(0 <= j < t.children_of(ci as int).len());
                    }
                    return true;
                }
                j = j + 1;
            }
        }
        k = k + 1;
    }
    false
}

/// Attribute name `n` and HTTP method `v` go together: `HttpGet` with
/// `GET`, `HttpPost` with `POST`, `HttpPut` with `PUT`, `HttpDelete` with
/// `DELETE`, `HttpPatch` with `PATCH`.
pub open spec fn verb_pair(n: Option<Seq<char>>, v: Seq<char>) -> bool {
    ||| n == Some("HttpGet"@) && v == "GET"@
    ||| n == Some("HttpPost"@) && v == "POST"@
    ||| n == Some("HttpPut"@) && v == "PUT"@
    ||| n == Some("HttpDelete"@) && v == "DELETE"@
    ||| n == Some("HttpPatch"@) && v == "PATCH"@
}

/// Attribute `cs[x]` is an HTTP method attribute giving the method and
/// route argument of `e`.
pub open spec fn verb_source(t: SyntaxTree, cs: Seq<usize>, x: int, e: (Seq<char>, Option<Seq<char>>)) -> bool {
    0 <= x < cs.len() && t.kind_of(cs[x] as int) == "attribute"@ && verb_pair(first_child_text(t, cs[x] as int), e.0)
        && string_argument(t, cs[x] as int) == e.1
}

/// Some attribute among `cs` gives `e`.
pub open spec fn has_verb_source(t: SyntaxTree, cs: Seq<usize>, e: (Seq<char>, Option<Seq<char>>)) -> bool {
    exists|x: int| verb_source(t, cs, x, e)
}

proof fn lemma_verb_pair(n: Option<Seq<char>>, v: Seq<char>)
    requires
        verb_pair(n, v) || http_verb(n) == Some(v),
    ensures
        verb_pair(n, v) && http_verb(n) == Some(v),
{
    reveal_strlit("HttpGet");
    reveal_strlit("HttpPost");
    reveal_strlit("HttpPut");
    reveal_strlit("HttpDelete");
    reveal_strlit("HttpPatch");
    assert("HttpGet"@[4] != "HttpPut"@[4]);
    if verb_pair(n, v) {
        assert("HttpGet"@.len() == 7 && "HttpPost"@.len() == 8 && "HttpDelete"@.len() == 10 && "HttpPatch"@.len() == 9);
        assert("HttpPost"@ != "HttpGet"@);
        assert("HttpPatch"@ != "HttpPost"@ && "HttpPatch"@ != "HttpGet"@ && "HttpPatch"@ != "HttpPut"@ && "HttpPatch"@ != "HttpDelete"@);
        assert(http_verb(n) == Some(v));
    }
}

proof fn lemma_verbs_complete(t: SyntaxTree, cs: Seq<usize>, x: int, v: Seq<char>)
    requires
        0 <= x < cs.len(),
        t.kind_of(cs[x] as int) == "attribute"@,
        verb_pair(first_child_text(t, cs[x] as int), v),
    ensures
        verbs_in_attrs(t, cs).contains((v, string_argument(t, cs[x] as int))),
    decreases cs.len(),
{
    let pre = verbs_in_attrs(t, cs.drop_last());
    let r = verbs_in_attrs(t, cs);
    if x < cs.len() - 1 {
        assert(cs.drop_last()[x] == cs[x]);
        lemma_verbs_complete(t, cs.drop_last(), x, v);
        let y = choose|y: int| 0 <= y < pre.len() && pre[y] == (v, string_argument(t, cs[x] as int));
        assert(r[y] == pre[y]);
    } else {
        lemma_verb_pair(first_child_text(t, cs[x] as int), v);
        assert(cs.last() == cs[x]);
        assert(r[pre.len() as int] == (v, string_argument(t, cs[x] as int)));
    }
}

proof fn lemma_verbs_sound(t: SyntaxTree, cs: Seq<usize>, k: int)
    requires
        0 <= k < verbs_in_attrs(t, cs).len(),
    ensures
        exists|x: int| verb_source(t, cs, x, verbs_in_attrs(t, cs)[k]),
    decreases cs.len(),
{
    let pre = verbs_in_attrs(t, cs.drop_last());
    let r = verbs_in_attrs(t, cs);
    if k < pre.len() {
        lemma_verbs_sound(t, cs.drop_last(), k);
        let x = choose|x: int| verb_source(t, cs.drop_last(), x, pre[k]);
        assert(cs.drop_last()[x] == cs[x]);
        assert(r[k] == pre[k]);
        assert(verb_source(t, cs, x, r[k]));
    } else {
        let x = cs.len() - 1;
        assert(cs[x] == cs.last());
        assert(r[k] == (http_verb(first_child_text(t, cs[x] as int)).unwrap(), string_argument(t, cs[x] as int)));
        lemma_verb_pair(first_child_text(t, cs[x] as int), r[k].0);
        assert(verb_source(t, cs, x, r[k]));
    }
}

/// HTTP method attributes read as their methods: among the attributes `cs`,
/// an `HttpGet`, `HttpPost`, `HttpPut`, `HttpDelete` or `HttpPatch`
/// attribute gives `GET`, `POST`, `PUT`, `DELETE` or `PATCH` respectively,
/// with its route argument; and every method read comes from such an
/// attribute with that name and argument.
pub proof fn law_http_verbs(t: SyntaxTree, cs: Seq<usize>)
    ensures
        forall|x: int, v: Seq<char>|
            0 <= x < cs.len() && t.kind_of(cs[x] as int) == "attribute"@ && #[trigger] verb_pair(
                first_child_text(t, cs[x] as int),
                v,
            ) ==> verbs_in_attrs(t, cs).contains((v, string_argument(t, cs[x] as int))),
        forall|k: int|
            0 <= k < verbs_in_attrs(t, cs).len() ==> has_verb_source(t, cs, #[trigger] verbs_in_attrs(t, cs)[k]),
{
    assert forall|x: int, v: Seq<char>|
        0 <= x < cs.len() && t.kind_of(cs[x] as int) == "attribute"@ && #[trigger] verb_pair(
            first_child_text(t, cs[x] as int),
            v,
        ) implies verbs_in_attrs(t, cs).contains((v, string_argument(t, cs[x] as int))) by {
        lemma_verbs_complete(t, cs, x, v);
    }
    assert forall|k: int| 0 <= k < verbs_in_attrs(t, cs).len() implies has_verb_source(
        t,
        cs,
        #[trigger] verbs_in_attrs(t, cs)[k],
    ) by {
        lemma_verbs_sound(t, cs, k);
    }
}

/// An HTTP method attribute `a` of the attribute list `cs[l]` is read among
/// the lists `cs`.
pub(crate) proof fn lemma_lists_complete(t: SyntaxTree, cs: Seq<usize>, l: int, a: int, v: Seq<char>)
    requires
        0 <= l < cs.len(),
        t.kind_of(cs[l] as int) == "attribute_list"@,
        0 <= a < t.children_of(cs[l] as int).len(),
        t.kind_of(t.children_of(cs[l] as int)[a] as int) == "attribute"@,
        verb_pair(first_child_text(t, t.children_of(cs[l] as int)[a] as int), v),
    ensures
        verbs_in_lists(t, cs).contains((v, string_argument(t, t.children_of(cs[l] as int)[a] as int))),
        http_verb(first_child_text(t, t.children_of(cs[l] as int)[a] as int)) == Some(v),
    decreases cs.len(),
{
    let e = (v, string_argument(t, t.children_of(cs[l] as int)[a] as int));
    let pre = verbs_in_lists(t, cs.drop_last());
    let r = verbs_in_lists(t, cs);
    lemma_verb_pair(first_child_text(t, t.children_of(cs[l] as int)[a] as int), v);
    if l < cs.len() - 1 {
        assert(cs.drop_last()[l] == cs[l]);
        lemma_lists_complete(t, cs.drop_last(), l, a, v);
        let y = choose|y: int| 0 <= y < pre.len() && pre[y] == e;
        assert(r[y] == pre[y]);
    } else {
        assert(cs.last() == cs[l]);
        let inner = verbs_in_attrs(t, t.children_of(cs[l] as int));
        lemma_verbs_complete(t, t.children_of(cs[l] as int), a, v);
        let y = choose|y: int| 0 <= y < inner.len() && inner[y] == e;
        assert(r == pre + inner);
        assert(r[pre.len() + y] == inner[y]);
    }
}

} // verus!
