//! HTTP routes of a C# project: controller actions (by their `Route` and
//! `Http*` attributes) and minimal API endpoints (`MapGet(...)` and the
//! like).

use vstd::prelude::*;
use crate::text::{str_eq, string_views};
use crate::parse::syntax::{SyntaxTree, text_view, field_text, field_text_of};
use crate::parse::parser::{parse_source, parsed_from};
use crate::route::paths::{combined_path, combine_paths, with_leading_slash, ensure_leading_slash, route_text};
use crate::route::attributes::{
    text_at, first_child_text, string_content, http_attributes, http_attributes_exec, verb_views, verb_view,
    route_attribute, route_attribute_exec, is_controller, is_controller_exec, lemma_child_below, text_of_node,
    string_content_exec, verb_pair, lemma_lists_complete,
};

verus! {

/// One route: its HTTP method, full path, class, handler method, and where
/// it was found (`Controller` or `MinimalApi`).
#[derive(Debug)]
pub struct RouteEntry {
    pub http_method: String,
    pub path: String,
    pub class: String,
    pub handler: String,
    pub source: String,
}

/// A route with its strings as characters.
pub struct RouteView {
    pub http_method: Seq<char>,
    pub path: Seq<char>,
    pub class: Seq<char>,
    pub handler: Seq<char>,
    pub source: Seq<char>,
}

impl View for RouteEntry {
    type V = RouteView;

    open spec fn view(&self) -> RouteView {
        RouteView {
            http_method: self.http_method@,
            path: self.path@,
            class: self.class@,
            handler: self.handler@,
            source: self.source@,
        }
    }
}

/// The views of a list of routes.
pub open spec fn route_views(s: Seq<RouteEntry>) -> Seq<RouteView> {
    s.map_values(|r: RouteEntry| r@)
}

/// The routes found so far.
#[derive(Debug)]
pub struct RouteTable {
    pub routes: Vec<RouteEntry>,
}

impl RouteTable {
    /// An empty table.
    pub fn new() -> (r: Self)
        ensures
            r.routes@.len() == 0,
    {
        RouteTable { routes: Vec::new() }
    }

    fn add(&mut self, entry: RouteEntry)
        ensures
            route_views(final(self).routes@) == route_views(old(self).routes@).push(entry@),
    {
        let ghost r0 = self.routes@;
        self.routes.push(entry);
        assert(route_views(self.routes@) =~= route_views(r0).push(entry@));
    }
}

/// The route of handler `m` of controller `class` (base route `base`) for
/// the HTTP method and route `h`.
pub open spec fn action_route(h: (Seq<char>, Option<Seq<char>>), base: Option<Seq<char>>, class: Seq<char>, m: Seq<char>) -> RouteView {
    RouteView { http_method: h.0, path: combined_path(base, h.1), class, handler: m, source: "Controller"@ }
}

/// The routes of the action method node `c` of controller `class` with
/// base route `base`: one per HTTP method attribute.
pub open spec fn action_routes(t: SyntaxTree, c: int, class: Seq<char>, base: Option<Seq<char>>) -> Seq<RouteView> {
    match field_text(t, c, "name"@) {
        Some(m) => http_attributes(t, c).map_values(|h: (Seq<char>, Option<Seq<char>>)| action_route(h, base, class, m)),
        None => Seq::empty(),
    }
}

/// The action routes under node `i` of a controller's declarations.
pub open spec fn method_routes(t: SyntaxTree, i: int, class: Seq<char>, base: Option<Seq<char>>) -> Seq<RouteView>
    decreases i, 1nat, 0nat,
    when 0 <= i
{
    method_routes_in(t, t.children_of(i), i, class, base)
}

/// The action routes among the nodes `cs` (children of node `bound`).
pub open spec fn method_routes_in(
    t: SyntaxTree,
    cs: Seq<usize>,
    bound: int,
    class: Seq<char>,
    base: Option<Seq<char>>,
) -> Seq<RouteView>
    decreases bound, 0nat, cs.len(),
    when 0 <= bound
{
    if cs.len() == 0 {
        Seq::empty()
    } else {
        let c = cs.last() as int;
        method_routes_in(t, cs.drop_last(), bound, class, base) + if c < bound {
            if t.kind_of(c) == "method_declaration"@ {
                action_routes(t, c, class, base)
            } else {
                method_routes(t, c, class, base)
            }
        } else {
            Seq::empty()
        }
    }
}

/// The routes of the declaration lists among `cs` of controller `class`.
pub open spec fn declaration_routes(t: SyntaxTree, cs: Seq<usize>, class: Seq<char>, base: Option<Seq<char>>) -> Seq<RouteView>
    decreases cs.len(),
{
    if cs.len() == 0 {
        Seq::empty()
    } else {
        let c = cs.last() as int;
        declaration_routes(t, cs.drop_last(), class, base) + if t.kind_of(c) == "declaration_list"@ {
            method_routes(t, c, class, base)
        } else {
            Seq::empty()
        }
    }
}

/// The controller routes under node `i`: each named controller class
/// contributes its actions' routes; other nodes are searched below.
pub open spec fn controller_routes(t: SyntaxTree, i: int) -> Seq<RouteView>
    decreases i, 1nat, 0nat,
    when 0 <= i
{
    controller_routes_in(t, t.children_of(i), i)
}

/// The controller routes among the nodes `cs` (children of node `bound`).
pub open spec fn controller_routes_in(t: SyntaxTree, cs: Seq<usize>, bound: int) -> Seq<RouteView>
    decreases bound, 0nat, cs.len(),
    when 0 <= bound
{
    if cs.len() == 0 {
        Seq::empty()
    } else {
        let c = cs.last() as int;
        controller_routes_in(t, cs.drop_last(), bound) + if c < bound {
            if t.kind_of(c) == "class_declaration"@ {
                match field_text(t, c, "name"@) {
                    Some(n) => if is_controller(t, c, n) {
                        declaration_routes(t, t.children_of(c), n, route_attribute(t, c))
                    } else {
                        Seq::empty()
                    },
                    None => Seq::empty(),
                }
            } else {
                controller_routes(t, c)
            }
        } else {
            Seq::empty()
        }
    }
}

/// Appends the routes of action method node `c`.
fn add_action_routes(t: &SyntaxTree, c: usize, class: &str, base: &Option<String>, table: &mut RouteTable)
    requires
        t.wf(),
        c < t.nodes@.len(),
    ensures
        route_views(final(table).routes@) == route_views(old(table).routes@) + action_routes(
            *t,
            c as int,
            class@,
            text_view(*base),
        ),
{
    let ghost r0 = route_views(table.routes@);
    match field_text_of(t, c, "name") {
        Some(m) => {
            let verbs = http_attributes_exec(t, c);
            let ghost vv = verb_views(verbs@);
            let mut k: usize = 0;
            while k < verbs.len()
                invariant
                    vv == verb_views(verbs@),
                    k <= verbs@.len(),
                    route_views(table.routes@) == r0 + vv.subrange(0, k as int).map_values(
                        |h: (Seq<char>, Option<Seq<char>>)| action_route(h, text_view(*base), class@, m@),
                    ),
                decreases verbs.len() - k,
            {
                let ghost rk = route_views(table.routes@);
                let path = combine_paths(base, &verbs[k].1);
                let entry = RouteEntry {
                    http_method: verbs[k].0.clone(),
                    path,
                    class: String::from_str(class),
                    handler: m.clone(),
                    source: String::from_str("Controller"),
                };
                proof {
                    assert(vv[k as int] == verb_view(verbs@[k as int]));
                    assert(text_view(*base) == match base {
                        Some(b) => Some(b@),
                        None => None::<Seq<char>>,
                    });
                    assert(text_view(verbs@[k as int].1) == match &verbs@[k as int].1 {
                        Some(b) => Some(b@),
                        None => None::<Seq<char>>,
                    });
                    assert(entry@.path == combined_path(text_view(*base), vv[k as int].1));
                    assert(entry@ == action_route(vv[k as int], text_view(*base), class@, m@));
                }
                table.add(entry);
                assert(vv.subrange(0, k + 1).map_values(
                    |h: (Seq<char>, Option<Seq<char>>)| action_route(h, text_view(*base), class@, m@),
                ) =~= vv.subrange(0, k as int).map_values(
                    |h: (Seq<char>, Option<Seq<char>>)| action_route(h, text_view(*base), class@, m@),
                ).push(action_route(vv[k as int], text_view(*base), class@, m@)));
                k = k + 1;
            }
            assert(vv.subrange(0, vv.len() as int) =~= vv);
        },
        None => {
            assert(route_views(table.routes@) =~= r0 + Seq::<RouteView>::empty());
        },
    }
}

/// Appends the action routes under node `i` of a controller's
/// declarations.
fn add_method_routes(t: &SyntaxTree, i: usize, class: &str, base: &Option<String>, table: &mut RouteTable)
    requires
        t.wf(),
        i < t.nodes@.len(),
    ensures
        route_views(final(table).routes@) == route_views(old(table).routes@) + method_routes(
            *t,
            i as int,
            class@,
            text_view(*base),
        ),
    decreases i,
{
    let ghost r0 = route_views(table.routes@);
    let cs = &t.nodes[i].children;
    let mut k: usize = 0;
    while k < cs.len()
        invariant
            t.wf(),
            i < t.nodes@.len(),
            cs@ == t.children_of(i as int),
            k <= cs@.len(),
            route_views(table.routes@) == r0 + method_routes_in(*t, cs@.subrange(0, k as int), i as int, class@, text_view(*base)),
        decreases cs.len() - k,
    {
        assert(cs@.subrange(0, k + 1).drop_last() =~= cs@.subrange(0, k as int));
        proof {
            lemma_child_below(*t, i as int, k as int);
        }
        let c = cs[k];
        if str_eq(t.nodes[c].kind.as_str(), "method_declaration") {
            add_action_routes(t, c, class, base, table);
        } else {
            add_method_routes(t, c, class, base, table);
        }
        k = k + 1;
    }
    assert(cs@.subrange(0, cs@.len() as int) =~= cs@);
}

/// Appends the controller routes under node `i`.
pub fn extract_controller_routes(t: &SyntaxTree, i: usize, table: &mut RouteTable)
    requires
        t.wf(),
        i < t.nodes@.len(),
    ensures
        route_views(final(table).routes@) == route_views(old(table).routes@) + controller_routes(*t, i as int),
    decreases i,
{
    let ghost r0 = route_views(table.routes@);
    let cs = &t.nodes[i].children;
    let mut k: usize = 0;
    while k < cs.len()
        invariant
            t.wf(),
            i < t.nodes@.len(),
            cs@ == t.children_of(i as int),
            k <= cs@.len(),
            route_views(table.routes@) == r0 + controller_routes_in(*t, cs@.subrange(0, k as int), i as int),
        decreases cs.len() - k,
    {
        assert(cs@.subrange(0, k + 1).drop_last() =~= cs@.subrange(0, k as int));
        proof {
            lemma_child_below(*t, i as int, k as int);
        }
        let c = cs[k];
        let ghost rk = route_views(table.routes@);
        if str_eq(t.nodes[c].kind.as_str(), "class_declaration") {
            match field_text_of(t, c, "name") {
                Some(n) => {
                    if is_controller_exec(t, c, n.as_str()) {
                        let base = route_attribute_exec(t, c);
                        let ds = &t.nodes[c].children;
                        let mut j: usize = 0;
                        while j < ds.len()
                            invariant
                                t.wf(),
                                c < t.nodes@.len(),
                                ds@ == t.children_of(c as int),
                                j <= ds@.len(),
                                route_views(table.routes@) == rk + declaration_routes(
                                    *t,
                                    ds@.subrange(0, j as int),
                                    n@,
                                    text_view(base),
                                ),
                            decreases ds.len() - j,
                        {
                            assert(ds@.subrange(0, j + 1).drop_last() =~= ds@.subrange(0, j as int));
                            proof {
                                lemma_child_below(*t, c as int, j as int);
                            }
                            let d = ds[j];
                            if str_eq(t.nodes[d].kind.as_str(), "declaration_list") {
                                add_method_routes(t, d, n.as_str(), &base, table);
                            }
                            j = j + 1;
                        }
                        assert(ds@.subrange(0, ds@.len() as int) =~= ds@);
                    } else {
                        assert(route_views(table.routes@) =~= rk + Seq::<RouteView>::empty());
                    }
                },
                None => {
                    assert(route_views(table.routes@) =~= rk + Seq::<RouteView>::empty());
                },
            }
        } else {
            extract_controller_routes(t, c, table);
        }
        k = k + 1;
    }
    assert(cs@.subrange(0, cs@.len() as int) =~= cs@);
}

/// The name of an invocation's callee: that of its last member access
/// child with a name.
pub open spec fn invoked_name(t: SyntaxTree, cs: Seq<usize>) -> Option<Seq<char>>
    decreases cs.len(),
{
    if cs.len() == 0 {
        None
    } else {
        let c = cs.last() as int;
        if t.kind_of(c) == "member_access_expression"@ && field_text(t, c, "name"@) is Some {
            field_text(t, c, "name"@)
        } else {
            invoked_name(t, cs.drop_last())
        }
    }
}

/// The HTTP method of an endpoint mapping call.
pub open spec fn map_verb(name: Option<Seq<char>>) -> Option<Seq<char>> {
    match name {
        Some(n) => if n == "MapGet"@ {
            Some("GET"@)
        } else if n == "MapPost"@ {
            Some("POST"@)
        } else if n == "MapPut"@ {
            Some("PUT"@)
        } else if n == "MapDelete"@ {
            Some("DELETE"@)
        } else if n == "MapPatch"@ {
            Some("PATCH"@)
        } else {
            None
        },
        None => None,
    }
}

/// The string literal contents and identifiers among the nodes `cs`.
pub open spec fn argument_values(t: SyntaxTree, cs: Seq<usize>) -> Seq<Seq<char>>
    decreases cs.len(),
{
    if cs.len() == 0 {
        Seq::empty()
    } else {
        let c = cs.last() as int;
        argument_values(t, cs.drop_last()) + if t.kind_of(c) == "string_literal"@ {
            match string_content(t, c) {
                Some(v) => seq![v],
                None => Seq::empty(),
            }
        } else if t.kind_of(c) == "identifier"@ {
            match text_at(t, c) {
                Some(v) => seq![v],
                None => Seq::empty(),
            }
        } else {
            Seq::empty()
        }
    }
}

/// The values of the arguments among the nodes `cs`.
pub open spec fn values_in_arguments(t: SyntaxTree, cs: Seq<usize>) -> Seq<Seq<char>>
    decreases cs.len(),
{
    if cs.len() == 0 {
        Seq::empty()
    } else {
        let c = cs.last() as int;
        values_in_arguments(t, cs.drop_last()) + if t.kind_of(c) == "argument"@ {
            argument_values(t, t.children_of(c))
        } else {
            Seq::empty()
        }
    }
}

/// The values of the arguments in the argument lists among the nodes `cs`.
pub open spec fn values_in_lists(t: SyntaxTree, cs: Seq<usize>) -> Seq<Seq<char>>
    decreases cs.len(),
{
    if cs.len() == 0 {
        Seq::empty()
    } else {
        let c = cs.last() as int;
        values_in_lists(t, cs.drop_last()) + if t.kind_of(c) == "argument_list"@ {
            values_in_arguments(t, t.children_of(c))
        } else {
            Seq::empty()
        }
    }
}

/// The endpoint that invocation node `i` maps, if it is a `MapGet`,
/// `MapPost`, `MapPut`, `MapDelete` or `MapPatch` call with a path and a
/// handler: its HTTP method, path (starting with `/`) and handler.
pub open spec fn minimal_call(t: SyntaxTree, i: int) -> Option<(Seq<char>, Seq<char>, Seq<char>)> {
    match map_verb(invoked_name(t, t.children_of(i))) {
        Some(v) => {
            let a = values_in_lists(t, t.children_of(i));
            if a.len() < 2 {
                None
            } else {
                Some((v, with_leading_slash(a[0]), a[1]))
            }
        },
        None => None,
    }
}

/// The endpoint routes of the invocations among `cs`, in class `cls`.
pub open spec fn invocation_routes(t: SyntaxTree, cs: Seq<usize>, cls: Option<Seq<char>>) -> Seq<RouteView>
    decreases cs.len(),
{
    if cs.len() == 0 {
        Seq::empty()
    } else {
        let c = cs.last() as int;
        invocation_routes(t, cs.drop_last(), cls) + if t.kind_of(c) == "invocation_expression"@ {
            match minimal_call(t, c) {
                Some(e) => seq![
                    RouteView {
                        http_method: e.0,
                        path: e.1,
                        class: route_text(cls),
                        handler: e.2,
                        source: "MinimalApi"@,
                    },
                ],
                None => Seq::empty(),
            }
        } else {
            Seq::empty()
        }
    }
}

/// The endpoint routes under node `i`, where `outer` is the name of the
/// nearest class above it: first those of its invocation children, then
/// those under each child.
pub open spec fn minimal_routes(t: SyntaxTree, i: int, outer: Option<Seq<char>>) -> Seq<RouteView>
    decreases i, 1nat, 0nat,
    when 0 <= i
{
    let inner = if t.kind_of(i) == "class_declaration"@ {
        field_text(t, i, "name"@)
    } else {
        outer
    };
    invocation_routes(t, t.children_of(i), inner) + minimal_routes_in(t, t.children_of(i), i, inner)
}

/// The endpoint routes under the nodes `cs` (children of node `bound`).
pub open spec fn minimal_routes_in(t: SyntaxTree, cs: Seq<usize>, bound: int, cls: Option<Seq<char>>) -> Seq<RouteView>
    decreases bound, 0nat, cs.len(),
    when 0 <= bound
{
    if cs.len() == 0 {
        Seq::empty()
    } else {
        let c = cs.last() as int;
        minimal_routes_in(t, cs.drop_last(), bound, cls) + if c < bound {
            minimal_routes(t, c, cls)
        } else {
            Seq::empty()
        }
    }
}

/// The callee name of invocation node `i`.
fn invoked_name_exec(t: &SyntaxTree, i: usize) -> (r: Option<String>)
    requires
        t.wf(),
        i < t.nodes@.len(),
    ensures
        text_view(r) == invoked_name(*t, t.children_of(i as int)),
{
    let cs = &t.nodes[i].children;
    let mut r: Option<String> = None;
    let mut k: usize = 0;
    while k < cs.len()
        invariant
            t.wf(),
            i < t.nodes@.len(),
            cs@ == t.children_of(i as int),
            k <= cs@.len(),
            text_view(r) == invoked_name(*t, cs@.subrange(0, k as int)),
        decreases cs.len() - k,
    {
        assert(cs@.subrange(0, k + 1).drop_last() =~= cs@.subrange(0, k as int));
        proof {
            lemma_child_below(*t, i as int, k as int);
        }
        let c = cs[k];
        if str_eq(t.nodes[c].kind.as_str(), "member_access_expression") {
            let n = field_text_of(t, c, "name");
            if n.is_some() {
                r = n;
            }
        }
        k = k + 1;
    }
    assert(cs@.subrange(0, cs@.len() as int) =~= cs@);
    r
}

/// The HTTP method of an endpoint mapping call.
fn map_verb_exec(name: &Option<String>) -> (r: Option<&'static str>)
    ensures
        match r {
            Some(v) => map_verb(text_view(*name)) == Some(v@),
            None => map_verb(text_view(*name)) is None,
        },
{
    match name {
        Some(n) => {
            let n = n.as_str();
            if str_eq(n, "MapGet") {
                Some("GET")
            } else if str_eq(n, "MapPost") {
                Some("POST")
            } else if str_eq(n, "MapPut") {
                Some("PUT")
            } else if str_eq(n, "MapDelete") {
                Some("DELETE")
            } else if str_eq(n, "MapPatch") {
                Some("PATCH")
            } else {
                None
            }
        },
        None => None,
    }
}

/// Appends the string literal contents and identifiers among the children
/// of node `i`.
fn add_argument_values(t: &SyntaxTree, i: usize, out: &mut Vec<String>)
    requires
        t.wf(),
        i < t.nodes@.len(),
    ensures
        string_views(final(out)@) == string_views(old(out)@) + argument_values(*t, t.children_of(i as int)),
{
    let ghost o0 = string_views(out@);
    let cs = &t.nodes[i].children;
    let mut k: usize = 0;
    while k < cs.len()
        invariant
            t.wf(),
            i < t.nodes@.len(),
            cs@ == t.children_of(i as int),
            k <= cs@.len(),
            string_views(out@) == o0 + argument_values(*t, cs@.subrange(0, k as int)),
        decreases cs.len() - k,
    {
        assert(cs@.subrange(0, k + 1).drop_last() =~= cs@.subrange(0, k as int));
        proof {
            lemma_child_below(*t, i as int, k as int);
        }
        let c = cs[k];
        let ghost ok = string_views(out@);
        let ghost step = if t.kind_of(c as int) == "string_literal"@ {
            match string_content(*t, c as int) {
                Some(v) => seq![v],
                None => Seq::<Seq<char>>::empty(),
            }
        } else if t.kind_of(c as int) == "identifier"@ {
            match text_at(*t, c as int) {
                Some(v) => seq![v],
                None => Seq::<Seq<char>>::empty(),
            }
        } else {
            Seq::<Seq<char>>::empty()
        };
        let v = if str_eq(t.nodes[c].kind.as_str(), "string_literal") {
            string_content_exec(t, c)
        } else if str_eq(t.nodes[c].kind.as_str(), "identifier") {
            text_of_node(t, c)
        } else {
            None
        };
        assert(match v {
            Some(x) => step == seq![x@],
            None => step == Seq::<Seq<char>>::empty(),
        });
        match v {
            Some(x) => {
                out.push(x);
                assert(string_views(out@) =~= ok + step);
            },
            None => {
                assert(string_views(out@) =~= ok + step);
            },
        }
        assert(argument_values(*t, cs@.subrange(0, k + 1)) == argument_values(*t, cs@.subrange(0, k as int)) + step);
        assert(string_views(out@) =~= o0 + argument_values(*t, cs@.subrange(0, k + 1)));
        k = k + 1;
    }
    assert(cs@.subrange(0, cs@.len() as int) =~= cs@);
}

/// The values of the arguments of invocation node `i`.
fn call_arguments(t: &SyntaxTree, i: usize) -> (r: Vec<String>)
    requires
        t.wf(),
        i < t.nodes@.len(),
    ensures
        string_views(r@) == values_in_lists(*t, t.children_of(i as int)),
{
    let mut out: Vec<String> = Vec::new();
    let cs = &t.nodes[i].children;
    let mut k: usize = 0;
    assert(string_views(out@) =~= Seq::<Seq<char>>::empty());
    while k < cs.len()
        invariant
            t.wf(),
            i < t.nodes@.len(),
            cs@ == t.children_of(i as int),
            k <= cs@.len(),
            string_views(out@) == values_in_lists(*t, cs@.subrange(0, k as int)),
        decreases cs.len() - k,
    {
        assert(cs@.subrange(0, k + 1).drop_last() =~= cs@.subrange(0, k as int));
        proof {
            lemma_child_below(*t, i as int, k as int);
        }
        let c = cs[k];
        let ghost ok = string_views(out@);
        if str_eq(t.nodes[c].kind.as_str(), "argument_list") {
            let args = &t.nodes[c].children;
            let mut j: usize = 0;
            while j < args.len()
                invariant
                    t.wf(),
                    c < t.nodes@.len(),
                    args@ == t.children_of(c as int),
                    j <= args@.len(),
                    string_views(out@) == ok + values_in_arguments(*t, args@.subrange(0, j as int)),
                decreases args.len() - j,
            {
                assert(args@.subrange(0, j + 1).drop_last() =~= args@.subrange(0, j as int));
                proof {
                    lemma_child_below(*t, c as int, j as int);
                }
                let a = args[j];
                let ghost oj = string_views(out@);
                if str_eq(t.nodes[a].kind.as_str(), "argument") {
                    add_argument_values(t, a, &mut out);
                } else {
                    assert(string_views(out@) =~= oj + Seq::<Seq<char>>::empty());
                }
                j = j + 1;
            }
            assert(args@.subrange(0, args@.len() as int) =~= args@);
        } else {
            assert(string_views(out@) =~= ok + Seq::<Seq<char>>::empty());
        }
        k = k + 1;
    }
    assert(cs@.subrange(0, cs@.len() as int) =~= cs@);
    out
}

/// The endpoint that invocation node `i` maps, if any.
fn minimal_call_exec(t: &SyntaxTree, i: usize) -> (r: Option<(String, String, String)>)
    requires
        t.wf(),
        i < t.nodes@.len(),
    ensures
        match r {
            Some(e) => minimal_call(*t, i as int) == Some((e.0@, e.1@, e.2@)),
            None => minimal_call(*t, i as int) is None,
        },
{
    let name = invoked_name_exec(t, i);
    let verb = match map_verb_exec(&name) {
        Some(v) => v,
        None => return None,
    };
    let args = call_arguments(t, i);
    if args.len() < 2 {
        return None;
    }
    let path = ensure_leading_slash(args[0].as_str());
    Some((String::from_str(verb), path, args[1].clone()))
}

/// Appends the endpoint routes under node `i`, where `outer` is the name
/// of the nearest class above it.
fn add_minimal_routes(t: &SyntaxTree, i: usize, outer: &Option<String>, table: &mut RouteTable)
    requires
        t.wf(),
        i < t.nodes@.len(),
    ensures
        route_views(final(table).routes@) == route_views(old(table).routes@) + minimal_routes(
            *t,
            i as int,
            text_view(*outer),
        ),
    decreases i,
{
    let ghost r0 = route_views(table.routes@);
    let inner: Option<String> = if str_eq(t.nodes[i].kind.as_str(), "class_declaration") {
        field_text_of(t, i, "name")
    } else {
        match outer {
            Some(o) => Some(o.clone()),
            None => None,
        }
    };
    let class_text = match &inner {
        Some(x) => x.clone(),
        None => String::new(),
    };
    proof {
        reveal_strlit("");
    }
    assert(class_text@ == route_text(text_view(inner)));
    let cs = &t.nodes[i].children;
    let mut k: usize = 0;
    while k < cs.len()
        invariant
            t.wf(),
            i < t.nodes@.len(),
            cs@ == t.children_of(i as int),
            k <= cs@.len(),
            class_text@ == route_text(text_view(inner)),
            route_views(table.routes@) == r0 + invocation_routes(*t, cs@.subrange(0, k as int), text_view(inner)),
        decreases cs.len() - k,
    {
        assert(cs@.subrange(0, k + 1).drop_last() =~= cs@.subrange(0, k as int));
        proof {
            lemma_child_below(*t, i as int, k as int);
        }
        let c = cs[k];
        let ghost ok = route_views(table.routes@);
        if str_eq(t.nodes[c].kind.as_str(), "invocation_expression") {
            match minimal_call_exec(t, c) {
                Some(e) => {
                    let entry = RouteEntry {
                        http_method: e.0,
                        path: e.1,
                        class: class_text.clone(),
                        handler: e.2,
                        source: String::from_str("MinimalApi"),
                    };
                    table.add(entry);
                },
                None => {},
            }
        }
        assert(route_views(table.routes@) =~= r0 + invocation_routes(*t, cs@.subrange(0, k + 1), text_view(inner)));
        k = k + 1;
    }
    assert(cs@.subrange(0, cs@.len() as int) =~= cs@);
    let ghost r1 = route_views(table.routes@);
    let mut k: usize = 0;
    while k < cs.len()
        invariant
            t.wf(),
            i < t.nodes@.len(),
            cs@ == t.children_of(i as int),
            k <= cs@.len(),
            route_views(table.routes@) == r1 + minimal_routes_in(*t, cs@.subrange(0, k as int), i as int, text_view(inner)),
        decreases cs.len() - k,
    {
        assert(cs@.subrange(0, k + 1).drop_last() =~= cs@.subrange(0, k as int));
        proof {
            lemma_child_below(*t, i as int, k as int);
        }
        let c = cs[k];
        add_minimal_routes(t, c, &inner, table);
        k = k + 1;
    }
    assert(cs@.subrange(0, cs@.len() as int) =~= cs@);
    assert(text_view(inner) == if t.kind_of(i as int) == "class_declaration"@ {
        field_text(*t, i as int, "name"@)
    } else {
        text_view(*outer)
    });
}

/// Appends the minimal API endpoint routes under node `i`.
pub fn extract_minimal_api_routes(t: &SyntaxTree, i: usize, table: &mut RouteTable)
    requires
        t.wf(),
        i < t.nodes@.len(),
    ensures
        route_views(final(table).routes@) == route_views(old(table).routes@) + minimal_routes(*t, i as int, None),
{
    add_minimal_routes(t, i, &None, table);
}

/// Appends the routes of a source file, controllers first.
pub fn extract_source_routes(source: &str, table: &mut RouteTable)
    ensures
        exists|t: SyntaxTree|
            t.wf() && parsed_from(t, source@) && route_views(final(table).routes@) == route_views(old(table).routes@) + controller_routes(
                t,
                t.root as int,
            ) + minimal_routes(t, t.root as int, None),
{
    match parse_source(source) {
        Ok(t) => {
            let ghost r0 = route_views(table.routes@);
            extract_controller_routes(&t, t.root, table);
            extract_minimal_api_routes(&t, t.root, table);
            assert(route_views(table.routes@) == r0 + controller_routes(t, t.root as int) + minimal_routes(
                t,
                t.root as int,
                None,
            ));
        },
        Err(_) => {},
    }
}

/// An action's HTTP method attributes make its routes: when action method
/// node `c` (named) carries, in one of its attribute lists, an `HttpGet`,
/// `HttpPost`, `HttpPut`, `HttpDelete` or `HttpPatch` attribute, its
/// routes include one with method `GET`, `POST`, `PUT`, `DELETE` or
/// `PATCH` respectively, on the base route joined with the attribute's
/// route argument.
pub proof fn law_action_verbs(t: SyntaxTree, c: int, class: Seq<char>, base: Option<Seq<char>>, l: int, a: int, v: Seq<char>)
    requires
        field_text(t, c, "name"@) is Some,
        0 <= l < t.children_of(c).len(),
        t.kind_of(t.children_of(c)[l] as int) == "attribute_list"@,
        0 <= a < t.children_of(t.children_of(c)[l] as int).len(),
        t.kind_of(t.children_of(t.children_of(c)[l] as int)[a] as int) == "attribute"@,
        verb_pair(first_child_text(t, t.children_of(t.children_of(c)[l] as int)[a] as int), v),
    ensures
        action_routes(t, c, class, base).contains(
            RouteView {
                http_method: v,
                path: combined_path(
                    base,
                    crate::route::attributes::string_argument(t, t.children_of(t.children_of(c)[l] as int)[a] as int),
                ),
                class,
                handler: field_text(t, c, "name"@).unwrap(),
                source: "Controller"@,
            },
        ),
{
    let cs = t.children_of(c);
    let arg = crate::route::attributes::string_argument(t, t.children_of(cs[l] as int)[a] as int);
    lemma_lists_complete(t, cs, l, a, v);
    let hs = http_attributes(t, c);
    let y = choose|y: int| 0 <= y < hs.len() && hs[y] == (v, arg);
    let rs = action_routes(t, c, class, base);
    assert(rs[y] == action_route(hs[y], base, class, field_text(t, c, "name"@).unwrap()));
}

} // verus!
