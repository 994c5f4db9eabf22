//! Call graph of a compilation unit: who calls whom, and which types each
//! class constructs.

use vstd::prelude::*;
use crate::text::{str_eq, string_views, dotted, join_dot};
use crate::resolve::types::{clone_vec, names_contain, opt_view, TypeGraph, ClassInfo, has_method_named};
use crate::analysis::namemap::{NameMap, pushed_name, lemma_names_contain, union_views};
use crate::parse::syntax::{SyntaxTree, text_view, field_child, field_text, child_by_field, field_text_of};
use crate::resolve::symbols::{line_of, line_number};

verus! {

/// A method call site: who calls whom, and on what.
#[derive(Debug)]
pub struct CallSite {
    /// Which class this call belongs to
    pub caller_class: String,
    /// Which method contains this call
    pub caller_method: String,
    /// Method being called
    pub callee: String,
    /// Class that owns the callee method (resolved by the type graph)
    pub callee_class: String,
    /// The expression target (e.g., "this", "SomeClass", variable name)
    pub target_expr: String,
    /// Is this a `this.Something()` or just `Something()` call?
    pub is_self_call: bool,
    /// Is this a `new Type(args)` call?
    pub is_creation: bool,
    /// The type being constructed (if is_creation)
    pub created_type: Option<String>,
    /// Source line number (1-indexed)
    pub line: usize,
    /// Delegate method names passed as arguments (e.g. MapPost("/path", CreateItem))
    pub delegates: Vec<String>,
}

impl Clone for CallSite {
    fn clone(&self) -> (r: Self)
        ensures
            r.caller_class == self.caller_class,
            r.caller_method == self.caller_method,
            r.callee == self.callee,
            r.callee_class == self.callee_class,
            r.target_expr == self.target_expr,
            r.is_self_call == self.is_self_call,
            r.is_creation == self.is_creation,
            r.created_type == self.created_type,
            r.line == self.line,
            r.delegates@ == self.delegates@,
    {
        CallSite {
            caller_class: self.caller_class.clone(),
            caller_method: self.caller_method.clone(),
            callee: self.callee.clone(),
            callee_class: self.callee_class.clone(),
            target_expr: self.target_expr.clone(),
            is_self_call: self.is_self_call,
            is_creation: self.is_creation,
            created_type: match &self.created_type {
                Some(t) => Some(t.clone()),
                None => None,
            },
            line: self.line,
            delegates: clone_vec(&self.delegates),
        }
    }
}

/// Call graph edges for a compilation unit.
#[derive(Debug)]
pub struct CallGraph {
    /// All call sites found
    pub calls: Vec<CallSite>,
    /// Per-class: set of methods called
    pub class_callees: NameMap,
    /// Per-class: set of types constructed via `new`
    pub class_creations: NameMap,
    /// Per-method (`Class.Method`): method names called within, in order
    pub method_calls: NameMap,
    /// Per-class: the type of each `new` expression, one entry per
    /// expression, in order
    pub creation_sites: NameMap,
}

impl CallGraph {
    pub fn new() -> (r: Self)
        ensures
            r.calls@.len() == 0,
            r.class_callees.entries@.len() == 0,
            r.class_creations.entries@.len() == 0,
            r.method_calls.entries@.len() == 0,
            r.creation_sites.entries@.len() == 0,
    {
        CallGraph {
            calls: Vec::new(),
            class_callees: NameMap::new(),
            class_creations: NameMap::new(),
            method_calls: NameMap::new(),
            creation_sites: NameMap::new(),
        }
    }

    /// Add the call sites of `other` after these, its per-class callee and
    /// creation names to these (as sets), and its per-method call lists and
    /// per-class creation lists after these.
    pub fn absorb(&mut self, other: CallGraph)
        ensures
            final(self).calls@ == old(self).calls@ + other.calls@,
            forall|k: Seq<char>|
                #[trigger] string_views(final(self).class_callees.values(k)) == union_views(
                    string_views(old(self).class_callees.values(k)),
                    string_views(other.class_callees.values(k)),
                ),
            forall|k: Seq<char>|
                #[trigger] string_views(final(self).class_creations.values(k)) == union_views(
                    string_views(old(self).class_creations.values(k)),
                    string_views(other.class_creations.values(k)),
                ),
            forall|k: Seq<char>|
                #[trigger] string_views(final(self).method_calls.values(k)) == string_views(
                    old(self).method_calls.values(k),
                ) + string_views(other.method_calls.values(k)),
            forall|k: Seq<char>|
                #[trigger] string_views(final(self).creation_sites.values(k)) == string_views(
                    old(self).creation_sites.values(k),
                ) + string_views(other.creation_sites.values(k)),
    {
        let mut calls = other.calls;
        self.calls.append(&mut calls);
        self.class_callees.absorb(&other.class_callees);
        self.class_creations.absorb(&other.class_creations);
        self.method_calls.extend_from(&other.method_calls);
        self.creation_sites.extend_from(&other.creation_sites);
    }

    /// Does class `name` call any method named `method`?
    pub fn class_calls_method(&self, name: &str, method: &str) -> (r: bool)
        ensures
            r == names_contain(self.class_callees.values(name@), method@),
    {
        self.class_callees.contains(name, method)
    }

    /// Does class `name` construct type `ty` via `new`?
    pub fn class_creates_type(&self, name: &str, ty: &str) -> (r: bool)
        ensures
            r == names_contain(self.class_creations.values(name@), ty@),
    {
        self.class_creations.contains(name, ty)
    }

    /// The number of `new` expressions in class `class` that construct
    /// `ty`.
    pub fn creation_count(&self, class: &str, ty: &str) -> (r: usize)
        ensures
            r == string_views(self.creation_sites.values(class@)).filter(|x: Seq<char>| x == ty@).len(),
    {
        let mut n: usize = 0;
        match self.creation_sites.get(class) {
            Some(v) => {
                let ghost vv = string_views(v@);
                let mut i: usize = 0;
                while i < v.len()
                    invariant
                        i <= v@.len(),
                        vv == string_views(v@),
                        v@ == self.creation_sites.values(class@),
                        n == vv.subrange(0, i as int).filter(|x: Seq<char>| x == ty@).len(),
                        n <= i,
                    decreases v.len() - i,
                {
                    let ghost pre = vv.subrange(0, i + 1);
                    assert(pre.drop_last() =~= vv.subrange(0, i as int));
                    assert(pre.last() == v@[i as int]@);
                    reveal(Seq::filter);
                    if str_eq(v[i].as_str(), ty) {
                        n = n + 1;
                    }
                    i = i + 1;
                }
                assert(vv.subrange(0, vv.len() as int) =~= vv);
            },
            None => {
                assert(string_views(self.creation_sites.values(class@)) =~= Seq::<Seq<char>>::empty());
                reveal(Seq::filter);
            },
        }
        n
    }

    /// All types constructed via `new` in a class, each once, in the order
    /// they were first recorded.
    pub fn created_types(&self, class: &str) -> (r: Vec<&str>)
        ensures
            r@.map_values(|x: &str| x@) == union_views(
                Seq::empty(),
                string_views(self.class_creations.values(class@)),
            ),
    {
        let mut r: Vec<&str> = Vec::new();
        match self.class_creations.get(class) {
            Some(v) => {
                let ghost vv = string_views(v@);
                let mut i: usize = 0;
                assert(r@.map_values(|x: &str| x@) =~= union_views(Seq::empty(), vv.subrange(0, 0)));
                while i < v.len()
                    invariant
                        i <= v@.len(),
                        v@ == self.class_creations.values(class@),
                        vv == string_views(v@),
                        r@.map_values(|x: &str| x@) == union_views(Seq::empty(), vv.subrange(0, i as int)),
                    decreases v.len() - i,
                {
                    let ghost rv = r@.map_values(|x: &str| x@);
                    assert(vv.subrange(0, i + 1).drop_last() =~= vv.subrange(0, i as int));
                    assert(vv.subrange(0, i + 1).last() == v@[i as int]@);
                    let x = v[i].as_str();
                    let mut found = false;
                    let mut k: usize = 0;
                    while k < r.len()
                        invariant
                            k <= r@.len(),
                            rv == r@.map_values(|x: &str| x@),
                            found <==> exists|j: int| 0 <= j < k && rv[j] == x@,
                        decreases r.len() - k,
                    {
                        assert(rv[k as int] == r@[k as int]@);
                        if str_eq(r[k], x) {
                            found = true;
                        }
                        k = k + 1;
                    }
                    if !found {
                        r.push(x);
                        assert(r@.map_values(|x: &str| x@) =~= rv.push(x@));
                    } else {
                        proof {
                            let j = choose|j: int| 0 <= j < r@.len() && rv[j] == x@;
                            assert(rv.contains(x@));
                        }
                    }
                    proof {
                        if !found {
                            assert(!rv.contains(x@)) by {
                                if rv.contains(x@) {
                                    let j = choose|j: int| 0 <= j < rv.len() && rv[j] == x@;
                                    assert(exists|j: int| 0 <= j < k && rv[j] == x@);
                                }
                            }
                        }
                        let u = union_views(Seq::<Seq<char>>::empty(), vv.subrange(0, i as int));
                        assert(u == rv);
                        assert(union_views(Seq::<Seq<char>>::empty(), vv.subrange(0, i + 1)) == if u.contains(x@) {
                            u
                        } else {
                            u.push(x@)
                        });
                        if found {
                            assert(u.contains(x@));
                            assert(r@.map_values(|y: &str| y@) == u);
                        } else {
                            assert(r@.map_values(|y: &str| y@) == u.push(x@));
                        }
                    }
                    i = i + 1;
                }
                assert(vv.subrange(0, vv.len() as int) =~= vv);
            },
            None => {
                assert(string_views(self.class_creations.values(class@)) =~= Seq::<Seq<char>>::empty());
                assert(r@.map_values(|x: &str| x@) =~= Seq::<Seq<char>>::empty());
            },
        }
        r
    }
}

/// Builds a call graph from a syntax tree.
pub struct CallGraphBuilder;

/// A call site with its strings as characters.
pub struct CallView {
    pub caller_class: Seq<char>,
    pub caller_method: Seq<char>,
    pub callee: Seq<char>,
    pub callee_class: Seq<char>,
    pub target_expr: Seq<char>,
    pub is_self_call: bool,
    pub is_creation: bool,
    pub created_type: Option<Seq<char>>,
    pub line: usize,
    pub delegates: Seq<Seq<char>>,
}

impl View for CallSite {
    type V = CallView;

    open spec fn view(&self) -> CallView {
        CallView {
            caller_class: self.caller_class@,
            caller_method: self.caller_method@,
            callee: self.callee@,
            callee_class: self.callee_class@,
            target_expr: self.target_expr@,
            is_self_call: self.is_self_call,
            is_creation: self.is_creation,
            created_type: opt_view(self.created_type),
            line: self.line,
            delegates: string_views(self.delegates@),
        }
    }
}

/// The views of a list of call sites.
pub open spec fn call_views(s: Seq<CallSite>) -> Seq<CallView> {
    s.map_values(|c: CallSite| c@)
}

/// What is read off an invocation's children: the callee, the target
/// expression, whether it is a call on `this`, and an object creation.
pub struct CallParts {
    pub callee: Seq<char>,
    pub target: Seq<char>,
    pub is_self: bool,
    pub is_creation: bool,
    pub created: Option<Seq<char>>,
}

/// `old` replaced by `t` when there is one.
pub open spec fn set_text(old: Seq<char>, t: Option<Seq<char>>) -> Seq<char> {
    match t {
        Some(x) => x,
        None => old,
    }
}

/// The text of node `c`.
pub open spec fn node_text(t: SyntaxTree, c: int) -> Option<Seq<char>> {
    text_view(t.nodes@[c].text)
}

/// The text of the last identifier among `cs` that has text.
pub open spec fn last_ident(t: SyntaxTree, cs: Seq<usize>) -> Option<Seq<char>>
    decreases cs.len(),
{
    if cs.len() == 0 {
        None
    } else if t.kind_of(cs.last() as int) == "identifier"@ && node_text(t, cs.last() as int) is Some {
        node_text(t, cs.last() as int)
    } else {
        last_ident(t, cs.drop_last())
    }
}

/// `this` and `this_expression` nodes.
pub open spec fn is_this(k: Seq<char>) -> bool {
    k == "this"@ || k == "this_expression"@
}

/// Reads a `?.` access: the member binding gives the callee, an identifier
/// or `this` before it the target.
pub open spec fn cond_access_parts(p: CallParts, t: SyntaxTree, cs: Seq<usize>) -> CallParts
    decreases cs.len(),
{
    if cs.len() == 0 {
        p
    } else {
        let q = cond_access_parts(p, t, cs.drop_last());
        let c = cs.last() as int;
        if t.kind_of(c) == "member_binding_expression"@ {
            CallParts { callee: set_text(q.callee, last_ident(t, t.children_of(c))), ..q }
        } else if t.kind_of(c) == "identifier"@ || t.kind_of(c) == "this_expression"@ {
            CallParts {
                target: set_text(q.target, node_text(t, c)),
                is_self: q.is_self || t.kind_of(c) == "this_expression"@,
                ..q
            }
        } else {
            q
        }
    }
}

/// Reads the `function` (or `name`) child `c` of an invocation.
pub open spec fn function_parts(p: CallParts, t: SyntaxTree, c: int) -> CallParts {
    if t.kind_of(c) == "member_access_expression"@ {
        match field_child(t, c, "expression"@) {
            Some(e) => CallParts {
                callee: set_text(p.callee, field_text(t, c, "name"@)),
                target: set_text(p.target, node_text(t, e as int)),
                is_self: p.is_self || is_this(t.kind_of(e as int)),
                ..p
            },
            None => CallParts { callee: set_text(p.callee, field_text(t, c, "name"@)), ..p },
        }
    } else if t.kind_of(c) == "conditional_access_expression"@ {
        cond_access_parts(p, t, t.children_of(c))
    } else {
        CallParts { callee: set_text(p.callee, node_text(t, c)), ..p }
    }
}

/// Reads the `expression` child `c` of an invocation.
pub open spec fn expression_parts(p: CallParts, t: SyntaxTree, c: int) -> CallParts {
    let is_new = t.kind_of(c) == "object_creation_expression"@;
    CallParts {
        target: set_text(p.target, node_text(t, c)),
        is_self: p.is_self || t.kind_of(c) == "this_expression"@,
        is_creation: p.is_creation || is_new,
        created: if is_new {
            match last_ident(t, t.children_of(c)) {
                Some(x) => Some(x),
                None => p.created,
            }
        } else {
            p.created
        },
        ..p
    }
}

/// Reads the children `cs` of an invocation in order.
pub open spec fn call_parts(t: SyntaxTree, cs: Seq<usize>) -> CallParts
    decreases cs.len(),
{
    if cs.len() == 0 {
        CallParts { callee: Seq::empty(), target: Seq::empty(), is_self: false, is_creation: false, created: None }
    } else {
        let p = call_parts(t, cs.drop_last());
        let c = cs.last() as int;
        let f = text_view(t.nodes@[c].field);
        if f == Some("function"@) || f == Some("name"@) {
            function_parts(p, t, c)
        } else if f == Some("expression"@) {
            expression_parts(p, t, c)
        } else {
            p
        }
    }
}

/// Whether the class `class` of `tg` has a method named `m`.
pub open spec fn class_has_method(tg: TypeGraph, class: Seq<char>, m: Seq<char>) -> bool {
    match tg.lookup_class(class) {
        Some(c) => has_method_named(c.methods@, m),
        None => false,
    }
}

/// The identifiers among the children `cs` of an argument that name a
/// method of the caller's class.
pub open spec fn arg_delegates(t: SyntaxTree, cs: Seq<usize>, tg: TypeGraph, class: Seq<char>) -> Seq<Seq<char>>
    decreases cs.len(),
{
    if cs.len() == 0 {
        Seq::empty()
    } else {
        let r = arg_delegates(t, cs.drop_last(), tg, class);
        let c = cs.last() as int;
        if t.kind_of(c) == "identifier"@ && node_text(t, c) is Some && class_has_method(
            tg,
            class,
            node_text(t, c).unwrap(),
        ) {
            r.push(node_text(t, c).unwrap())
        } else {
            r
        }
    }
}

/// The delegates among the arguments `cs` of an argument list.
pub open spec fn list_delegates(t: SyntaxTree, cs: Seq<usize>, tg: TypeGraph, class: Seq<char>) -> Seq<Seq<char>>
    decreases cs.len(),
{
    if cs.len() == 0 {
        Seq::empty()
    } else {
        let r = list_delegates(t, cs.drop_last(), tg, class);
        let c = cs.last() as int;
        if t.kind_of(c) == "argument"@ {
            r + arg_delegates(t, t.children_of(c), tg, class)
        } else {
            r
        }
    }
}

/// The delegates passed in the argument lists among `cs`: method names of
/// the caller's class given as arguments.
pub open spec fn call_delegates(t: SyntaxTree, cs: Seq<usize>, tg: TypeGraph, class: Seq<char>) -> Seq<Seq<char>>
    decreases cs.len(),
{
    if cs.len() == 0 {
        Seq::empty()
    } else {
        let r = call_delegates(t, cs.drop_last(), tg, class);
        let c = cs.last() as int;
        if t.kind_of(c) == "argument_list"@ {
            r + list_delegates(t, t.children_of(c), tg, class)
        } else {
            r
        }
    }
}

/// The first class of `cs` with a method named `m`.
pub open spec fn first_class_with_method(cs: Seq<ClassInfo>, m: Seq<char>) -> Option<Seq<char>>
    decreases cs.len(),
{
    if cs.len() == 0 {
        None
    } else if has_method_named(cs[0].methods@, m) {
        Some(cs[0].name@)
    } else {
        first_class_with_method(cs.drop_first(), m)
    }
}

/// The class the callee belongs to: for a call on `this` or with no target,
/// the caller's class when it has the method, else the first class that
/// has it; for `Class.Method()`, that class; otherwise empty.
pub open spec fn callee_class_of(tg: TypeGraph, caller_class: Seq<char>, p: CallParts) -> Seq<char> {
    if p.is_self || p.target.len() == 0 {
        if class_has_method(tg, caller_class, p.callee) {
            caller_class
        } else {
            match first_class_with_method(tg.classes@, p.callee) {
                Some(n) => n,
                None => Seq::empty(),
            }
        }
    } else if tg.has_class(p.target) {
        p.target
    } else {
        Seq::empty()
    }
}

/// The call site of the invocation node `i` inside `caller_class.caller_method`
/// (none when no callee is found).
pub open spec fn call_view_of(
    t: SyntaxTree,
    i: int,
    caller_class: Seq<char>,
    caller_method: Seq<char>,
    tg: TypeGraph,
) -> Option<CallView> {
    let p = call_parts(t, t.children_of(i));
    if p.callee.len() == 0 {
        None
    } else {
        Some(
            CallView {
                caller_class,
                caller_method,
                callee: p.callee,
                callee_class: callee_class_of(tg, caller_class, p),
                target_expr: p.target,
                is_self_call: p.is_self,
                is_creation: p.is_creation,
                created_type: p.created,
                line: line_of(t.nodes@[i].start_row),
                delegates: call_delegates(t, t.children_of(i), tg, caller_class),
            },
        )
    }
}

/// The parts of an invocation being read.
struct Parts {
    callee: String,
    target: String,
    is_self: bool,
    is_creation: bool,
    created: Option<String>,
}

impl View for Parts {
    type V = CallParts;

    closed spec fn view(&self) -> CallParts {
        CallParts {
            callee: self.callee@,
            target: self.target@,
            is_self: self.is_self,
            is_creation: self.is_creation,
            created: opt_view(self.created),
        }
    }
}

/// Replaces `old` by the text of node `c` when it has one.
fn set_from_node(dst: &mut String, t: &SyntaxTree, c: usize)
    requires
        c < t.nodes@.len(),
    ensures
        final(dst)@ == set_text(old(dst)@, node_text(*t, c as int)),
{
    match &t.nodes[c].text {
        Some(x) => {
            *dst = x.clone();
        },
        None => {},
    }
}

/// The text of the last identifier child of `i` that has text.
fn last_ident_exec(t: &SyntaxTree, i: usize) -> (r: Option<String>)
    requires
        t.wf(),
        i < t.nodes@.len(),
    ensures
        opt_view(r) == last_ident(*t, t.children_of(i as int)),
{
    let cs = &t.nodes[i].children;
    let mut r: Option<String> = None;
    let mut j: usize = 0;
    while j < cs.len()
        invariant
            t.wf(),
            i < t.nodes@.len(),
            cs@ == t.children_of(i as int),
            j <= cs@.len(),
            opt_view(r) == last_ident(*t, cs@.subrange(0, j as int)),
        decreases cs.len() - j,
    {
        let ghost pre = cs@.subrange(0, j + 1);
        assert(pre.drop_last() =~= cs@.subrange(0, j as int));
        let c = cs[j];
        assert(c < i) by {
            assert(t.nodes@[i as int].children@[j as int] == c);
        }
        if str_eq(t.nodes[c].kind.as_str(), "identifier") {
            match &t.nodes[c].text {
                Some(x) => {
                    r = Some(x.clone());
                },
                None => {},
            }
        }
        j = j + 1;
    }
    assert(cs@.subrange(0, cs@.len() as int) =~= cs@);
    r
}

/// Reads a `?.` access node `c`.
fn cond_access_exec(p: &mut Parts, t: &SyntaxTree, c: usize)
    requires
        t.wf(),
        c < t.nodes@.len(),
    ensures
        final(p)@ == cond_access_parts(old(p)@, *t, t.children_of(c as int)),
{
    let ghost p0 = p@;
    let cs = &t.nodes[c].children;
    let mut j: usize = 0;
    while j < cs.len()
        invariant
            t.wf(),
            c < t.nodes@.len(),
            cs@ == t.children_of(c as int),
            j <= cs@.len(),
            p@ == cond_access_parts(p0, *t, cs@.subrange(0, j as int)),
        decreases cs.len() - j,
    {
        let ghost pre = cs@.subrange(0, j + 1);
        assert(pre.drop_last() =~= cs@.subrange(0, j as int));
        let inner = cs[j];
        assert(inner < c) by {
            assert(t.nodes@[c as int].children@[j as int] == inner);
        }
        let k = t.nodes[inner].kind.as_str();
        if str_eq(k, "member_binding_expression") {
            match last_ident_exec(t, inner) {
                Some(x) => {
                    p.callee = x;
                },
                None => {},
            }
        } else if str_eq(k, "identifier") || str_eq(k, "this_expression") {
            set_from_node(&mut p.target, t, inner);
            if str_eq(k, "this_expression") {
                p.is_self = true;
            }
        }
        j = j + 1;
    }
    assert(cs@.subrange(0, cs@.len() as int) =~= cs@);
}

/// Reads the `function` child `c` of an invocation.
fn function_exec(p: &mut Parts, t: &SyntaxTree, c: usize)
    requires
        t.wf(),
        c < t.nodes@.len(),
    ensures
        final(p)@ == function_parts(old(p)@, *t, c as int),
{
    let k = t.nodes[c].kind.as_str();
    if str_eq(k, "member_access_expression") {
        match field_text_of(t, c, "name") {
            Some(x) => {
                p.callee = x;
            },
            None => {},
        }
        match child_by_field(t, c, "expression") {
            Some(e) => {
                set_from_node(&mut p.target, t, e);
                let ek = t.nodes[e].kind.as_str();
                if str_eq(ek, "this") || str_eq(ek, "this_expression") {
                    p.is_self = true;
                }
            },
            None => {},
        }
    } else if str_eq(k, "conditional_access_expression") {
        cond_access_exec(p, t, c);
    } else {
        set_from_node(&mut p.callee, t, c);
    }
}

/// Reads the `expression` child `c` of an invocation.
fn expression_exec(p: &mut Parts, t: &SyntaxTree, c: usize)
    requires
        t.wf(),
        c < t.nodes@.len(),
    ensures
        final(p)@ == expression_parts(old(p)@, *t, c as int),
{
    set_from_node(&mut p.target, t, c);
    let k = t.nodes[c].kind.as_str();
    if str_eq(k, "this_expression") {
        p.is_self = true;
    }
    if str_eq(k, "object_creation_expression") {
        p.is_creation = true;
        match last_ident_exec(t, c) {
            Some(x) => {
                p.created = Some(x);
            },
            None => {},
        }
    }
}

/// Reads the children of the invocation node `i`.
fn call_parts_exec(t: &SyntaxTree, i: usize) -> (r: Parts)
    requires
        t.wf(),
        i < t.nodes@.len(),
    ensures
        r@ == call_parts(*t, t.children_of(i as int)),
{
    let mut p = Parts {
        callee: String::new(),
        target: String::new(),
        is_self: false,
        is_creation: false,
        created: None,
    };
    let cs = &t.nodes[i].children;
    let mut j: usize = 0;
    assert(p@ == call_parts(*t, cs@.subrange(0, 0)));
    while j < cs.len()
        invariant
            t.wf(),
            i < t.nodes@.len(),
            cs@ == t.children_of(i as int),
            j <= cs@.len(),
            p@ == call_parts(*t, cs@.subrange(0, j as int)),
        decreases cs.len() - j,
    {
        let ghost pre = cs@.subrange(0, j + 1);
        assert(pre.drop_last() =~= cs@.subrange(0, j as int));
        let c = cs[j];
        assert(c < i) by {
            assert(t.nodes@[i as int].children@[j as int] == c);
        }
        match &t.nodes[c].field {
            Some(f) => {
                if str_eq(f.as_str(), "function") || str_eq(f.as_str(), "name") {
                    function_exec(&mut p, t, c);
                } else if str_eq(f.as_str(), "expression") {
                    expression_exec(&mut p, t, c);
                }
            },
            None => {},
        }
        j = j + 1;
    }
    assert(cs@.subrange(0, cs@.len() as int) =~= cs@);
    p
}

/// Whether class `class` of `tg` has a method named `m`.
fn class_has_method_exec(tg: &TypeGraph, class: &str, m: &str) -> (r: bool)
    ensures
        r == class_has_method(*tg, class@, m@),
{
    match tg.get_class(class) {
        Some(c) => crate::resolve::types::any_method_named(&c.methods, m),
        None => false,
    }
}

/// Appends the delegates among the children of argument `a`.
fn arg_delegates_exec(t: &SyntaxTree, a: usize, tg: &TypeGraph, class: &str, out: &mut Vec<String>)
    requires
        t.wf(),
        a < t.nodes@.len(),
    ensures
        string_views(final(out)@) == string_views(old(out)@) + arg_delegates(*t, t.children_of(a as int), *tg, class@),
{
    let ghost o = string_views(out@);
    let cs = &t.nodes[a].children;
    let mut j: usize = 0;
    while j < cs.len()
        invariant
            t.wf(),
            a < t.nodes@.len(),
            cs@ == t.children_of(a as int),
            j <= cs@.len(),
            string_views(out@) == o + arg_delegates(*t, cs@.subrange(0, j as int), *tg, class@),
        decreases cs.len() - j,
    {
        let ghost pre = cs@.subrange(0, j + 1);
        assert(pre.drop_last() =~= cs@.subrange(0, j as int));
        let c = cs[j];
        assert(c < a) by {
            assert(t.nodes@[a as int].children@[j as int] == c);
        }
        if str_eq(t.nodes[c].kind.as_str(), "identifier") {
            match &t.nodes[c].text {
                Some(x) => {
                    if class_has_method_exec(tg, class, x.as_str()) {
                        let ghost o2 = out@;
                        out.push(x.clone());
                        assert(string_views(out@) =~= string_views(o2).push(x@));
                    }
                },
                None => {},
            }
        }
        j = j + 1;
    }
    assert(cs@.subrange(0, cs@.len() as int) =~= cs@);
}

/// Appends the delegates among the arguments of list `l`.
fn list_delegates_exec(t: &SyntaxTree, l: usize, tg: &TypeGraph, class: &str, out: &mut Vec<String>)
    requires
        t.wf(),
        l < t.nodes@.len(),
    ensures
        string_views(final(out)@) == string_views(old(out)@) + list_delegates(*t, t.children_of(l as int), *tg, class@),
{
    let ghost o = string_views(out@);
    let cs = &t.nodes[l].children;
    let mut j: usize = 0;
    assert(o =~= o + list_delegates(*t, cs@.subrange(0, 0), *tg, class@));
    while j < cs.len()
        invariant
            t.wf(),
            l < t.nodes@.len(),
            cs@ == t.children_of(l as int),
            j <= cs@.len(),
            string_views(out@) == o + list_delegates(*t, cs@.subrange(0, j as int), *tg, class@),
        decreases cs.len() - j,
    {
        let ghost pre = cs@.subrange(0, j + 1);
        assert(pre.drop_last() =~= cs@.subrange(0, j as int));
        let c = cs[j];
        assert(c < l) by {
            assert(t.nodes@[l as int].children@[j as int] == c);
        }
        if str_eq(t.nodes[c].kind.as_str(), "argument") {
            let ghost before = string_views(out@);
            arg_delegates_exec(t, c, tg, class, out);
            assert(string_views(out@) =~= o + list_delegates(*t, pre, *tg, class@));
        }
        j = j + 1;
    }
    assert(cs@.subrange(0, cs@.len() as int) =~= cs@);
}

/// The delegates passed in the argument lists of invocation `i`.
fn call_delegates_exec(t: &SyntaxTree, i: usize, tg: &TypeGraph, class: &str) -> (r: Vec<String>)
    requires
        t.wf(),
        i < t.nodes@.len(),
    ensures
        string_views(r@) == call_delegates(*t, t.children_of(i as int), *tg, class@),
{
    let mut out: Vec<String> = Vec::new();
    let cs = &t.nodes[i].children;
    let mut j: usize = 0;
    assert(string_views(out@) =~= call_delegates(*t, cs@.subrange(0, 0), *tg, class@));
    while j < cs.len()
        invariant
            t.wf(),
            i < t.nodes@.len(),
            cs@ == t.children_of(i as int),
            j <= cs@.len(),
            string_views(out@) == call_delegates(*t, cs@.subrange(0, j as int), *tg, class@),
        decreases cs.len() - j,
    {
        let ghost pre = cs@.subrange(0, j + 1);
        assert(pre.drop_last() =~= cs@.subrange(0, j as int));
        let c = cs[j];
        assert(c < i) by {
            assert(t.nodes@[i as int].children@[j as int] == c);
        }
        if str_eq(t.nodes[c].kind.as_str(), "argument_list") {
            list_delegates_exec(t, c, tg, class, &mut out);
        }
        j = j + 1;
    }
    assert(cs@.subrange(0, cs@.len() as int) =~= cs@);
    out
}

/// The first class of `tg` with a method named `m`.
pub(crate) fn first_class_with_method_exec(tg: &TypeGraph, m: &str) -> (r: Option<String>)
    ensures
        opt_view(r) == first_class_with_method(tg.classes@, m@),
{
    let mut i: usize = 0;
    assert(tg.classes@.subrange(0, tg.classes@.len() as int) =~= tg.classes@);
    while i < tg.classes.len()
        invariant
            i <= tg.classes@.len(),
            first_class_with_method(tg.classes@, m@) == first_class_with_method(
                tg.classes@.subrange(i as int, tg.classes@.len() as int),
                m@,
            ),
        decreases tg.classes.len() - i,
    {
        let ghost rest = tg.classes@.subrange(i as int, tg.classes@.len() as int);
        assert(rest[0] == tg.classes@[i as int]);
        assert(rest.drop_first() =~= tg.classes@.subrange(i + 1, tg.classes@.len() as int));
        if crate::resolve::types::any_method_named(&tg.classes[i].methods, m) {
            return Some(tg.classes[i].name.clone());
        }
        i = i + 1;
    }
    None
}

impl CallGraphBuilder {
    /// The class of `tg` named `caller_class`.
    pub fn caller_class_info<'a>(type_graph: &'a TypeGraph, caller_class: &str) -> (r: Option<&'a ClassInfo>)
        ensures
            match r {
                Some(c) => type_graph.lookup_class(caller_class@) == Some(*c),
                None => type_graph.lookup_class(caller_class@) is None,
            },
    {
        type_graph.get_class(caller_class)
    }

    /// The call site of invocation node `i` made in `caller_class.caller_method`:
    /// its callee, the class that owns it, its target expression, whether it
    /// is on `this` or on a new object, the delegates passed, and its line.
    pub fn extract_call(
        t: &SyntaxTree,
        i: usize,
        caller_class: &str,
        caller_method: &str,
        type_graph: &TypeGraph,
    ) -> (r: Option<CallSite>)
        requires
            t.wf(),
            i < t.nodes@.len(),
        ensures
            match r {
                Some(c) => call_view_of(*t, i as int, caller_class@, caller_method@, *type_graph) == Some(c@),
                None => call_view_of(*t, i as int, caller_class@, caller_method@, *type_graph) is None,
            },
    {
        let p = call_parts_exec(t, i);
        let delegates = call_delegates_exec(t, i, type_graph, caller_class);
        let callee_class = if p.is_self || p.target.unicode_len() == 0 {
            if class_has_method_exec(type_graph, caller_class, p.callee.as_str()) {
                String::from_str(caller_class)
            } else {
                match first_class_with_method_exec(type_graph, p.callee.as_str()) {
                    Some(n) => n,
                    None => String::new(),
                }
            }
        } else if type_graph.contains_class(p.target.as_str()) {
            p.target.clone()
        } else {
            String::new()
        };
        if p.callee.unicode_len() == 0 {
            return None;
        }
        let site = CallSite {
            caller_class: String::from_str(caller_class),
            caller_method: String::from_str(caller_method),
            callee: p.callee,
            callee_class,
            target_expr: p.target,
            is_self_call: p.is_self,
            is_creation: p.is_creation,
            created_type: p.created,
            line: line_number(t.nodes[i].start_row),
            delegates,
        };
        Some(site)
    }
}

/// How deep the call graph walk descends.
pub const MAX_WALK_DEPTH: usize = 500;

/// The state of a call graph walk: the enclosing class and method, and what
/// was recorded so far (per-key lists of names by their characters).
pub struct BuildState {
    pub class: Seq<char>,
    pub method: Seq<char>,
    pub calls: Seq<CallView>,
    pub callees: spec_fn(Seq<char>) -> Seq<Seq<char>>,
    pub creations: spec_fn(Seq<char>) -> Seq<Seq<char>>,
    pub sites: spec_fn(Seq<char>) -> Seq<Seq<char>>,
    pub method_calls: spec_fn(Seq<char>) -> Seq<Seq<char>>,
}

/// `v` added to the set under `key`.
pub open spec fn set_insert(f: spec_fn(Seq<char>) -> Seq<Seq<char>>, key: Seq<char>, v: Seq<char>) -> spec_fn(
    Seq<char>,
) -> Seq<Seq<char>> {
    |k: Seq<char>|
        if k == key && !f(k).contains(v) {
            f(k).push(v)
        } else {
            f(k)
        }
}

/// `v` appended to the list under `key`.
pub open spec fn list_push(f: spec_fn(Seq<char>) -> Seq<Seq<char>>, key: Seq<char>, v: Seq<char>) -> spec_fn(
    Seq<char>,
) -> Seq<Seq<char>> {
    |k: Seq<char>|
        if k == key {
            f(k).push(v)
        } else {
            f(k)
        }
}

/// The identifiers among `cs` appended to the creation list of `class`.
pub open spec fn creation_pushes(
    f: spec_fn(Seq<char>) -> Seq<Seq<char>>,
    t: SyntaxTree,
    cs: Seq<usize>,
    class: Seq<char>,
) -> spec_fn(Seq<char>) -> Seq<Seq<char>>
    decreases cs.len(),
{
    if cs.len() == 0 {
        f
    } else {
        let g = creation_pushes(f, t, cs.drop_last(), class);
        let c = cs.last() as int;
        if t.kind_of(c) == "identifier"@ && node_text(t, c) is Some {
            list_push(g, class, node_text(t, c).unwrap())
        } else {
            g
        }
    }
}

/// The identifiers among `cs` added to the types created by `class`.
pub open spec fn creation_inserts(
    f: spec_fn(Seq<char>) -> Seq<Seq<char>>,
    t: SyntaxTree,
    cs: Seq<usize>,
    class: Seq<char>,
) -> spec_fn(Seq<char>) -> Seq<Seq<char>>
    decreases cs.len(),
{
    if cs.len() == 0 {
        f
    } else {
        let g = creation_inserts(f, t, cs.drop_last(), class);
        let c = cs.last() as int;
        if t.kind_of(c) == "identifier"@ && node_text(t, c) is Some {
            set_insert(g, class, node_text(t, c).unwrap())
        } else {
            g
        }
    }
}

/// Entering node `i`: a class or method declaration names the enclosing
/// class or method; inside both, an invocation records its call site, its
/// callee for the class and for the method; inside a class, an object
/// creation records the types it names.
pub open spec fn enter(st: BuildState, t: SyntaxTree, i: int, tg: TypeGraph) -> BuildState {
    let k = t.kind_of(i);
    if k == "class_declaration"@ {
        BuildState { class: set_text(st.class, field_text(t, i, "name"@)), ..st }
    } else if k == "method_declaration"@ || k == "constructor_declaration"@ {
        BuildState { method: set_text(st.method, field_text(t, i, "name"@)), ..st }
    } else if k == "invocation_expression"@ {
        if st.class.len() > 0 && st.method.len() > 0 {
            match call_view_of(t, i, st.class, st.method, tg) {
                Some(v) => BuildState {
                    calls: st.calls.push(v),
                    callees: set_insert(st.callees, st.class, v.callee),
                    method_calls: list_push(st.method_calls, dotted(st.class, st.method), v.callee),
                    ..st
                },
                None => st,
            }
        } else {
            st
        }
    } else if k == "object_creation_expression"@ {
        if st.class.len() > 0 {
            BuildState {
                creations: creation_inserts(st.creations, t, t.children_of(i), st.class),
                sites: creation_pushes(st.sites, t, t.children_of(i), st.class),
                ..st
            }
        } else {
            st
        }
    } else {
        st
    }
}

/// Leaving node `i` after its children: the root and class declarations
/// end the enclosing class, method declarations the enclosing method.
pub open spec fn leave(st: BuildState, t: SyntaxTree, i: int) -> BuildState {
    let s1 = if t.nodes@[i].depth == 0 {
        BuildState { class: Seq::empty(), ..st }
    } else {
        st
    };
    let k = t.kind_of(i);
    if k == "class_declaration"@ {
        BuildState { class: Seq::empty(), ..s1 }
    } else if k == "method_declaration"@ || k == "constructor_declaration"@ {
        BuildState { method: Seq::empty(), ..s1 }
    } else {
        s1
    }
}

/// The walk of the subtree at `i`: enter it, walk its children (only when
/// it is less than `MAX_WALK_DEPTH` deep and has some), and leave it.
pub open spec fn build_at(st: BuildState, t: SyntaxTree, i: int, tg: TypeGraph) -> BuildState
    decreases i, 1nat, 0nat,
{
    if 0 <= i < t.nodes@.len() {
        let s1 = enter(st, t, i, tg);
        if t.nodes@[i].depth < MAX_WALK_DEPTH && t.children_of(i).len() > 0 {
            leave(build_in(s1, t, t.children_of(i), i, tg), t, i)
        } else {
            s1
        }
    } else {
        st
    }
}

/// The walk of the subtrees at `cs` in order, all below `bound`.
pub open spec fn build_in(st: BuildState, t: SyntaxTree, cs: Seq<usize>, bound: int, tg: TypeGraph) -> BuildState
    decreases bound, 0nat, cs.len(),
{
    if cs.len() == 0 || bound < 0 {
        st
    } else if cs[0] < bound {
        build_in(build_at(st, t, cs[0] as int, tg), t, cs.drop_first(), bound, tg)
    } else {
        st
    }
}

/// `st` with the created types `f` and the creation lists `g`.
pub open spec fn with_creations(
    st: BuildState,
    f: spec_fn(Seq<char>) -> Seq<Seq<char>>,
    g: spec_fn(Seq<char>) -> Seq<Seq<char>>,
) -> BuildState {
    BuildState { creations: f, sites: g, ..st }
}

/// `st` with no enclosing class or method.
pub open spec fn outside_scope(st: BuildState) -> BuildState {
    BuildState { class: Seq::empty(), method: Seq::empty(), ..st }
}

/// The state at the start of a walk.
pub open spec fn initial_state() -> BuildState {
    BuildState {
        class: Seq::empty(),
        method: Seq::empty(),
        calls: Seq::empty(),
        callees: |k: Seq<char>| Seq::<Seq<char>>::empty(),
        creations: |k: Seq<char>| Seq::<Seq<char>>::empty(),
        sites: |k: Seq<char>| Seq::<Seq<char>>::empty(),
        method_calls: |k: Seq<char>| Seq::<Seq<char>>::empty(),
    }
}

/// The names under each key of a name map.
pub open spec fn name_lists(m: NameMap) -> spec_fn(Seq<char>) -> Seq<Seq<char>> {
    |k: Seq<char>| string_views(m.values(k))
}

/// The walk state a call graph and an enclosing class and method stand for.
pub open spec fn state_of(class: Seq<char>, method: Seq<char>, cg: CallGraph) -> BuildState {
    BuildState {
        class,
        method,
        calls: call_views(cg.calls@),
        callees: name_lists(cg.class_callees),
        creations: name_lists(cg.class_creations),
        sites: name_lists(cg.creation_sites),
        method_calls: name_lists(cg.method_calls),
    }
}

proof fn lemma_pushed_name(o: Seq<String>, n: Seq<String>, v: Seq<char>)
    requires
        pushed_name(o, n, v),
    ensures
        string_views(n) == string_views(o).push(v),
{
    assert forall|i: int| 0 <= i < o.len() implies n[i] == o[i] by {
        assert(n.subrange(0, o.len() as int)[i] == n[i]);
    }
    assert(string_views(n) =~= string_views(o).push(v));
}

/// Adds `v` to the set under `key` of `m`.
fn map_insert(m: &mut NameMap, key: &str, v: &str)
    ensures
        name_lists(*final(m)) == set_insert(name_lists(*old(m)), key@, v@),
{
    let ghost o = *m;
    m.insert(key, v);
    proof {
        assert forall|k: Seq<char>| #[trigger] name_lists(*m)(k) == set_insert(name_lists(o), key@, v@)(k) by {
            if k == key@ {
                lemma_names_contain(o.values(key@), v@);
                if !names_contain(o.values(key@), v@) {
                    lemma_pushed_name(o.values(key@), m.values(key@), v@);
                }
            }
        }
        assert(name_lists(*m) =~= set_insert(name_lists(o), key@, v@));
    }
}

/// Appends `v` to the list under `key` of `m`.
fn map_push(m: &mut NameMap, key: &str, v: &str)
    ensures
        name_lists(*final(m)) == list_push(name_lists(*old(m)), key@, v@),
{
    let ghost o = *m;
    m.push(key, v);
    proof {
        assert forall|k: Seq<char>| #[trigger] name_lists(*m)(k) == list_push(name_lists(o), key@, v@)(k) by {
            if k == key@ {
                lemma_pushed_name(o.values(key@), m.values(key@), v@);
            }
        }
        assert(name_lists(*m) =~= list_push(name_lists(o), key@, v@));
    }
}

/// The walk's enclosing class and method, and the graph so far.
struct BuildCtx {
    class: String,
    method: String,
    cg: CallGraph,
}

impl BuildCtx {
    closed spec fn state(self) -> BuildState {
        state_of(self.class@, self.method@, self.cg)
    }
}

/// Records the types named by the identifiers under creation node `i`.
fn record_creations(t: &SyntaxTree, i: usize, ctx: &mut BuildCtx)
    requires
        t.wf(),
        i < t.nodes@.len(),
    ensures
        final(ctx).state() == with_creations(
            old(ctx).state(),
            creation_inserts(old(ctx).state().creations, *t, t.children_of(i as int), old(ctx).class@),
            creation_pushes(old(ctx).state().sites, *t, t.children_of(i as int), old(ctx).class@),
        ),
{
    let ghost s0 = ctx.state();
    let cs = &t.nodes[i].children;
    let mut j: usize = 0;
    while j < cs.len()
        invariant
            t.wf(),
            i < t.nodes@.len(),
            cs@ == t.children_of(i as int),
            j <= cs@.len(),
            ctx.state() == with_creations(
                s0,
                creation_inserts(s0.creations, *t, cs@.subrange(0, j as int), s0.class),
                creation_pushes(s0.sites, *t, cs@.subrange(0, j as int), s0.class),
            ),
        decreases cs.len() - j,
    {
        let ghost pre = cs@.subrange(0, j + 1);
        assert(pre.drop_last() =~= cs@.subrange(0, j as int));
        let c = cs[j];
        assert(c < i) by {
            assert(t.nodes@[i as int].children@[j as int] == c);
        }
        if str_eq(t.nodes[c].kind.as_str(), "identifier") {
            match &t.nodes[c].text {
                Some(x) => {
                    map_insert(&mut ctx.cg.class_creations, ctx.class.as_str(), x.as_str());
                    map_push(&mut ctx.cg.creation_sites, ctx.class.as_str(), x.as_str());
                },
                None => {},
            }
        }
        j = j + 1;
    }
    assert(cs@.subrange(0, cs@.len() as int) =~= cs@);
}

/// Entering node `i` (see `enter`).
fn enter_exec(t: &SyntaxTree, i: usize, tg: &TypeGraph, ctx: &mut BuildCtx)
    requires
        t.wf(),
        i < t.nodes@.len(),
    ensures
        final(ctx).state() == enter(old(ctx).state(), *t, i as int, *tg),
{
    let ghost s0 = ctx.state();
    let k = t.nodes[i].kind.as_str();
    if str_eq(k, "class_declaration") {
        match field_text_of(t, i, "name") {
            Some(n) => {
                ctx.class = n;
            },
            None => {},
        }
    } else if str_eq(k, "method_declaration") || str_eq(k, "constructor_declaration") {
        match field_text_of(t, i, "name") {
            Some(n) => {
                ctx.method = n;
            },
            None => {},
        }
    } else if str_eq(k, "invocation_expression") {
        if ctx.class.unicode_len() > 0 && ctx.method.unicode_len() > 0 {
            match CallGraphBuilder::extract_call(t, i, ctx.class.as_str(), ctx.method.as_str(), tg) {
                Some(site) => {
                    let callee = site.callee.clone();
                    let ghost sv = site@;
                    let ghost c0 = ctx.cg.calls@;
                    ctx.cg.calls.push(site);
                    assert(call_views(ctx.cg.calls@) =~= call_views(c0).push(sv));
                    map_insert(&mut ctx.cg.class_callees, ctx.class.as_str(), callee.as_str());
                    let key = join_dot(ctx.class.as_str(), ctx.method.as_str());
                    map_push(&mut ctx.cg.method_calls, key.as_str(), callee.as_str());
                },
                None => {},
            }
        }
    } else if str_eq(k, "object_creation_expression") {
        if ctx.class.unicode_len() > 0 {
            record_creations(t, i, ctx);
        }
    }
}

/// Leaving node `i` (see `leave`).
fn leave_exec(t: &SyntaxTree, i: usize, ctx: &mut BuildCtx)
    requires
        i < t.nodes@.len(),
    ensures
        final(ctx).state() == leave(old(ctx).state(), *t, i as int),
{
    if t.nodes[i].depth == 0 {
        ctx.class = String::new();
    }
    let k = t.nodes[i].kind.as_str();
    if str_eq(k, "class_declaration") {
        ctx.class = String::new();
    } else if str_eq(k, "method_declaration") || str_eq(k, "constructor_declaration") {
        ctx.method = String::new();
    }
}

/// Walks the subtree at `i` (see `build_at`).
fn build_visit(t: &SyntaxTree, i: usize, tg: &TypeGraph, ctx: &mut BuildCtx)
    requires
        t.wf(),
        i < t.nodes@.len(),
    ensures
        final(ctx).state() == build_at(old(ctx).state(), *t, i as int, *tg),
    decreases i, 1nat,
{
    let ghost s0 = ctx.state();
    enter_exec(t, i, tg, ctx);
    let ghost s1 = ctx.state();
    if t.nodes[i].depth < MAX_WALK_DEPTH && t.nodes[i].children.len() > 0 {
        let cs = &t.nodes[i].children;
        let mut j: usize = 0;
        assert(cs@.subrange(0, cs@.len() as int) =~= cs@);
        while j < cs.len()
            invariant
                t.wf(),
                i < t.nodes@.len(),
                cs@ == t.children_of(i as int),
                j <= cs@.len(),
                build_in(s1, *t, cs@, i as int, *tg) == build_in(
                    ctx.state(),
                    *t,
                    cs@.subrange(j as int, cs@.len() as int),
                    i as int,
                    *tg,
                ),
            decreases cs.len() - j,
        {
            let ghost rest = cs@.subrange(j as int, cs@.len() as int);
            assert(rest[0] == cs@[j as int]);
            assert(rest.drop_first() =~= cs@.subrange(j + 1, cs@.len() as int));
            let c = cs[j];
            assert(c < i) by {
                assert(t.nodes@[i as int].children@[j as int] == c);
            }
            build_visit(t, c, tg, ctx);
            j = j + 1;
        }
        assert(cs@.subrange(cs@.len() as int, cs@.len() as int) =~= Seq::<usize>::empty());
        leave_exec(t, i, ctx);
    }
}

impl CallGraphBuilder {
    /// The call graph of a syntax tree: walks it from the root, recording
    /// the call sites of invocations made inside a class's method (with
    /// `extract_call`), the methods each class calls, the methods each
    /// `Class.Method` calls in order, and the types each class creates.
    pub fn build(t: &SyntaxTree, type_graph: &TypeGraph) -> (r: CallGraph)
        requires
            t.wf(),
        ensures
            state_of(Seq::empty(), Seq::empty(), r) == outside_scope(build_at(initial_state(), *t, t.root as int, *type_graph)),
    {
        let mut ctx = BuildCtx { class: String::new(), method: String::new(), cg: CallGraph::new() };
        proof {
            assert(call_views(ctx.cg.calls@) =~= Seq::<CallView>::empty());
            assert(name_lists(ctx.cg.class_callees) =~= initial_state().callees);
            assert(name_lists(ctx.cg.class_creations) =~= initial_state().creations);
            assert(name_lists(ctx.cg.creation_sites) =~= initial_state().sites);
            assert(name_lists(ctx.cg.method_calls) =~= initial_state().method_calls);
            assert(ctx.state() == initial_state());
        }
        build_visit(t, t.root, type_graph, &mut ctx);
        ctx.cg
    }
}

/// The callees of the calls made in the method with key `k`
/// (`Class.Method`), in order.
pub open spec fn callees_of_key(calls: Seq<CallView>, k: Seq<char>) -> Seq<Seq<char>>
    decreases calls.len(),
{
    if calls.len() == 0 {
        Seq::empty()
    } else {
        let c = calls.last();
        if dotted(c.caller_class, c.caller_method) == k {
            callees_of_key(calls.drop_last(), k).push(c.callee)
        } else {
            callees_of_key(calls.drop_last(), k)
        }
    }
}

/// The callees of the calls made in class `k`, in order.
pub open spec fn callees_of_class(calls: Seq<CallView>, k: Seq<char>) -> Seq<Seq<char>>
    decreases calls.len(),
{
    if calls.len() == 0 {
        Seq::empty()
    } else {
        let c = calls.last();
        if c.caller_class == k {
            callees_of_class(calls.drop_last(), k).push(c.callee)
        } else {
            callees_of_class(calls.drop_last(), k)
        }
    }
}

/// The per-method lists are exactly the callees of each method's calls,
/// the per-class lists exactly the distinct callees of each class's calls,
/// and no recorded callee is empty.
pub open spec fn lists_exact(st: BuildState) -> bool {
    &&& forall|k: Seq<char>| #[trigger] (st.method_calls)(k) == callees_of_key(st.calls, k)
    &&& forall|k: Seq<char>| #[trigger] (st.callees)(k) == union_views(Seq::empty(), callees_of_class(st.calls, k))
    &&& forall|j: int| 0 <= j < st.calls.len() ==> (#[trigger] st.calls[j]).callee.len() > 0
}

proof fn lemma_enter_exact(st: BuildState, t: SyntaxTree, i: int, tg: TypeGraph)
    requires
        lists_exact(st),
    ensures
        lists_exact(enter(st, t, i, tg)),
{
    let s2 = enter(st, t, i, tg);
    let k = t.kind_of(i);
    reveal_strlit("invocation_expression");
    reveal_strlit("class_declaration");
    reveal_strlit("method_declaration");
    reveal_strlit("constructor_declaration");
    reveal_strlit("object_creation_expression");
    if k == "invocation_expression"@ && st.class.len() > 0 && st.method.len() > 0 {
        if let Some(v) = call_view_of(t, i, st.class, st.method, tg) {
            let cs = st.calls.push(v);
            assert(cs.drop_last() =~= st.calls);
            assert(cs.last() == v);
            assert("invocation_expression"@.len() == 21);
            assert("class_declaration"@.len() == 17);
            assert(k != "class_declaration"@);
            assert(s2.calls == cs);
            assert(v.caller_class == st.class && v.caller_method == st.method);
            assert forall|q: Seq<char>| #[trigger] (s2.method_calls)(q) == callees_of_key(s2.calls, q) by {
            }
            assert forall|q: Seq<char>| #[trigger] (s2.callees)(q) == union_views(
                Seq::empty(),
                callees_of_class(s2.calls, q),
            ) by {
                if q == st.class {
                    let w = callees_of_class(st.calls, q);
                    let w2 = callees_of_class(s2.calls, q);
                    assert(w2 == w.push(v.callee));
                    assert(w2.drop_last() =~= w);
                    assert(w2.last() == v.callee);
                }
            }
            assert forall|j: int| 0 <= j < s2.calls.len() implies (#[trigger] s2.calls[j]).callee.len() > 0 by {
                if j < st.calls.len() {
                    assert(s2.calls[j] == st.calls[j]);
                }
            }
        }
    }
}

proof fn lemma_walk_exact(st: BuildState, t: SyntaxTree, i: int, tg: TypeGraph)
    requires
        lists_exact(st),
    ensures
        lists_exact(build_at(st, t, i, tg)),
    decreases i, 1nat, 0nat,
{
    if 0 <= i < t.nodes@.len() {
        lemma_enter_exact(st, t, i, tg);
        let s1 = enter(st, t, i, tg);
        if t.nodes@[i].depth < MAX_WALK_DEPTH && t.children_of(i).len() > 0 {
            lemma_walk_in_exact(s1, t, t.children_of(i), i, tg);
        }
    }
}

proof fn lemma_walk_in_exact(st: BuildState, t: SyntaxTree, cs: Seq<usize>, bound: int, tg: TypeGraph)
    requires
        lists_exact(st),
    ensures
        lists_exact(build_in(st, t, cs, bound, tg)),
    decreases bound, 0nat, cs.len(),
{
    if cs.len() > 0 && bound >= 0 && cs[0] < bound {
        lemma_walk_exact(st, t, cs[0] as int, tg);
        lemma_walk_in_exact(build_at(st, t, cs[0] as int, tg), t, cs.drop_first(), bound, tg);
    }
}

/// In a call graph built from a syntax tree, the list under each
/// `Class.Method` key is exactly the callees of that method's call sites,
/// in order (so the lists together hold one entry per call site); the
/// list under each class is exactly the distinct callees of its call
/// sites, in order of first call; and no call site has an empty callee.
pub proof fn law_call_lists_exact(t: SyntaxTree, tg: TypeGraph, cg: CallGraph, k: Seq<char>)
    requires
        state_of(Seq::empty(), Seq::empty(), cg) == outside_scope(build_at(initial_state(), t, t.root as int, tg)),
    ensures
        string_views(cg.method_calls.values(k)) == callees_of_key(call_views(cg.calls@), k),
        string_views(cg.class_callees.values(k)) == union_views(Seq::empty(), callees_of_class(call_views(cg.calls@), k)),
        forall|j: int| 0 <= j < cg.calls@.len() ==> (#[trigger] cg.calls@[j]).callee@.len() > 0,
{
    let s0 = initial_state();
    assert forall|q: Seq<char>| #[trigger] (s0.method_calls)(q) == callees_of_key(s0.calls, q) by {}
    assert forall|q: Seq<char>| #[trigger] (s0.callees)(q) == union_views(Seq::empty(), callees_of_class(s0.calls, q)) by {}
    assert(lists_exact(s0));
    lemma_walk_exact(s0, t, t.root as int, tg);
    let st = state_of(Seq::empty(), Seq::empty(), cg);
    assert((st.method_calls)(k) == string_views(cg.method_calls.values(k)));
    assert((st.callees)(k) == string_views(cg.class_callees.values(k)));
    assert forall|j: int| 0 <= j < cg.calls@.len() implies (#[trigger] cg.calls@[j]).callee@.len() > 0 by {
        assert(st.calls[j] == cg.calls@[j]@);
    }
}

} // verus!
