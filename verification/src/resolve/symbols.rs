//! The symbol table: classes, interfaces and their members, read from a
//! syntax tree, with base types resolved into base classes and interfaces.

use vstd::prelude::*;
use crate::text::{str_eq, joined, join, string_views};
use crate::parse::syntax::{SyntaxNode, SyntaxTree, text_view, field_child, field_text, child_by_field, field_text_of};
use crate::resolve::types::{
    ClassInfo, InterfaceInfo, MethodDescriptor, FieldDescriptor, TypeGraph, MethodView, FieldView,
    ClassView, InterfaceView, method_views, field_views, class_views, interface_views, clone_vec, opt_view,
};

verus! {

/// The 1-based line of a 0-based row.
pub open spec fn line_of(row: usize) -> usize {
    if row < usize::MAX {
        (row + 1) as usize
    } else {
        row
    }
}

/// The 1-based line of a 0-based row.
pub fn line_number(row: usize) -> (r: usize)
    ensures
        r == line_of(row),
{
    if row < usize::MAX {
        row + 1
    } else {
        row
    }
}

/// The text of node `c`, or `dflt` when it has none.
pub open spec fn text_or(t: SyntaxTree, c: int, dflt: Seq<char>) -> Seq<char> {
    match text_view(t.nodes@[c].text) {
        Some(s) => s,
        None => dflt,
    }
}

/// Some node of `cs` has text `txt`.
pub open spec fn some_text_is(t: SyntaxTree, cs: Seq<usize>, txt: Seq<char>) -> bool {
    exists|k: int| 0 <= k < cs.len() && text_view(t.nodes@[#[trigger] cs[k] as int].text) == Some(txt)
}

/// The return type written in a method declaration (`void` when there is
/// none or its text is missing).
pub open spec fn return_type_of_decl(t: SyntaxTree, i: int) -> Seq<char> {
    match field_child(t, i, "returns"@) {
        Some(r) => text_or(t, r as int, "void"@),
        None => match field_child(t, i, "return_type"@) {
            Some(r) => text_or(t, r as int, "void"@),
            None => "void"@,
        },
    }
}

/// The types of the parameters among `cs`, in order.
pub open spec fn param_types_in(t: SyntaxTree, cs: Seq<usize>) -> Seq<Seq<char>>
    decreases cs.len(),
{
    if cs.len() == 0 {
        Seq::empty()
    } else {
        let rest = param_types_in(t, cs.drop_last());
        let c = cs.last() as int;
        if t.kind_of(c) == "parameter"@ && field_text(t, c, "type"@) is Some {
            rest.push(field_text(t, c, "type"@).unwrap())
        } else {
            rest
        }
    }
}

/// The parameter types of a method declaration.
pub open spec fn param_types(t: SyntaxTree, i: int) -> Seq<Seq<char>> {
    match field_child(t, i, "parameters"@) {
        Some(p) => param_types_in(t, t.children_of(p as int)),
        None => Seq::empty(),
    }
}

/// The signature of a method: return type, name, and the parameter types
/// in brackets when there are any.
pub open spec fn signature_of(t: SyntaxTree, i: int, name: Seq<char>) -> Seq<char> {
    let ps = param_types(t, i);
    return_type_of_decl(t, i) + " "@ + name + if ps.len() == 0 {
        Seq::<char>::empty()
    } else {
        "("@ + joined(ps, ", "@) + ")"@
    }
}

/// The method a method or constructor declaration describes (none when it
/// has no name).
pub open spec fn method_view_of(t: SyntaxTree, i: int) -> Option<MethodView> {
    match field_text(t, i, "name"@) {
        Some(name) => Some(
            MethodView {
                class: Seq::empty(),
                method: name,
                signature: signature_of(t, i, name),
                is_static: some_text_is(t, t.children_of(i), "static"@),
                is_virtual: some_text_is(t, t.children_of(i), "virtual"@),
                is_abstract: some_text_is(t, t.children_of(i), "abstract"@),
                file: Seq::empty(),
                line_start: line_of(t.nodes@[i].start_row),
                line_end: line_of(t.nodes@[i].end_row),
            },
        ),
        None => None,
    }
}

/// Method and constructor declarations.
pub open spec fn is_method_decl(k: Seq<char>) -> bool {
    k == "method_declaration"@ || k == "constructor_declaration"@
}

/// The methods declared among the subtrees `cs` (all below `bound`): a
/// method or constructor declaration gives its method, any other node the
/// methods below it.
pub open spec fn collected_methods(t: SyntaxTree, cs: Seq<usize>, bound: int) -> Seq<MethodView>
    decreases bound, cs.len(),
{
    if cs.len() == 0 || bound < 0 {
        Seq::empty()
    } else if cs[0] < bound {
        let c = cs[0] as int;
        (if is_method_decl(t.kind_of(c)) {
            match method_view_of(t, c) {
                Some(v) => seq![v],
                None => Seq::empty(),
            }
        } else {
            collected_methods(t, t.children_of(c), c)
        }) + collected_methods(t, cs.drop_first(), bound)
    } else {
        Seq::empty()
    }
}

/// Whether the text of node `c` is `txt`.
fn text_is(t: &SyntaxTree, c: usize, txt: &str) -> (r: bool)
    requires
        c < t.nodes@.len(),
    ensures
        r == (text_view(t.nodes@[c as int].text) == Some(txt@)),
{
    match &t.nodes[c].text {
        Some(s) => str_eq(s.as_str(), txt),
        None => false,
    }
}

/// Whether some child of node `i` has text `txt`.
fn child_text_is(t: &SyntaxTree, i: usize, txt: &str) -> (r: bool)
    requires
        t.wf(),
        i < t.nodes@.len(),
    ensures
        r == some_text_is(*t, t.children_of(i as int), txt@),
{
    let cs = &t.nodes[i].children;
    let mut k: usize = 0;
    while k < cs.len()
        invariant
            t.wf(),
            i < t.nodes@.len(),
            cs@ == t.children_of(i as int),
            k <= cs@.len(),
            forall|j: int| 0 <= j < k ==> text_view(t.nodes@[#[trigger] cs@[j] as int].text) != Some(txt@),
        decreases cs.len() - k,
    {
        assert(cs@[k as int] < i) by {
            assert(t.nodes@[i as int].children@[k as int] == cs@[k as int]);
        }
        if text_is(t, cs[k], txt) {
            return true;
        }
        k = k + 1;
    }
    false
}

/// The text of node `c`, or `dflt`.
fn text_or_exec(t: &SyntaxTree, c: usize, dflt: &str) -> (r: String)
    requires
        c < t.nodes@.len(),
    ensures
        r@ == text_or(*t, c as int, dflt@),
{
    match &t.nodes[c].text {
        Some(s) => s.clone(),
        None => String::from_str(dflt),
    }
}

/// The parameter types of a method declaration.
fn param_types_exec(t: &SyntaxTree, i: usize) -> (r: Vec<String>)
    requires
        t.wf(),
        i < t.nodes@.len(),
    ensures
        string_views(r@) == param_types(*t, i as int),
{
    let mut r: Vec<String> = Vec::new();
    match child_by_field(t, i, "parameters") {
        Some(p) => {
            let cs = &t.nodes[p].children;
            let mut k: usize = 0;
            while k < cs.len()
                invariant
                    t.wf(),
                    p < t.nodes@.len(),
                    cs@ == t.children_of(p as int),
                    k <= cs@.len(),
                    string_views(r@) == param_types_in(*t, cs@.subrange(0, k as int)),
                decreases cs.len() - k,
            {
                let ghost pre = cs@.subrange(0, k + 1);
                assert(pre.drop_last() =~= cs@.subrange(0, k as int));
                let c = cs[k];
                assert(c < p) by {
                    assert(t.nodes@[p as int].children@[k as int] == c);
                }
                if str_eq(t.nodes[c].kind.as_str(), "parameter") {
                    match field_text_of(t, c, "type") {
                        Some(ty) => {
                            let ghost r0 = r@;
                            r.push(ty);
                            assert(string_views(r@) =~= string_views(r0).push(r@[r@.len() - 1]@));
                        },
                        None => {},
                    }
                }
                k = k + 1;
            }
            assert(cs@.subrange(0, cs@.len() as int) =~= cs@);
        },
        None => {},
    }
    r
}

/// The method described by a method or constructor declaration.
pub fn extract_method(t: &SyntaxTree, i: usize) -> (r: Option<MethodDescriptor>)
    requires
        t.wf(),
        i < t.nodes@.len(),
    ensures
        match r {
            Some(m) => method_view_of(*t, i as int) == Some(m@),
            None => method_view_of(*t, i as int) is None,
        },
{
    let name = match field_text_of(t, i, "name") {
        Some(n) => n,
        None => return None,
    };
    let return_type = match child_by_field(t, i, "returns") {
        Some(r) => text_or_exec(t, r, "void"),
        None => match child_by_field(t, i, "return_type") {
            Some(r) => text_or_exec(t, r, "void"),
            None => String::from_str("void"),
        },
    };
    let params = param_types_exec(t, i);
    let mut signature = return_type;
    signature.append(" ");
    signature.append(name.as_str());
    if params.len() > 0 {
        signature.append("(");
        let list = join(&params, ", ");
        signature.append(list.as_str());
        signature.append(")");
    }
    let md = MethodDescriptor {
        class: String::new(),
        method: name,
        signature,
        is_static: child_text_is(t, i, "static"),
        is_virtual: child_text_is(t, i, "virtual"),
        is_abstract: child_text_is(t, i, "abstract"),
        file: String::new(),
        line_start: line_number(t.nodes[i].start_row),
        line_end: line_number(t.nodes[i].end_row),
    };
    proof {
        assert(md@.signature =~= signature_of(*t, i as int, md.method@));
        assert(md@ == method_view_of(*t, i as int).unwrap());
    }
    Some(md)
}

/// Appends the methods declared below node `i` (see `collected_methods`).
fn collect_methods(t: &SyntaxTree, i: usize, out: &mut Vec<MethodDescriptor>)
    requires
        t.wf(),
        i < t.nodes@.len(),
    ensures
        method_views(final(out)@) == method_views(old(out)@) + collected_methods(*t, t.children_of(i as int), i as int),
    decreases i,
{
    let ghost o = method_views(out@);
    let cs = &t.nodes[i].children;
    let mut j: usize = 0;
    assert(cs@.subrange(0, cs@.len() as int) =~= cs@);
    while j < cs.len()
        invariant
            t.wf(),
            i < t.nodes@.len(),
            cs@ == t.children_of(i as int),
            j <= cs@.len(),
            method_views(out@) + collected_methods(*t, cs@.subrange(j as int, cs@.len() as int), i as int) == o
                + collected_methods(*t, cs@, i as int),
        decreases cs.len() - j,
    {
        let ghost rest = cs@.subrange(j as int, cs@.len() as int);
        assert(rest[0] == cs@[j as int]);
        assert(rest.drop_first() =~= cs@.subrange(j + 1, cs@.len() as int));
        let c = cs[j];
        assert(c < i) by {
            assert(t.nodes@[i as int].children@[j as int] == c);
        }
        let ghost before = method_views(out@);
        let k = t.nodes[c].kind.as_str();
        if str_eq(k, "method_declaration") || str_eq(k, "constructor_declaration") {
            match extract_method(t, c) {
                Some(md) => {
                    let ghost o2 = out@;
                    out.push(md);
                    assert(method_views(out@) =~= method_views(o2).push(md@));
                },
                None => {},
            }
        } else {
            collect_methods(t, c, out);
        }
        assert(method_views(out@) + collected_methods(*t, rest.drop_first(), i as int) =~= before
            + collected_methods(*t, rest, i as int));
        j = j + 1;
    }
    assert(method_views(out@) =~= o + collected_methods(*t, cs@, i as int));
}

/// The first of `cs` whose kind is `k`.
pub open spec fn first_of_kind(t: SyntaxTree, cs: Seq<usize>, k: Seq<char>) -> Option<usize>
    decreases cs.len(),
{
    if cs.len() == 0 {
        None
    } else if t.kind_of(cs[0] as int) == k {
        Some(cs[0])
    } else {
        first_of_kind(t, cs.drop_first(), k)
    }
}

/// The text of the first `parameter_list` among `cs` that has text (empty
/// when there is none).
pub open spec fn param_list_text(t: SyntaxTree, cs: Seq<usize>) -> Seq<char>
    decreases cs.len(),
{
    if cs.len() == 0 {
        Seq::empty()
    } else if t.kind_of(cs[0] as int) == "parameter_list"@ && text_view(t.nodes@[cs[0] as int].text) is Some {
        text_view(t.nodes@[cs[0] as int].text).unwrap()
    } else {
        param_list_text(t, cs.drop_first())
    }
}

/// The constructor that a primary parameter list declares.
pub open spec fn primary_ctor_view(t: SyntaxTree, i: int) -> MethodView {
    MethodView {
        class: Seq::empty(),
        method: ".ctor"@,
        signature: ".ctor ("@ + param_list_text(t, t.children_of(i)) + ")"@,
        is_static: false,
        is_virtual: false,
        is_abstract: false,
        file: Seq::empty(),
        line_start: line_of(t.nodes@[i].start_row),
        line_end: line_of(t.nodes@[i].start_row),
    }
}

/// Some child of `i` is a `modifier` with text `m`.
pub open spec fn has_modifier(t: SyntaxTree, i: int, m: Seq<char>) -> bool {
    exists|k: int|
        0 <= k < t.children_of(i).len() && t.kind_of(#[trigger] t.children_of(i)[k] as int) == "modifier"@
            && text_view(t.nodes@[t.children_of(i)[k] as int].text) == Some(m)
}

/// The name of a field declaration: the text of its declarator, or of the
/// first node of its declarator list (empty when there is none).
pub open spec fn field_name_of(t: SyntaxTree, c: int) -> Seq<char> {
    match field_child(t, c, "declarator"@) {
        Some(d) => text_or(t, d as int, Seq::empty()),
        None => match field_child(t, c, "declarator_list"@) {
            Some(dl) => if t.children_of(dl as int).len() > 0 {
                text_or(t, t.children_of(dl as int)[0] as int, Seq::empty())
            } else {
                Seq::empty()
            },
            None => Seq::empty(),
        },
    }
}

/// The fields declared directly among `cs` (named ones only).
pub open spec fn fields_in(t: SyntaxTree, cs: Seq<usize>) -> Seq<FieldView>
    decreases cs.len(),
{
    if cs.len() == 0 {
        Seq::empty()
    } else {
        let rest = fields_in(t, cs.drop_last());
        let c = cs.last() as int;
        let name = field_name_of(t, c);
        if t.kind_of(c) == "field_declaration"@ && name.len() > 0 {
            rest.push(
                FieldView {
                    name,
                    field_type: match field_text(t, c, "type"@) {
                        Some(x) => x,
                        None => Seq::empty(),
                    },
                    is_static: some_text_is(t, t.children_of(c), "static"@),
                    is_readonly: some_text_is(t, t.children_of(c), "readonly"@),
                },
            )
        } else {
            rest
        }
    }
}

/// The names in a base list: identifiers, and the first identifier of
/// each generic name.
pub open spec fn base_names(t: SyntaxTree, cs: Seq<usize>) -> Seq<Seq<char>>
    decreases cs.len(),
{
    if cs.len() == 0 {
        Seq::empty()
    } else {
        let rest = base_names(t, cs.drop_last());
        let c = cs.last() as int;
        if t.kind_of(c) == "identifier"@ {
            match text_view(t.nodes@[c].text) {
                Some(x) => rest.push(x),
                None => rest,
            }
        } else if t.kind_of(c) == "generic_name"@ {
            match first_of_kind(t, t.children_of(c), "identifier"@) {
                Some(id) => match text_view(t.nodes@[id as int].text) {
                    Some(x) => rest.push(x),
                    None => rest,
                },
                None => rest,
            }
        } else {
            rest
        }
    }
}

/// The base types written after a declaration's name (its first base list).
pub open spec fn base_types_of(t: SyntaxTree, i: int) -> Seq<Seq<char>> {
    match first_of_kind(t, t.children_of(i), "base_list"@) {
        Some(bl) => base_names(t, t.children_of(bl as int)),
        None => Seq::empty(),
    }
}

/// The class a class, struct or record declaration describes (none when
/// it has no name); its base types are resolved later.
pub open spec fn class_view_of(t: SyntaxTree, i: int) -> Option<ClassView> {
    match field_text(t, i, "name"@) {
        Some(name) => Some(
            ClassView {
                name,
                base_class: None,
                interfaces: Seq::empty(),
                methods: collected_methods(t, t.children_of(i), i) + if first_of_kind(
                    t,
                    t.children_of(i),
                    "parameter_list"@,
                ) is Some {
                    seq![primary_ctor_view(t, i)]
                } else {
                    Seq::empty()
                },
                fields: fields_in(t, t.children_of(i)),
                is_abstract: has_modifier(t, i, "abstract"@),
                is_sealed: has_modifier(t, i, "sealed"@),
                is_static: has_modifier(t, i, "static"@),
            },
        ),
        None => None,
    }
}

/// The first of `cs` of kind `k`.
pub(crate) fn first_of_kind_exec(t: &SyntaxTree, i: usize, k: &str) -> (r: Option<usize>)
    requires
        t.wf(),
        i < t.nodes@.len(),
    ensures
        r == first_of_kind(*t, t.children_of(i as int), k@),
        r matches Some(c) ==> c < i,
{
    let cs = &t.nodes[i].children;
    let mut j: usize = 0;
    assert(cs@.subrange(0, cs@.len() as int) =~= cs@);
    while j < cs.len()
        invariant
            t.wf(),
            i < t.nodes@.len(),
            cs@ == t.children_of(i as int),
            j <= cs@.len(),
            first_of_kind(*t, cs@, k@) == first_of_kind(*t, cs@.subrange(j as int, cs@.len() as int), k@),
        decreases cs.len() - j,
    {
        let ghost rest = cs@.subrange(j as int, cs@.len() as int);
        assert(rest[0] == cs@[j as int]);
        assert(rest.drop_first() =~= cs@.subrange(j + 1, cs@.len() as int));
        let c = cs[j];
        assert(c < i) by {
            assert(t.nodes@[i as int].children@[j as int] == c);
        }
        if str_eq(t.nodes[c].kind.as_str(), k) {
            return Some(c);
        }
        j = j + 1;
    }
    None
}

/// The text of the first primary parameter list of node `i`.
fn param_list_text_exec(t: &SyntaxTree, i: usize) -> (r: String)
    requires
        t.wf(),
        i < t.nodes@.len(),
    ensures
        r@ == param_list_text(*t, t.children_of(i as int)),
{
    let cs = &t.nodes[i].children;
    let mut j: usize = 0;
    assert(cs@.subrange(0, cs@.len() as int) =~= cs@);
    while j < cs.len()
        invariant
            t.wf(),
            i < t.nodes@.len(),
            cs@ == t.children_of(i as int),
            j <= cs@.len(),
            param_list_text(*t, cs@) == param_list_text(*t, cs@.subrange(j as int, cs@.len() as int)),
        decreases cs.len() - j,
    {
        let ghost rest = cs@.subrange(j as int, cs@.len() as int);
        assert(rest[0] == cs@[j as int]);
        assert(rest.drop_first() =~= cs@.subrange(j + 1, cs@.len() as int));
        let c = cs[j];
        assert(c < i) by {
            assert(t.nodes@[i as int].children@[j as int] == c);
        }
        if str_eq(t.nodes[c].kind.as_str(), "parameter_list") {
            match &t.nodes[c].text {
                Some(x) => {
                    return x.clone();
                },
                None => {},
            }
        }
        j = j + 1;
    }
    String::new()
}

/// Whether node `i` has the modifier `m`.
fn has_modifier_exec(t: &SyntaxTree, i: usize, m: &str) -> (r: bool)
    requires
        t.wf(),
        i < t.nodes@.len(),
    ensures
        r == has_modifier(*t, i as int, m@),
{
    let cs = &t.nodes[i].children;
    let mut j: usize = 0;
    while j < cs.len()
        invariant
            t.wf(),
            i < t.nodes@.len(),
            cs@ == t.children_of(i as int),
            j <= cs@.len(),
            forall|k: int|
                0 <= k < j ==> !(t.kind_of(#[trigger] cs@[k] as int) == "modifier"@ && text_view(
                    t.nodes@[cs@[k] as int].text,
                ) == Some(m@)),
        decreases cs.len() - j,
    {
        let c = cs[j];
        assert(c < i) by {
            assert(t.nodes@[i as int].children@[j as int] == c);
        }
        if str_eq(t.nodes[c].kind.as_str(), "modifier") && text_is(t, c, m) {
            return true;
        }
        j = j + 1;
    }
    false
}

/// The name of a field declaration.
fn field_name_exec(t: &SyntaxTree, c: usize) -> (r: String)
    requires
        t.wf(),
        c < t.nodes@.len(),
    ensures
        r@ == field_name_of(*t, c as int),
{
    proof {
        reveal_strlit("");
    }
    match child_by_field(t, c, "declarator") {
        Some(d) => text_or_exec(t, d, ""),
        None => match child_by_field(t, c, "declarator_list") {
            Some(dl) => {
                if t.nodes[dl].children.len() > 0 {
                    let first = t.nodes[dl].children[0];
                    assert(first < dl) by {
                        assert(t.nodes@[dl as int].children@[0] == first);
                    }
                    text_or_exec(t, first, "")
                } else {
                    String::new()
                }
            },
            None => String::new(),
        },
    }
}

/// The fields declared directly under node `i`.
fn collect_fields(t: &SyntaxTree, i: usize) -> (r: Vec<FieldDescriptor>)
    requires
        t.wf(),
        i < t.nodes@.len(),
    ensures
        field_views(r@) == fields_in(*t, t.children_of(i as int)),
{
    let mut r: Vec<FieldDescriptor> = Vec::new();
    let cs = &t.nodes[i].children;
    let mut j: usize = 0;
    while j < cs.len()
        invariant
            t.wf(),
            i < t.nodes@.len(),
            cs@ == t.children_of(i as int),
            j <= cs@.len(),
            field_views(r@) == fields_in(*t, cs@.subrange(0, j as int)),
        decreases cs.len() - j,
    {
        let ghost pre = cs@.subrange(0, j + 1);
        assert(pre.drop_last() =~= cs@.subrange(0, j as int));
        let c = cs[j];
        assert(c < i) by {
            assert(t.nodes@[i as int].children@[j as int] == c);
        }
        if str_eq(t.nodes[c].kind.as_str(), "field_declaration") {
            let name = field_name_exec(t, c);
            if name.unicode_len() > 0 {
                let field_type = match field_text_of(t, c, "type") {
                    Some(x) => x,
                    None => String::new(),
                };
                let fd = FieldDescriptor {
                    name,
                    field_type,
                    is_static: child_text_is(t, c, "static"),
                    is_readonly: child_text_is(t, c, "readonly"),
                };
                let ghost r0 = r@;
                r.push(fd);
                assert(field_views(r@) =~= field_views(r0).push(fd@));
            }
        }
        j = j + 1;
    }
    assert(cs@.subrange(0, cs@.len() as int) =~= cs@);
    r
}

/// The base types written for declaration `i`.
fn base_types_exec(t: &SyntaxTree, i: usize) -> (r: Vec<String>)
    requires
        t.wf(),
        i < t.nodes@.len(),
    ensures
        string_views(r@) == base_types_of(*t, i as int),
{
    let mut r: Vec<String> = Vec::new();
    match first_of_kind_exec(t, i, "base_list") {
        Some(bl) => {
            let cs = &t.nodes[bl].children;
            let mut j: usize = 0;
            while j < cs.len()
                invariant
                    t.wf(),
                    bl < t.nodes@.len(),
                    cs@ == t.children_of(bl as int),
                    j <= cs@.len(),
                    string_views(r@) == base_names(*t, cs@.subrange(0, j as int)),
                decreases cs.len() - j,
            {
                let ghost pre = cs@.subrange(0, j + 1);
                assert(pre.drop_last() =~= cs@.subrange(0, j as int));
                let c = cs[j];
                assert(c < bl) by {
                    assert(t.nodes@[bl as int].children@[j as int] == c);
                }
                let ghost r0 = r@;
                if str_eq(t.nodes[c].kind.as_str(), "identifier") {
                    match &t.nodes[c].text {
                        Some(x) => {
                            r.push(x.clone());
                            assert(string_views(r@) =~= string_views(r0).push(x@));
                        },
                        None => {},
                    }
                } else if str_eq(t.nodes[c].kind.as_str(), "generic_name") {
                    match first_of_kind_exec(t, c, "identifier") {
                        Some(id) => match &t.nodes[id].text {
                            Some(x) => {
                                r.push(x.clone());
                                assert(string_views(r@) =~= string_views(r0).push(x@));
                            },
                            None => {},
                        },
                        None => {},
                    }
                }
                j = j + 1;
            }
            assert(cs@.subrange(0, cs@.len() as int) =~= cs@);
        },
        None => {},
    }
    r
}

/// The class described by declaration `i` (before base types are resolved).
pub fn class_of_decl(t: &SyntaxTree, i: usize) -> (r: Option<ClassInfo>)
    requires
        t.wf(),
        i < t.nodes@.len(),
    ensures
        match r {
            Some(c) => class_view_of(*t, i as int) == Some(c@),
            None => class_view_of(*t, i as int) is None,
        },
{
    let name = match field_text_of(t, i, "name") {
        Some(n) => n,
        None => return None,
    };
    let mut methods: Vec<MethodDescriptor> = Vec::new();
    collect_methods(t, i, &mut methods);
    assert(method_views(Seq::<MethodDescriptor>::empty()) =~= Seq::<MethodView>::empty());
    if first_of_kind_exec(t, i, "parameter_list").is_some() {
        let mut sig = String::from_str(".ctor (");
        let params = param_list_text_exec(t, i);
        sig.append(params.as_str());
        sig.append(")");
        let row = line_number(t.nodes[i].start_row);
        let ctor = MethodDescriptor {
            class: String::new(),
            method: String::from_str(".ctor"),
            signature: sig,
            is_static: false,
            is_virtual: false,
            is_abstract: false,
            file: String::new(),
            line_start: row,
            line_end: row,
        };
        let ghost m0 = methods@;
        methods.push(ctor);
        proof {
            assert(ctor@ == primary_ctor_view(*t, i as int));
            assert(method_views(methods@) =~= method_views(m0).push(ctor@));
        }
    }
    let fields = collect_fields(t, i);
    let ci = ClassInfo {
        name,
        base_class: None,
        interfaces: Vec::new(),
        methods,
        fields,
        is_abstract: has_modifier_exec(t, i, "abstract"),
        is_sealed: has_modifier_exec(t, i, "sealed"),
        is_static: has_modifier_exec(t, i, "static"),
    };
    proof {
        assert(string_views(ci.interfaces@) =~= Seq::<Seq<char>>::empty());
        let cv = class_view_of(*t, i as int).unwrap();
        assert(ci@.name == cv.name);
        assert(ci@.base_class == cv.base_class);
        assert(ci@.interfaces == cv.interfaces);
        assert(ci@.methods == cv.methods);
        assert(ci@.fields == cv.fields);
        assert(ci@ == cv);
    }
    Some(ci)
}

/// Extract type information from a syntax tree: the type graph, and the
/// base types written for each class before they are resolved.
#[derive(Debug)]
pub struct SymbolTable {
    pub type_graph: TypeGraph,
    pub base_types: Vec<(String, Vec<String>)>,
}

/// A symbol table with its strings as characters.
pub struct SymbolsView {
    pub classes: Seq<ClassView>,
    pub interfaces: Seq<InterfaceView>,
    pub bases: Seq<(Seq<char>, Seq<Seq<char>>)>,
}

/// The views of the recorded base types.
pub open spec fn bases_view(b: Seq<(String, Vec<String>)>) -> Seq<(Seq<char>, Seq<Seq<char>>)> {
    b.map_values(|e: (String, Vec<String>)| (e.0@, string_views(e.1@)))
}

impl View for SymbolTable {
    type V = SymbolsView;

    open spec fn view(&self) -> SymbolsView {
        SymbolsView {
            classes: class_views(self.type_graph.classes@),
            interfaces: interface_views(self.type_graph.interfaces@),
            bases: bases_view(self.base_types@),
        }
    }
}

/// The first class named `name`.
pub open spec fn class_index(cs: Seq<ClassView>, name: Seq<char>) -> Option<int>
    decreases cs.len(),
{
    if cs.len() == 0 {
        None
    } else if cs[0].name == name {
        Some(0)
    } else {
        match class_index(cs.drop_first(), name) {
            Some(k) => Some(k + 1),
            None => None,
        }
    }
}

/// The first interface named `name`.
pub open spec fn iface_index(is: Seq<InterfaceView>, name: Seq<char>) -> Option<int>
    decreases is.len(),
{
    if is.len() == 0 {
        None
    } else if is[0].name == name {
        Some(0)
    } else {
        match iface_index(is.drop_first(), name) {
            Some(k) => Some(k + 1),
            None => None,
        }
    }
}

/// The first recorded base list of `name`.
pub open spec fn base_index(bs: Seq<(Seq<char>, Seq<Seq<char>>)>, name: Seq<char>) -> Option<int>
    decreases bs.len(),
{
    if bs.len() == 0 {
        None
    } else if bs[0].0 == name {
        Some(0)
    } else {
        match base_index(bs.drop_first(), name) {
            Some(k) => Some(k + 1),
            None => None,
        }
    }
}

/// A class declared again: the members and flags of both.
pub open spec fn merge_class(e: ClassView, n: ClassView) -> ClassView {
    ClassView {
        name: e.name,
        base_class: if n.base_class is Some {
            n.base_class
        } else {
            e.base_class
        },
        interfaces: e.interfaces + n.interfaces,
        methods: e.methods + n.methods,
        fields: e.fields + n.fields,
        is_abstract: e.is_abstract || n.is_abstract,
        is_sealed: e.is_sealed || n.is_sealed,
        is_static: e.is_static || n.is_static,
    }
}

/// The table after recording the class declaration `i`: a new class, or the
/// members added to the class of that name; its base types are recorded
/// (replacing earlier ones).
pub open spec fn register_class_spec(st: SymbolsView, t: SyntaxTree, i: int) -> SymbolsView {
    match class_view_of(t, i) {
        None => st,
        Some(cv) => SymbolsView {
            classes: match class_index(st.classes, cv.name) {
                Some(k) => st.classes.update(k, merge_class(st.classes[k], cv)),
                None => st.classes.push(cv),
            },
            interfaces: st.interfaces,
            bases: match base_index(st.bases, cv.name) {
                Some(k) => st.bases.update(k, (cv.name, base_types_of(t, i))),
                None => st.bases.push((cv.name, base_types_of(t, i))),
            },
        },
    }
}

/// The table after recording the interface declaration `i` (replacing an
/// interface of the same name).
pub open spec fn register_interface_spec(st: SymbolsView, t: SyntaxTree, i: int) -> SymbolsView {
    match field_text(t, i, "name"@) {
        None => st,
        Some(name) => {
            let iv = InterfaceView { name, methods: collected_methods(t, t.children_of(i), i) };
            SymbolsView {
                classes: st.classes,
                interfaces: match iface_index(st.interfaces, name) {
                    Some(k) => st.interfaces.update(k, iv),
                    None => st.interfaces.push(iv),
                },
                bases: st.bases,
            }
        },
    }
}

/// Kinds recorded as classes.
pub open spec fn is_class_decl(k: Seq<char>) -> bool {
    k == "class_declaration"@ || k == "struct_declaration"@ || k == "record_declaration"@
}

/// Kinds the symbol table records.
pub open spec fn is_type_decl(k: Seq<char>) -> bool {
    is_class_decl(k) || k == "interface_declaration"@
}

/// The table after recording declaration `i`.
pub open spec fn register_decl_spec(st: SymbolsView, t: SyntaxTree, i: int) -> SymbolsView {
    if is_class_decl(t.kind_of(i)) {
        register_class_spec(st, t, i)
    } else if t.kind_of(i) == "interface_declaration"@ {
        register_interface_spec(st, t, i)
    } else {
        st
    }
}

/// The type declarations of the subtree at `i`, a node before its
/// descendants.
pub open spec fn decls_at(t: SyntaxTree, i: int) -> Seq<usize>
    decreases i, 1nat, 0nat,
{
    if 0 <= i < t.nodes@.len() {
        (if is_type_decl(t.kind_of(i)) {
            seq![i as usize]
        } else {
            Seq::empty()
        }) + decls_in(t, t.children_of(i), i)
    } else {
        Seq::empty()
    }
}

/// The type declarations of the subtrees at `cs`, all below `bound`.
pub open spec fn decls_in(t: SyntaxTree, cs: Seq<usize>, bound: int) -> Seq<usize>
    decreases bound, 0nat, cs.len(),
{
    if cs.len() == 0 || bound < 0 {
        Seq::empty()
    } else if cs[0] < bound {
        decls_at(t, cs[0] as int) + decls_in(t, cs.drop_first(), bound)
    } else {
        Seq::empty()
    }
}

/// The table after recording the declarations `ds` in order.
pub open spec fn visit_spec(st: SymbolsView, t: SyntaxTree, ds: Seq<usize>) -> SymbolsView
    decreases ds.len(),
{
    if ds.len() == 0 {
        st
    } else {
        register_decl_spec(visit_spec(st, t, ds.drop_last()), t, ds.last() as int)
    }
}

/// Some class is named `x`.
pub open spec fn has_class_named(cs: Seq<ClassView>, x: Seq<char>) -> bool {
    exists|k: int| 0 <= k < cs.len() && (#[trigger] cs[k]).name == x
}

/// Some interface is named `x`.
pub open spec fn has_iface_named(is: Seq<InterfaceView>, x: Seq<char>) -> bool {
    exists|k: int| 0 <= k < is.len() && (#[trigger] is[k]).name == x
}

/// The base class among the base types `bt` of class `name`: the last one
/// that is a class and not an interface.
pub open spec fn resolved_base(cs: Seq<ClassView>, is: Seq<InterfaceView>, bt: Seq<Seq<char>>, name: Seq<char>) -> Option<Seq<char>>
    decreases bt.len(),
{
    if bt.len() == 0 {
        None
    } else {
        let x = bt.last();
        if x != name && !has_iface_named(is, x) && has_class_named(cs, x) {
            Some(x)
        } else {
            resolved_base(cs, is, bt.drop_last(), name)
        }
    }
}

/// The interfaces among the base types `bt` of class `name`: the
/// interfaces, and the names that are neither class nor interface.
pub open spec fn resolved_ifaces(cs: Seq<ClassView>, is: Seq<InterfaceView>, bt: Seq<Seq<char>>, name: Seq<char>) -> Seq<Seq<char>>
    decreases bt.len(),
{
    if bt.len() == 0 {
        Seq::empty()
    } else {
        let r = resolved_ifaces(cs, is, bt.drop_last(), name);
        let x = bt.last();
        if x != name && (has_iface_named(is, x) || !has_class_named(cs, x)) {
            r.push(x)
        } else {
            r
        }
    }
}

/// A class with its recorded base types resolved.
pub open spec fn resolve_class(st: SymbolsView, c: ClassView) -> ClassView {
    match base_index(st.bases, c.name) {
        Some(k) => ClassView {
            base_class: resolved_base(st.classes, st.interfaces, st.bases[k].1, c.name),
            interfaces: resolved_ifaces(st.classes, st.interfaces, st.bases[k].1, c.name),
            ..c
        },
        None => c,
    }
}

/// The table with every class's base types resolved (and none left over).
pub open spec fn resolve_spec(st: SymbolsView) -> SymbolsView {
    SymbolsView {
        classes: st.classes.map_values(|c: ClassView| resolve_class(st, c)),
        interfaces: st.interfaces,
        bases: Seq::empty(),
    }
}

/// Names are unique among classes, among interfaces and among base lists.
pub open spec fn names_unique(st: SymbolsView) -> bool {
    &&& forall|a: int, b: int|
        0 <= a < b < st.classes.len() ==> (#[trigger] st.classes[a]).name != (#[trigger] st.classes[b]).name
    &&& forall|a: int, b: int|
        0 <= a < b < st.interfaces.len() ==> (#[trigger] st.interfaces[a]).name != (
        #[trigger] st.interfaces[b]).name
    &&& forall|a: int, b: int|
        0 <= a < b < st.bases.len() ==> (#[trigger] st.bases[a]).0 != (#[trigger] st.bases[b]).0
}

proof fn lemma_class_index(cs: Seq<ClassView>, name: Seq<char>)
    ensures
        match class_index(cs, name) {
            Some(k) => 0 <= k < cs.len() && cs[k].name == name && forall|j: int|
                0 <= j < k ==> (#[trigger] cs[j]).name != name,
            None => forall|j: int| 0 <= j < cs.len() ==> (#[trigger] cs[j]).name != name,
        },
    decreases cs.len(),
{
    if cs.len() > 0 {
        lemma_class_index(cs.drop_first(), name);
        assert forall|j: int| 0 < j < cs.len() implies cs[j] == cs.drop_first()[j - 1] by {}
    }
}

proof fn lemma_iface_index(is: Seq<InterfaceView>, name: Seq<char>)
    ensures
        match iface_index(is, name) {
            Some(k) => 0 <= k < is.len() && is[k].name == name && forall|j: int|
                0 <= j < k ==> (#[trigger] is[j]).name != name,
            None => forall|j: int| 0 <= j < is.len() ==> (#[trigger] is[j]).name != name,
        },
    decreases is.len(),
{
    if is.len() > 0 {
        lemma_iface_index(is.drop_first(), name);
        assert forall|j: int| 0 < j < is.len() implies is[j] == is.drop_first()[j - 1] by {}
    }
}

proof fn lemma_base_index(bs: Seq<(Seq<char>, Seq<Seq<char>>)>, name: Seq<char>)
    ensures
        match base_index(bs, name) {
            Some(k) => 0 <= k < bs.len() && bs[k].0 == name && forall|j: int|
                0 <= j < k ==> (#[trigger] bs[j]).0 != name,
            None => forall|j: int| 0 <= j < bs.len() ==> (#[trigger] bs[j]).0 != name,
        },
    decreases bs.len(),
{
    if bs.len() > 0 {
        lemma_base_index(bs.drop_first(), name);
        assert forall|j: int| 0 < j < bs.len() implies bs[j] == bs.drop_first()[j - 1] by {}
    }
}

/// The position of the first class named `name`.
fn class_index_exec(cs: &Vec<ClassInfo>, name: &str) -> (r: Option<usize>)
    ensures
        r matches Some(k) ==> k < cs@.len(),
        match r {
            Some(k) => class_index(class_views(cs@), name@) == Some(k as int),
            None => class_index(class_views(cs@), name@) is None,
        },
{
    let ghost v = class_views(cs@);
    proof {
        lemma_class_index(v, name@);
    }
    let mut i: usize = 0;
    while i < cs.len()
        invariant
            v == class_views(cs@),
            i <= cs@.len(),
            forall|j: int| 0 <= j < i ==> (#[trigger] cs@[j]).name@ != name@,
        decreases cs.len() - i,
    {
        if str_eq(cs[i].name.as_str(), name) {
            proof {
                lemma_class_index(v, name@);
                match class_index(v, name@) {
                    Some(k) => {
                        if k < i {
                            assert(v[k].name == cs@[k].name@);
                        } else if k > i {
                            assert(v[i as int].name == cs@[i as int].name@);
                        }
                    },
                    None => {
                        assert(v[i as int].name == cs@[i as int].name@);
                    },
                }
            }
            return Some(i);
        }
        i = i + 1;
    }
    proof {
        if class_index(v, name@) is Some {
            let k = class_index(v, name@).unwrap();
            assert(v[k].name == cs@[k].name@);
        }
    }
    None
}

/// The position of the first interface named `name`.
fn iface_index_exec(is: &Vec<InterfaceInfo>, name: &str) -> (r: Option<usize>)
    ensures
        r matches Some(k) ==> k < is@.len(),
        match r {
            Some(k) => iface_index(interface_views(is@), name@) == Some(k as int),
            None => iface_index(interface_views(is@), name@) is None,
        },
{
    let ghost v = interface_views(is@);
    proof {
        lemma_iface_index(v, name@);
    }
    let mut i: usize = 0;
    while i < is.len()
        invariant
            v == interface_views(is@),
            i <= is@.len(),
            forall|j: int| 0 <= j < i ==> (#[trigger] is@[j]).name@ != name@,
        decreases is.len() - i,
    {
        if str_eq(is[i].name.as_str(), name) {
            proof {
                lemma_iface_index(v, name@);
                match iface_index(v, name@) {
                    Some(k) => {
                        if k < i {
                            assert(v[k].name == is@[k].name@);
                        } else if k > i {
                            assert(v[i as int].name == is@[i as int].name@);
                        }
                    },
                    None => {
                        assert(v[i as int].name == is@[i as int].name@);
                    },
                }
            }
            return Some(i);
        }
        i = i + 1;
    }
    proof {
        if iface_index(v, name@) is Some {
            let k = iface_index(v, name@).unwrap();
            assert(v[k].name == is@[k].name@);
        }
    }
    None
}

/// The position of the first base list recorded for `name`.
fn base_index_exec(bs: &Vec<(String, Vec<String>)>, name: &str) -> (r: Option<usize>)
    ensures
        r matches Some(k) ==> k < bs@.len(),
        match r {
            Some(k) => base_index(bases_view(bs@), name@) == Some(k as int),
            None => base_index(bases_view(bs@), name@) is None,
        },
{
    let ghost v = bases_view(bs@);
    proof {
        lemma_base_index(v, name@);
    }
    let mut i: usize = 0;
    while i < bs.len()
        invariant
            v == bases_view(bs@),
            i <= bs@.len(),
            forall|j: int| 0 <= j < i ==> (#[trigger] bs@[j]).0@ != name@,
        decreases bs.len() - i,
    {
        if str_eq(bs[i].0.as_str(), name) {
            proof {
                lemma_base_index(v, name@);
                match base_index(v, name@) {
                    Some(k) => {
                        if k < i {
                            assert(v[k].0 == bs@[k].0@);
                        } else if k > i {
                            assert(v[i as int].0 == bs@[i as int].0@);
                        }
                    },
                    None => {
                        assert(v[i as int].0 == bs@[i as int].0@);
                    },
                }
            }
            return Some(i);
        }
        i = i + 1;
    }
    proof {
        if base_index(v, name@) is Some {
            let k = base_index(v, name@).unwrap();
            assert(v[k].0 == bs@[k].0@);
        }
    }
    None
}

impl SymbolTable {
    /// An empty table.
    pub fn new() -> (r: Self)
        ensures
            r@.classes.len() == 0,
            r@.interfaces.len() == 0,
            r@.bases.len() == 0,
    {
        SymbolTable { type_graph: TypeGraph::new(), base_types: Vec::new() }
    }

    /// Records the class declaration `i`.
    fn register_class(&mut self, t: &SyntaxTree, i: usize)
        requires
            t.wf(),
            i < t.nodes@.len(),
            names_unique(old(self)@),
        ensures
            final(self)@ == register_class_spec(old(self)@, *t, i as int),
            names_unique(final(self)@),
    {
        let ghost st = self@;
        let ci = match class_of_decl(t, i) {
            Some(c) => c,
            None => return,
        };
        let ghost cv = ci@;
        let bt = base_types_exec(t, i);
        let name = ci.name.clone();
        proof {
            lemma_class_index(st.classes, cv.name);
            lemma_base_index(st.bases, cv.name);
        }
        match class_index_exec(&self.type_graph.classes, name.as_str()) {
            Some(k) => {
                let e = &self.type_graph.classes[k];
                let mut interfaces = clone_vec(&e.interfaces);
                let mut more_i = ci.interfaces;
                interfaces.append(&mut more_i);
                let mut methods = clone_vec(&e.methods);
                let mut more_m = ci.methods;
                methods.append(&mut more_m);
                let mut fields = clone_vec(&e.fields);
                let mut more_f = ci.fields;
                fields.append(&mut more_f);
                let base_class = match ci.base_class {
                    Some(b) => Some(b),
                    None => match &e.base_class {
                        Some(b) => Some(b.clone()),
                        None => None,
                    },
                };
                let merged = ClassInfo {
                    name: e.name.clone(),
                    base_class,
                    interfaces,
                    methods,
                    fields,
                    is_abstract: e.is_abstract || ci.is_abstract,
                    is_sealed: e.is_sealed || ci.is_sealed,
                    is_static: e.is_static || ci.is_static,
                };
                let ghost ev = st.classes[k as int];
                let ghost before = self.type_graph.classes@;
                self.type_graph.classes.set(k, merged);
                proof {
                    let m = merge_class(ev, cv);
                    assert(merged@.interfaces =~= m.interfaces);
                    assert(merged@.methods =~= m.methods);
                    assert(merged@.fields =~= m.fields);
                    assert(merged@ == m);
                    assert(class_views(self.type_graph.classes@) =~= st.classes.update(k as int, m));
                }
            },
            None => {
                let ghost before = self.type_graph.classes@;
                self.type_graph.classes.push(ci);
                proof {
                    assert(class_views(self.type_graph.classes@) =~= st.classes.push(cv));
                }
            },
        }
        match base_index_exec(&self.base_types, name.as_str()) {
            Some(k) => {
                self.base_types.set(k, (name, bt));
                proof {
                    assert(bases_view(self.base_types@) =~= st.bases.update(k as int, (cv.name, base_types_of(*t, i as int))));
                }
            },
            None => {
                self.base_types.push((name, bt));
                proof {
                    assert(bases_view(self.base_types@) =~= st.bases.push((cv.name, base_types_of(*t, i as int))));
                }
            },
        }
        proof {
            let n = self@;
            assert(n == register_class_spec(st, *t, i as int));
            assert forall|a: int, b: int| 0 <= a < b < n.classes.len() implies (#[trigger] n.classes[a]).name
                != (#[trigger] n.classes[b]).name by {
                if b == st.classes.len() {
                    assert(n.classes[a] == st.classes[a]);
                } else {
                    assert(n.classes[a].name == st.classes[a].name);
                    assert(n.classes[b].name == st.classes[b].name);
                }
            }
            assert forall|a: int, b: int| 0 <= a < b < n.bases.len() implies (#[trigger] n.bases[a]).0 != (
            #[trigger] n.bases[b]).0 by {
                if b == st.bases.len() {
                    assert(n.bases[a] == st.bases[a]);
                } else {
                    assert(n.bases[a].0 == st.bases[a].0);
                    assert(n.bases[b].0 == st.bases[b].0);
                }
            }
        }
    }

    /// Records the interface declaration `i`.
    fn register_interface(&mut self, t: &SyntaxTree, i: usize)
        requires
            t.wf(),
            i < t.nodes@.len(),
            names_unique(old(self)@),
        ensures
            final(self)@ == register_interface_spec(old(self)@, *t, i as int),
            names_unique(final(self)@),
    {
        let ghost st = self@;
        let name = match field_text_of(t, i, "name") {
            Some(n) => n,
            None => return,
        };
        let mut methods: Vec<MethodDescriptor> = Vec::new();
        collect_methods(t, i, &mut methods);
        assert(method_views(Seq::<MethodDescriptor>::empty()) =~= Seq::<MethodView>::empty());
        let key = name.clone();
        let ii = InterfaceInfo { name, methods };
        let ghost iv = ii@;
        proof {
            lemma_iface_index(st.interfaces, key@);
        }
        match iface_index_exec(&self.type_graph.interfaces, key.as_str()) {
            Some(k) => {
                self.type_graph.interfaces.set(k, ii);
                proof {
                    assert(interface_views(self.type_graph.interfaces@) =~= st.interfaces.update(k as int, iv));
                }
            },
            None => {
                self.type_graph.interfaces.push(ii);
                proof {
                    assert(interface_views(self.type_graph.interfaces@) =~= st.interfaces.push(iv));
                }
            },
        }
        proof {
            let n = self@;
            assert(n == register_interface_spec(st, *t, i as int));
            assert forall|a: int, b: int| 0 <= a < b < n.interfaces.len() implies (
            #[trigger] n.interfaces[a]).name != (#[trigger] n.interfaces[b]).name by {
                if b == st.interfaces.len() {
                    assert(n.interfaces[a] == st.interfaces[a]);
                } else {
                    assert(n.interfaces[a].name == st.interfaces[a].name);
                    assert(n.interfaces[b].name == st.interfaces[b].name);
                }
            }
        }
    }
}

/// Appends the type declarations of the subtree at `i`.
fn collect_decls(t: &SyntaxTree, i: usize, out: &mut Vec<usize>)
    requires
        t.wf(),
        i < t.nodes@.len(),
        forall|m: int| 0 <= m < old(out)@.len() ==> (#[trigger] old(out)@[m]) < t.nodes@.len(),
    ensures
        final(out)@ == old(out)@ + decls_at(*t, i as int),
        forall|m: int| 0 <= m < final(out)@.len() ==> (#[trigger] final(out)@[m]) < t.nodes@.len(),
    decreases i, 1nat,
{
    let ghost o = out@;
    let k = t.nodes[i].kind.as_str();
    if str_eq(k, "class_declaration") || str_eq(k, "struct_declaration") || str_eq(k, "record_declaration")
        || str_eq(k, "interface_declaration") {
        out.push(i);
    }
    let ghost o1 = out@;
    let cs = &t.nodes[i].children;
    let mut j: usize = 0;
    assert(cs@.subrange(0, cs@.len() as int) =~= cs@);
    while j < cs.len()
        invariant
            t.wf(),
            i < t.nodes@.len(),
            cs@ == t.nodes@[i as int].children@,
            j <= cs@.len(),
            forall|m: int| 0 <= m < out@.len() ==> (#[trigger] out@[m]) < t.nodes@.len(),
            out@ + decls_in(*t, cs@.subrange(j as int, cs@.len() as int), i as int) == o1 + decls_in(
                *t,
                cs@,
                i as int,
            ),
        decreases cs.len() - j,
    {
        let ghost rest = cs@.subrange(j as int, cs@.len() as int);
        assert(rest[0] == cs@[j as int]);
        assert(rest.drop_first() =~= cs@.subrange(j + 1, cs@.len() as int));
        let c = cs[j];
        assert(c < i) by {
            assert(t.nodes@[i as int].children@[j as int] == c);
        }
        let ghost before = out@;
        collect_decls(t, c, out);
        assert(out@ + decls_in(*t, rest.drop_first(), i as int) =~= before + decls_in(*t, rest, i as int));
        j = j + 1;
    }
    assert(out@ =~= o1 + decls_in(*t, cs@, i as int));
    assert(out@ =~= o + decls_at(*t, i as int));
}

/// The resolved base class and interfaces of class `name` with base types
/// `bt`.
fn resolve_one(tg: &TypeGraph, bt: &Vec<String>, name: &str) -> (r: (Option<String>, Vec<String>))
    ensures
        opt_view(r.0) == resolved_base(class_views(tg.classes@), interface_views(tg.interfaces@), string_views(bt@), name@),
        string_views(r.1@) == resolved_ifaces(class_views(tg.classes@), interface_views(tg.interfaces@), string_views(bt@), name@),
{
    let ghost cs = class_views(tg.classes@);
    let ghost is = interface_views(tg.interfaces@);
    let mut base: Option<String> = None;
    let mut ifaces: Vec<String> = Vec::new();
    let mut j: usize = 0;
    while j < bt.len()
        invariant
            cs == class_views(tg.classes@),
            is == interface_views(tg.interfaces@),
            j <= bt@.len(),
            opt_view(base) == resolved_base(cs, is, string_views(bt@.subrange(0, j as int)), name@),
            string_views(ifaces@) == resolved_ifaces(cs, is, string_views(bt@.subrange(0, j as int)), name@),
        decreases bt.len() - j,
    {
        let ghost pre = string_views(bt@.subrange(0, j + 1));
        assert(pre.drop_last() =~= string_views(bt@.subrange(0, j as int)));
        assert(pre.last() == bt@[j as int]@);
        let x = bt[j].as_str();
        let is_iface = iface_index_exec(&tg.interfaces, x).is_some();
        let is_class = class_index_exec(&tg.classes, x).is_some();
        proof {
            lemma_iface_index(is, x@);
            lemma_class_index(cs, x@);
            if iface_index(is, x@) is None {
                assert(!has_iface_named(is, x@));
            }
            if class_index(cs, x@) is None {
                assert(!has_class_named(cs, x@));
            }
        }
        if !str_eq(x, name) {
            if is_iface {
                let ghost f0 = ifaces@;
                ifaces.push(bt[j].clone());
                assert(string_views(ifaces@) =~= string_views(f0).push(x@));
            } else if is_class {
                base = Some(bt[j].clone());
            } else {
                let ghost f0 = ifaces@;
                ifaces.push(bt[j].clone());
                assert(string_views(ifaces@) =~= string_views(f0).push(x@));
            }
        }
        j = j + 1;
    }
    assert(bt@.subrange(0, bt@.len() as int) =~= bt@);
    (base, ifaces)
}

/// A class's resolution is the same while class and interface names stay.
proof fn lemma_same_names(cs: Seq<ClassView>, cs2: Seq<ClassView>, x: Seq<char>)
    requires
        cs.len() == cs2.len(),
        forall|k: int| 0 <= k < cs.len() ==> (#[trigger] cs[k]).name == cs2[k].name,
    ensures
        has_class_named(cs, x) == has_class_named(cs2, x),
{
    if has_class_named(cs, x) {
        let k = choose|k: int| 0 <= k < cs.len() && (#[trigger] cs[k]).name == x;
        assert(cs2[k].name == x);
    }
    if has_class_named(cs2, x) {
        let k = choose|k: int| 0 <= k < cs2.len() && (#[trigger] cs2[k]).name == x;
        assert(cs[k].name == x);
    }
}

proof fn lemma_resolution_same_names(
    cs: Seq<ClassView>,
    cs2: Seq<ClassView>,
    is: Seq<InterfaceView>,
    bt: Seq<Seq<char>>,
    name: Seq<char>,
)
    requires
        cs.len() == cs2.len(),
        forall|k: int| 0 <= k < cs.len() ==> (#[trigger] cs[k]).name == cs2[k].name,
    ensures
        resolved_base(cs, is, bt, name) == resolved_base(cs2, is, bt, name),
        resolved_ifaces(cs, is, bt, name) == resolved_ifaces(cs2, is, bt, name),
    decreases bt.len(),
{
    if bt.len() > 0 {
        lemma_same_names(cs, cs2, bt.last());
        lemma_resolution_same_names(cs, cs2, is, bt.drop_last(), name);
    }
}

impl SymbolTable {
    /// Resolves every class's recorded base types into its base class (the
    /// last base type that is a known class, not an interface) and its
    /// interfaces (the known interfaces and the unknown names), skipping the
    /// class's own name; the recorded base types are then dropped.
    pub fn resolve_inheritance(&mut self)
        requires
            names_unique(old(self)@),
        ensures
            final(self)@ == resolve_spec(old(self)@),
            names_unique(final(self)@),
    {
        let ghost st = self@;
        let mut j: usize = 0;
        proof {
            assert forall|k: int| 0 <= k < st.classes.len() implies (#[trigger] class_views(
                self.type_graph.classes@,
            )[k]) == if (base_index(st.bases, st.classes[k].name) matches Some(m) && m < 0) {
                resolve_class(st, st.classes[k])
            } else {
                st.classes[k]
            } by {
                lemma_base_index(st.bases, st.classes[k].name);
            }
        }
        while j < self.base_types.len()
            invariant
                st.bases == bases_view(self.base_types@),
                st.interfaces == interface_views(self.type_graph.interfaces@),
                names_unique(st),
                j <= self.base_types@.len(),
                class_views(self.type_graph.classes@).len() == st.classes.len(),
                forall|k: int|
                    0 <= k < st.classes.len() ==> (#[trigger] class_views(self.type_graph.classes@)[k]) == if (
                    base_index(st.bases, st.classes[k].name) matches Some(m) && m < j) {
                        resolve_class(st, st.classes[k])
                    } else {
                        st.classes[k]
                    },
            decreases self.base_types.len() - j,
        {
            let ghost cur = class_views(self.type_graph.classes@);
            proof {
                assert forall|k: int| 0 <= k < cur.len() implies (#[trigger] cur[k]).name == st.classes[k].name by {
                    lemma_base_index(st.bases, st.classes[k].name);
                }
            }
            let (nb, ni) = resolve_one(&self.type_graph, &self.base_types[j].1, self.base_types[j].0.as_str());
            let ghost name = self.base_types@[j as int].0@;
            let ghost bt = string_views(self.base_types@[j as int].1@);
            proof {
                lemma_resolution_same_names(cur, st.classes, st.interfaces, bt, name);
                lemma_base_index(st.bases, name);
                assert(st.bases[j as int] == (name, bt));
                if base_index(st.bases, name) != Some(j as int) {
                    let m = base_index(st.bases, name).unwrap();
                    assert(st.bases[m].0 == st.bases[j as int].0);
                }
            }
            match class_index_exec(&self.type_graph.classes, self.base_types[j].0.as_str()) {
                Some(p) => {
                    let e = &self.type_graph.classes[p];
                    let updated = ClassInfo {
                        name: e.name.clone(),
                        base_class: nb,
                        interfaces: ni,
                        methods: clone_vec(&e.methods),
                        fields: clone_vec(&e.fields),
                        is_abstract: e.is_abstract,
                        is_sealed: e.is_sealed,
                        is_static: e.is_static,
                    };
                    let ghost before = self.type_graph.classes@;
                    self.type_graph.classes.set(p, updated);
                    proof {
                        lemma_class_index(cur, name);
                        assert(cur[p as int].name == name);
                        assert(st.classes[p as int].name == name);
                        assert forall|k: int| 0 <= k < st.classes.len() implies (#[trigger] class_views(
                            self.type_graph.classes@,
                        )[k]) == if (base_index(st.bases, st.classes[k].name) matches Some(m) && m < j + 1) {
                            resolve_class(st, st.classes[k])
                        } else {
                            st.classes[k]
                        } by {
                            lemma_base_index(st.bases, st.classes[k].name);
                            if k == p {
                                assert(base_index(st.bases, st.classes[k].name) == Some(j as int));
                                let pv = st.classes[k];
                                let old_k = cur[k];
                                assert(old_k == pv) by {
                                    if base_index(st.bases, pv.name) matches Some(m) && m < j {
                                    }
                                }
                                assert(class_views(self.type_graph.classes@)[k] == resolve_class(st, pv));
                            } else {
                                assert(class_views(self.type_graph.classes@)[k] == cur[k]);
                                if st.classes[k].name == name {
                                    assert(st.classes[k].name != st.classes[p as int].name);
                                }
                            }
                        }
                    }
                },
                None => {
                    proof {
                        lemma_class_index(cur, name);
                        assert forall|k: int| 0 <= k < st.classes.len() implies (#[trigger] class_views(
                            self.type_graph.classes@,
                        )[k]) == if (base_index(st.bases, st.classes[k].name) matches Some(m) && m < j + 1) {
                            resolve_class(st, st.classes[k])
                        } else {
                            st.classes[k]
                        } by {
                            lemma_base_index(st.bases, st.classes[k].name);
                            assert(cur[k].name != name);
                        }
                    }
                },
            }
            j = j + 1;
        }
        self.base_types = Vec::new();
        proof {
            assert(bases_view(self.base_types@) =~= Seq::<(Seq<char>, Seq<Seq<char>>)>::empty());
            assert forall|k: int| 0 <= k < st.classes.len() implies (#[trigger] class_views(self.type_graph.classes@)[k])
                == resolve_class(st, st.classes[k]) by {
                lemma_base_index(st.bases, st.classes[k].name);
            }
            assert(class_views(self.type_graph.classes@) =~= st.classes.map_values(
                |c: ClassView| resolve_class(st, c),
            ));
            let n = self@;
            assert forall|a: int, b: int| 0 <= a < b < n.classes.len() implies (#[trigger] n.classes[a]).name
                != (#[trigger] n.classes[b]).name by {
                lemma_base_index(st.bases, st.classes[a].name);
                lemma_base_index(st.bases, st.classes[b].name);
                assert(n.classes[a].name == st.classes[a].name);
                assert(n.classes[b].name == st.classes[b].name);
            }
        }
    }

    /// Walks the tree and records every class, struct, record and interface
    /// declaration, then resolves base types.
    pub fn from_ast(t: &SyntaxTree) -> (r: SymbolTable)
        requires
            t.wf(),
        ensures
            r@ == resolve_spec(
                visit_spec(SymbolTable::new_view(), *t, decls_at(*t, t.root as int)),
            ),
            names_unique(r@),
    {
        let mut st = SymbolTable::new();
        let mut decls: Vec<usize> = Vec::new();
        collect_decls(t, t.root, &mut decls);
        assert(decls@ =~= decls_at(*t, t.root as int));
        proof {
            assert(st@.classes =~= SymbolTable::new_view().classes);
            assert(st@.interfaces =~= SymbolTable::new_view().interfaces);
            assert(st@.bases =~= SymbolTable::new_view().bases);
        }
        let mut k: usize = 0;
        while k < decls.len()
            invariant
                t.wf(),
                decls@ == decls_at(*t, t.root as int),
                k <= decls@.len(),
                forall|m: int| 0 <= m < decls@.len() ==> (#[trigger] decls@[m]) < t.nodes@.len(),
                st@ == visit_spec(SymbolTable::new_view(), *t, decls@.subrange(0, k as int)),
                names_unique(st@),
            decreases decls.len() - k,
        {
            let ghost pre = decls@.subrange(0, k + 1);
            assert(pre.drop_last() =~= decls@.subrange(0, k as int));
            let d = decls[k];
            let kind = t.nodes[d].kind.as_str();
            if str_eq(kind, "class_declaration") || str_eq(kind, "struct_declaration") || str_eq(
                kind,
                "record_declaration",
            ) {
                st.register_class(t, d);
            } else if str_eq(kind, "interface_declaration") {
                st.register_interface(t, d);
            }
            k = k + 1;
        }
        assert(decls@.subrange(0, decls@.len() as int) =~= decls@);
        st.resolve_inheritance();
        st
    }

    /// The view of an empty table.
    pub open spec fn new_view() -> SymbolsView {
        SymbolsView { classes: Seq::empty(), interfaces: Seq::empty(), bases: Seq::empty() }
    }
}

} // verus!
