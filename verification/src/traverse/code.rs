//! Where the code of the current method is, and how a span of source lines
//! is listed. Reading the file is left to the caller.

use vstd::prelude::*;
use crate::text::{decimal, decimal_string, string_views, str_eq};
use crate::resolve::types::{TypeGraph, MethodDescriptor, first_method_named, find_method};
use crate::analysis::callgraph::{CallGraph, CallSite};
use crate::traverse::state::TraversalState;

verus! {

/// Where to read the code of the current method.
#[derive(Debug)]
pub enum CodeSource {
    /// The current method is outside the project: the method of its first
    /// caller, in `file`, lines `start` to `end`
    External { file: String, start: usize, end: usize },
    /// Outside the project, and no caller with a known place
    NoCallerContext,
    /// The method's own place: `file`, lines `start` to `end`
    Local { file: String, start: usize, end: usize },
    /// The method has no known place
    Unavailable,
}

/// A place to read, as plain values.
pub enum SourceView {
    External { file: Seq<char>, start: usize, end: usize },
    NoCallerContext,
    Local { file: Seq<char>, start: usize, end: usize },
    Unavailable,
}

/// The view of a code source.
pub open spec fn source_view(c: CodeSource) -> SourceView {
    match c {
        CodeSource::External { file, start, end } => SourceView::External { file: file@, start, end },
        CodeSource::NoCallerContext => SourceView::NoCallerContext,
        CodeSource::Local { file, start, end } => SourceView::Local { file: file@, start, end },
        CodeSource::Unavailable => SourceView::Unavailable,
    }
}

/// A method with a file and a first line.
pub open spec fn placed(m: MethodDescriptor) -> bool {
    m.file@.len() > 0 && m.line_start > 0
}

/// The first call of `method` through the receiver `class`.
pub open spec fn first_caller(calls: Seq<CallSite>, class: Seq<char>, method: Seq<char>) -> Option<CallSite>
    decreases calls.len(),
{
    if calls.len() == 0 {
        None
    } else if calls[0].callee@ == method && calls[0].target_expr@ == class {
        Some(calls[0])
    } else {
        first_caller(calls.drop_first(), class, method)
    }
}

/// The method of class `class` named `method`, else the interface's.
pub open spec fn declared_method(tg: TypeGraph, class: Seq<char>, method: Seq<char>) -> Option<MethodDescriptor> {
    match tg.lookup_class(class) {
        Some(c) => match first_method_named(c.methods@, method) {
            Some(m) => Some(m),
            None => match tg.lookup_interface(class) {
                Some(i) => first_method_named(i.methods@, method),
                None => None,
            },
        },
        None => match tg.lookup_interface(class) {
            Some(i) => first_method_named(i.methods@, method),
            None => None,
        },
    }
}

/// Where the code of method `method` of `class` is: a class or interface of
/// the project shows the method's own place; anything else shows the
/// method of its first caller.
pub open spec fn code_source_of(tg: TypeGraph, calls: Seq<CallSite>, class: Seq<char>, method: Seq<char>) -> SourceView {
    if !tg.has_class(class) && !tg.has_interface(class) {
        match first_caller(calls, class, method) {
            Some(c) => match tg.lookup_class(c.caller_class@) {
                Some(ci) => match first_method_named(ci.methods@, c.caller_method@) {
                    Some(m) => if placed(m) {
                        SourceView::External { file: m.file@, start: m.line_start, end: m.line_end }
                    } else {
                        SourceView::NoCallerContext
                    },
                    None => SourceView::NoCallerContext,
                },
                None => SourceView::NoCallerContext,
            },
            None => SourceView::NoCallerContext,
        }
    } else {
        match declared_method(tg, class, method) {
            Some(m) => if placed(m) {
                SourceView::Local { file: m.file@, start: m.line_start, end: m.line_end }
            } else {
                SourceView::Unavailable
            },
            None => SourceView::Unavailable,
        }
    }
}

fn first_caller_exec<'a>(calls: &'a Vec<CallSite>, class: &str, method: &str) -> (r: Option<&'a CallSite>)
    ensures
        match r {
            Some(c) => first_caller(calls@, class@, method@) == Some(*c),
            None => first_caller(calls@, class@, method@) is None,
        },
{
    let mut i: usize = 0;
    assert(calls@.subrange(0, calls@.len() as int) =~= calls@);
    while i < calls.len()
        invariant
            i <= calls@.len(),
            first_caller(calls@, class@, method@) == first_caller(calls@.subrange(i as int, calls@.len() as int), class@, method@),
        decreases calls.len() - i,
    {
        let ghost rest = calls@.subrange(i as int, calls@.len() as int);
        assert(rest[0] == calls@[i as int]);
        assert(rest.drop_first() =~= calls@.subrange(i + 1, calls@.len() as int));
        if str_eq(calls[i].callee.as_str(), method) && str_eq(calls[i].target_expr.as_str(), class) {
            return Some(&calls[i]);
        }
        i = i + 1;
    }
    None
}

/// Where to read the code of the method in view (see `code_source_of`).
pub fn code_source(state: &TraversalState, tg: &TypeGraph, cg: &CallGraph) -> (r: CodeSource)
    ensures
        source_view(r) == code_source_of(*tg, cg.calls@, state.current.class@, state.current.method@),
{
    let class = state.current.class.as_str();
    let method = state.current.method.as_str();
    if !tg.contains_class(class) && !tg.contains_interface(class) {
        match first_caller_exec(&cg.calls, class, method) {
            Some(c) => match tg.get_class(c.caller_class.as_str()) {
                Some(ci) => match find_method(&ci.methods, c.caller_method.as_str()) {
                    Some(m) => {
                        if m.file.unicode_len() > 0 && m.line_start > 0 {
                            CodeSource::External { file: m.file.clone(), start: m.line_start, end: m.line_end }
                        } else {
                            CodeSource::NoCallerContext
                        }
                    },
                    None => CodeSource::NoCallerContext,
                },
                None => CodeSource::NoCallerContext,
            },
            None => CodeSource::NoCallerContext,
        }
    } else {
        let in_class = match tg.get_class(class) {
            Some(c) => find_method(&c.methods, method),
            None => None,
        };
        let md = match in_class {
            Some(m) => Some(m),
            None => match tg.get_interface(class) {
                Some(i) => find_method(&i.methods, method),
                None => None,
            },
        };
        match md {
            Some(m) => {
                if m.file.unicode_len() > 0 && m.line_start > 0 {
                    CodeSource::Local { file: m.file.clone(), start: m.line_start, end: m.line_end }
                } else {
                    CodeSource::Unavailable
                }
            },
            None => CodeSource::Unavailable,
        }
    }
}

/// `s` right-aligned in a field of four.
pub open spec fn right4(s: Seq<char>) -> Seq<char> {
    if s.len() < 4 {
        Seq::new((4 - s.len()) as nat, |_i: int| ' ') + s
    } else {
        s
    }
}

/// The listing of lines `start` to `end` (counted from 1) of a file whose
/// lines are `lines`: each numbered, the numbers right-aligned.
pub open spec fn listing(lines: Seq<Seq<char>>, start: usize, end: usize) -> Seq<Seq<char>> {
    let from = start - 1;
    let to = if end < lines.len() { end as int } else { lines.len() as int };
    Seq::new((to - from) as nat, |i: int| "  \u{2502} "@ + right4(decimal((from + i + 1) as nat)) + " "@ + lines[from + i])
}

/// The span can be listed: it starts at line 1 or later and does not
/// start after the end of what it lists.
pub open spec fn listable(n_lines: nat, start: usize, end: usize) -> bool {
    start > 0 && start - 1 <= (if end < n_lines { end as int } else { n_lines as int })
}

fn right4_exec(s: String) -> (r: String)
    ensures
        r@ == right4(s@),
{
    let n = s.unicode_len();
    if n < 4 {
        let mut r = String::new();
        let mut k: usize = 0;
        proof {
            reveal_strlit("");
            reveal_strlit(" ");
        }
        while k < 4 - n
            invariant
                n < 4,
                k <= 4 - n,
                r@ == Seq::new(k as nat, |_i: int| ' '),
            decreases 4 - n - k,
        {
            proof {
                reveal_strlit(" ");
            }
            r.append(" ");
            assert(r@ =~= Seq::new((k + 1) as nat, |_i: int| ' '));
            k = k + 1;
        }
        r.append(s.as_str());
        r
    } else {
        s
    }
}

/// The listing of lines `start` to `end` of `lines` (see `listing`).
pub fn code_listing(lines: &Vec<String>, start: usize, end: usize) -> (r: Vec<String>)
    requires
        listable(lines@.len(), start, end),
    ensures
        string_views(r@) == listing(string_views(lines@), start, end),
{
    let ghost lv = string_views(lines@);
    let from = start - 1;
    let to = if end < lines.len() { end } else { lines.len() };
    let ghost want = listing(lv, start, end);
    let mut r: Vec<String> = Vec::new();
    let mut i: usize = from;
    while i < to
        invariant
            from == start - 1,
            to == (if end < lines@.len() { end as int } else { lines@.len() as int }),
            from <= i <= to,
            to <= lines@.len(),
            lv == string_views(lines@),
            want == listing(lv, start, end),
            string_views(r@) == want.take(i - from),
        decreases to - i,
    {
        let mut l = String::from_str("  \u{2502} ");
        let num = right4_exec(decimal_string(i + 1));
        l.append(num.as_str());
        l.append(" ");
        l.append(lines[i].as_str());
        assert(lv[i as int] == lines@[i as int]@);
        assert(l@ =~= want[i - from]);
        let ghost before = string_views(r@);
        r.push(l);
        assert(string_views(r@) =~= before.push(want[i - from]));
        assert(want.take(i + 1 - from) =~= want.take(i - from).push(want[i - from]));
        i = i + 1;
    }
    assert(want.take(to - from) =~= want);
    r
}

} // verus!
