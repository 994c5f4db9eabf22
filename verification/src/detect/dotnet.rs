//! .NET framework patterns: Controller API, Minimal API and DI container
//! registration.

use vstd::prelude::*;
use crate::text::{str_eq, string_views, decimal, decimal_string, has_substring, occurs_at, contains, find, is_suffix, ends_with};
use crate::resolve::types::{TypeGraph, ClassInfo, MethodDescriptor, opt_view, opt_ref_view};
use crate::detect::types::{DetectionContext, PatternKind, PatternMatch, MatchView, match_views};
use crate::detect::common::{
    is_accessor, accessor_name, method_names, names_of, one_name, first_index_of, find_char, params_ordered,
    signatures_ordered, lemma_class_signatures_ordered,
};
use crate::detect::creational::push_match;

verus! {

// ---------------------------------------------------------------- Controller API

/// The action methods among `ms` of class `name`: not accessors, not
/// constructors.
pub open spec fn actions_in(ms: Seq<MethodDescriptor>, name: Seq<char>) -> Seq<MethodDescriptor> {
    ms.filter(|m: MethodDescriptor| !is_accessor(m.method@) && m.method@ != name)
}

/// The action methods of class `c`.
pub open spec fn action_methods(c: ClassInfo) -> Seq<MethodDescriptor> {
    actions_in(c.methods@, c.name@)
}

/// Following base classes from `cur` (within `fuel` steps) meets
/// `ControllerBase` or `Controller`.
pub open spec fn controller_chain(tg: TypeGraph, cur: Option<Seq<char>>, fuel: nat) -> bool
    decreases fuel,
{
    match cur {
        None => false,
        Some(b) => if b == "ControllerBase"@ || b == "Controller"@ {
            true
        } else if fuel == 0 {
            false
        } else {
            controller_chain(tg, tg.base_of(b), (fuel - 1) as nat)
        },
    }
}

/// The source markers of an HTTP attribute: `[HttpGet]`, `[HttpGet(` and
/// so on for the seven HTTP verbs.
pub open spec fn http_marker(k: int) -> Seq<char> {
    if k == 0 {
        "[HttpGet]"@
    } else if k == 1 {
        "[HttpGet("@
    } else if k == 2 {
        "[HttpPost]"@
    } else if k == 3 {
        "[HttpPost("@
    } else if k == 4 {
        "[HttpPut]"@
    } else if k == 5 {
        "[HttpPut("@
    } else if k == 6 {
        "[HttpDelete]"@
    } else if k == 7 {
        "[HttpDelete("@
    } else if k == 8 {
        "[HttpPatch]"@
    } else if k == 9 {
        "[HttpPatch("@
    } else if k == 10 {
        "[HttpHead]"@
    } else if k == 11 {
        "[HttpHead("@
    } else if k == 12 {
        "[HttpOptions]"@
    } else {
        "[HttpOptions("@
    }
}

/// The source holds an HTTP attribute.
pub open spec fn source_has_http(src: Seq<char>) -> bool {
    exists|k: int| 0 <= k < 14 && has_substring(src, #[trigger] http_marker(k))
}

/// The signature's parameter section is not empty.
pub open spec fn has_param_gap(sig: Seq<char>) -> bool {
    match (first_index_of(sig, '('), first_index_of(sig, ')')) {
        (Some(a), Some(b)) => b - a > 1,
        _ => false,
    }
}

/// The number of methods of `ms` with a non-empty parameter section.
pub open spec fn with_params_count(ms: Seq<MethodDescriptor>) -> nat {
    ms.filter(|m: MethodDescriptor| has_param_gap(m.signature@)).len()
}

/// The controller match of class `c`, given whether the source holds an
/// HTTP attribute: a concrete class with two or more action methods that
/// derives from `ControllerBase`/`Controller` or sits beside an HTTP
/// attribute; otherwise one with three or more action methods, at least
/// half of them taking parameters.
pub open spec fn controller_of(tg: TypeGraph, http: bool, c: ClassInfo) -> Option<MatchView> {
    let acts = action_methods(c);
    let base = controller_chain(tg, opt_view(c.base_class), tg.depth_bound());
    let w = with_params_count(acts);
    if c.is_abstract || acts.len() < 2 {
        None
    } else if base || http {
        Some(
            MatchView {
                pattern: PatternKind::ControllerApi,
                class: c.name@,
                description: "'"@ + c.name@ + "' with "@ + decimal(acts.len()) + " action methods \u{2014} Controller API"@,
                confidence: if base && http {
                    98
                } else if base {
                    95
                } else {
                    90
                },
                participants: seq![c.name@],
                evidence: method_names(acts),
            },
        )
    } else if acts.len() >= 3 && 2 * w >= acts.len() {
        Some(
            MatchView {
                pattern: PatternKind::ControllerApi,
                class: c.name@,
                description: "'"@ + c.name@ + "' has "@ + decimal(acts.len()) + " action methods ("@ + decimal(w)
                    + " with params) \u{2014} Controller API"@,
                confidence: 70,
                participants: seq![c.name@],
                evidence: method_names(acts),
            },
        )
    } else {
        None
    }
}

/// Controller matches over the classes `cs`.
pub open spec fn controller_matches(tg: TypeGraph, http: bool, cs: Seq<ClassInfo>) -> Seq<MatchView>
    decreases cs.len(),
{
    if cs.len() == 0 {
        Seq::empty()
    } else {
        let rest = controller_matches(tg, http, cs.drop_last());
        match controller_of(tg, http, cs.last()) {
            Some(m) => rest.push(m),
            None => rest,
        }
    }
}

fn http_marker_exec(k: usize) -> (r: &'static str)
    requires
        k < 14,
    ensures
        r@ == http_marker(k as int),
{
    match k {
        0 => "[HttpGet]",
        1 => "[HttpGet(",
        2 => "[HttpPost]",
        3 => "[HttpPost(",
        4 => "[HttpPut]",
        5 => "[HttpPut(",
        6 => "[HttpDelete]",
        7 => "[HttpDelete(",
        8 => "[HttpPatch]",
        9 => "[HttpPatch(",
        10 => "[HttpHead]",
        11 => "[HttpHead(",
        12 => "[HttpOptions]",
        _ => "[HttpOptions(",
    }
}

/// Whether the source holds an HTTP attribute.
pub fn has_http_attribute(src: &str) -> (r: bool)
    ensures
        r == source_has_http(src@),
{
    let mut k: usize = 0;
    while k < 14
        invariant
            k <= 14,
            forall|j: int| 0 <= j < k ==> !has_substring(src@, #[trigger] http_marker(j)),
        decreases 14 - k,
    {
        if contains(src, http_marker_exec(k)) {
            return true;
        }
        k = k + 1;
    }
    false
}

/// Whether the base-class chain of `c` meets `ControllerBase` or
/// `Controller`.
fn is_controller_base(tg: &TypeGraph, c: &ClassInfo) -> (r: bool)
    requires
        tg.chain_ends(opt_view(c.base_class), tg.depth_bound()),
    ensures
        r == controller_chain(*tg, opt_view(c.base_class), tg.depth_bound()),
{
    let mut cur: Option<&String> = match &c.base_class {
        Some(b) => Some(b),
        None => None,
    };
    let ghost mut fuel: nat = tg.depth_bound();
    loop
        invariant
            tg.chain_ends(opt_ref_view(cur), fuel),
            controller_chain(*tg, opt_view(c.base_class), tg.depth_bound()) == controller_chain(
                *tg,
                opt_ref_view(cur),
                fuel,
            ),
        decreases fuel,
    {
        match cur {
            None => {
                return false;
            },
            Some(b) => {
                if str_eq(b.as_str(), "ControllerBase") || str_eq(b.as_str(), "Controller") {
                    return true;
                }
                cur = match tg.get_class(b.as_str()) {
                    Some(bc) => match &bc.base_class {
                        Some(bb) => Some(bb),
                        None => None,
                    },
                    None => None,
                };
                proof {
                    fuel = (fuel - 1) as nat;
                }
            },
        }
    }
}

fn actions_of<'a>(c: &'a ClassInfo) -> (r: Vec<&'a MethodDescriptor>)
    ensures
        r@.map_values(|m: &MethodDescriptor| *m) == action_methods(*c),
{
    let ms = &c.methods;
    let mut r: Vec<&MethodDescriptor> = Vec::new();
    let mut i: usize = 0;
    while i < ms.len()
        invariant
            ms@ == c.methods@,
            i <= ms@.len(),
            r@.map_values(|m: &MethodDescriptor| *m) == actions_in(ms@.subrange(0, i as int), c.name@),
        decreases ms.len() - i,
    {
        let ghost pre = ms@.subrange(0, i + 1);
        assert(pre.drop_last() =~= ms@.subrange(0, i as int));
        reveal(Seq::filter);
        let ghost before = r@;
        if !accessor_name(ms[i].method.as_str()) && !str_eq(ms[i].method.as_str(), c.name.as_str()) {
            r.push(&ms[i]);
            assert(r@.map_values(|m: &MethodDescriptor| *m) =~= before.map_values(|m: &MethodDescriptor| *m).push(
                ms@[i as int],
            ));
        }
        i = i + 1;
    }
    assert(ms@.subrange(0, ms@.len() as int) =~= ms@);
    r
}

fn param_gap(sig: &str) -> (r: bool)
    ensures
        r == has_param_gap(sig@),
{
    match (find_char(sig, '('), find_char(sig, ')')) {
        (Some(a), Some(b)) => b > a && b - a > 1,
        _ => false,
    }
}

fn with_params_exec(acts: &Vec<&MethodDescriptor>) -> (r: usize)
    ensures
        r == with_params_count(acts@.map_values(|m: &MethodDescriptor| *m)),
        r <= acts@.len(),
{
    let ghost av = acts@.map_values(|m: &MethodDescriptor| *m);
    let mut w: usize = 0;
    let mut j: usize = 0;
    while j < acts.len()
        invariant
            av == acts@.map_values(|m: &MethodDescriptor| *m),
            j <= acts@.len(),
            w <= j,
            w == with_params_count(av.subrange(0, j as int)),
        decreases acts.len() - j,
    {
        let ghost pre = av.subrange(0, j + 1);
        assert(pre.drop_last() =~= av.subrange(0, j as int));
        assert(pre.last() == *acts@[j as int]);
        reveal(Seq::filter);
        if param_gap(acts[j].signature.as_str()) {
            w = w + 1;
        }
        j = j + 1;
    }
    assert(av.subrange(0, av.len() as int) =~= av);
    w
}

fn controller_of_exec(tg: &TypeGraph, http: bool, c: &ClassInfo) -> (r: Option<PatternMatch>)
    requires
        tg.chain_ends(opt_view(c.base_class), tg.depth_bound()),
    ensures
        match r {
            Some(m) => controller_of(*tg, http, *c) == Some(m@),
            None => controller_of(*tg, http, *c) is None,
        },
{
    if c.is_abstract {
        return None;
    }
    let acts = actions_of(c);
    let ghost av = acts@.map_values(|m: &MethodDescriptor| *m);
    if acts.len() < 2 {
        return None;
    }
    let base = is_controller_base(tg, c);
    let n = decimal_string(acts.len());
    if base || http {
        let mut d = String::from_str("'");
        d.append(c.name.as_str());
        d.append("' with ");
        d.append(n.as_str());
        d.append(" action methods \u{2014} Controller API");
        let confidence: u32 = if base && http {
            98
        } else if base {
            95
        } else {
            90
        };
        return Some(
            PatternMatch {
                pattern: PatternKind::ControllerApi,
                class: c.name.clone(),
                description: d,
                confidence,
                participants: one_name(c.name.as_str()),
                evidence: names_of(&acts),
            },
        );
    }
    let w = with_params_exec(&acts);
    if acts.len() >= 3 && w >= acts.len() - w {
        let mut d = String::from_str("'");
        d.append(c.name.as_str());
        d.append("' has ");
        d.append(n.as_str());
        d.append(" action methods (");
        let ws = decimal_string(w);
        d.append(ws.as_str());
        d.append(" with params) \u{2014} Controller API");
        Some(
            PatternMatch {
                pattern: PatternKind::ControllerApi,
                class: c.name.clone(),
                description: d,
                confidence: 70,
                participants: one_name(c.name.as_str()),
                evidence: names_of(&acts),
            },
        )
    } else {
        None
    }
}

fn detect_controller_api(tg: &TypeGraph, src: &str, results: &mut Vec<PatternMatch>)
    requires
        tg.wf(),
    ensures
        match_views(final(results)@) == match_views(old(results)@) + controller_matches(
            *tg,
            source_has_http(src@),
            tg.classes@,
        ),
{
    let http = has_http_attribute(src);
    let ghost r0 = match_views(results@);
    let mut i: usize = 0;
    while i < tg.classes.len()
        invariant
            tg.wf(),
            http == source_has_http(src@),
            i <= tg.classes@.len(),
            match_views(results@) == r0 + controller_matches(*tg, http, tg.classes@.subrange(0, i as int)),
        decreases tg.classes.len() - i,
    {
        let ghost pre = tg.classes@.subrange(0, i + 1);
        assert(pre.drop_last() =~= tg.classes@.subrange(0, i as int));
        let c = &tg.classes[i];
        assert(tg.chain_ends(opt_view(tg.classes@[i as int].base_class), tg.depth_bound()));
        match controller_of_exec(tg, http, c) {
            Some(m) => push_match(results, m),
            None => {},
        }
        i = i + 1;
    }
    assert(tg.classes@.subrange(0, tg.classes@.len() as int) =~= tg.classes@);
}

// ---------------------------------------------------------------- Minimal API

/// The source markers of endpoint mapping: `MapGet(`, `MapPost(`,
/// `MapPut(`, `MapDelete(`, `MapPatch(`.
pub open spec fn map_marker(k: int) -> Seq<char> {
    if k == 0 {
        "MapGet("@
    } else if k == 1 {
        "MapPost("@
    } else if k == 2 {
        "MapPut("@
    } else if k == 3 {
        "MapDelete("@
    } else {
        "MapPatch("@
    }
}

/// The source maps endpoints.
pub open spec fn source_has_map(src: Seq<char>) -> bool {
    exists|k: int| 0 <= k < 5 && has_substring(src, #[trigger] map_marker(k))
}

/// The text from the first `(` to the first `)` of the signature names
/// `WebApplication`.
pub open spec fn webapp_param(sig: Seq<char>) -> bool {
    match (first_index_of(sig, '('), first_index_of(sig, ')')) {
        (Some(a), Some(b)) => has_substring(sig.subrange(a, b + 1), "WebApplication"@),
        _ => false,
    }
}

/// Some method of `ms` takes a `WebApplication`.
pub open spec fn has_webapp(ms: Seq<MethodDescriptor>) -> bool {
    exists|j: int| 0 <= j < ms.len() && webapp_param((#[trigger] ms[j]).signature@)
}

/// The methods of `ms` that are not constructors of `name`.
pub open spec fn non_ctors(ms: Seq<MethodDescriptor>, name: Seq<char>) -> Seq<MethodDescriptor> {
    ms.filter(|m: MethodDescriptor| m.method@ != name)
}

/// The minimal API match of class `c`, given whether the source maps
/// endpoints: a static class or `Program`, with a method besides
/// constructors, that maps endpoints or takes a `WebApplication`.
pub open spec fn minimal_of(map: bool, c: ClassInfo) -> Option<MatchView> {
    let nc = non_ctors(c.methods@, c.name@);
    let web = has_webapp(c.methods@);
    if (!c.is_static && c.name@ != "Program"@) || nc.len() == 0 || !(web || map) {
        None
    } else {
        Some(
            MatchView {
                pattern: PatternKind::MinimalApi,
                class: c.name@,
                description: "'"@ + c.name@ + "' uses "@ + (if map {
                    "MapGet/MapPost endpoints"@
                } else {
                    "WebApplication"@
                }) + " \u{2014} Minimal API"@,
                confidence: if web && map {
                    95
                } else if map {
                    85
                } else {
                    80
                },
                participants: seq![c.name@],
                evidence: method_names(nc),
            },
        )
    }
}

/// Minimal API matches over the classes `cs`.
pub open spec fn minimal_matches(map: bool, cs: Seq<ClassInfo>) -> Seq<MatchView>
    decreases cs.len(),
{
    if cs.len() == 0 {
        Seq::empty()
    } else {
        let rest = minimal_matches(map, cs.drop_last());
        match minimal_of(map, cs.last()) {
            Some(m) => rest.push(m),
            None => rest,
        }
    }
}

fn map_marker_exec(k: usize) -> (r: &'static str)
    requires
        k < 5,
    ensures
        r@ == map_marker(k as int),
{
    match k {
        0 => "MapGet(",
        1 => "MapPost(",
        2 => "MapPut(",
        3 => "MapDelete(",
        _ => "MapPatch(",
    }
}

/// Whether the source maps endpoints.
pub fn has_map_calls(src: &str) -> (r: bool)
    ensures
        r == source_has_map(src@),
{
    let mut k: usize = 0;
    while k < 5
        invariant
            k <= 5,
            forall|j: int| 0 <= j < k ==> !has_substring(src@, #[trigger] map_marker(j)),
        decreases 5 - k,
    {
        if contains(src, map_marker_exec(k)) {
            return true;
        }
        k = k + 1;
    }
    false
}

fn webapp_param_exec(sig: &str) -> (r: bool)
    requires
        params_ordered(sig@),
    ensures
        r == webapp_param(sig@),
{
    let n = sig.unicode_len();
    match (find_char(sig, '('), find_char(sig, ')')) {
        (Some(a), Some(b)) => contains(sig.substring_char(a, b + 1), "WebApplication"),
        _ => false,
    }
}

fn has_webapp_exec(ms: &Vec<MethodDescriptor>) -> (r: bool)
    requires
        forall|j: int| 0 <= j < ms@.len() ==> params_ordered(#[trigger] ms@[j].signature@),
    ensures
        r == has_webapp(ms@),
{
    let mut j: usize = 0;
    while j < ms.len()
        invariant
            forall|j: int| 0 <= j < ms@.len() ==> params_ordered(#[trigger] ms@[j].signature@),
            j <= ms@.len(),
            forall|b: int| 0 <= b < j ==> !webapp_param((#[trigger] ms@[b]).signature@),
        decreases ms.len() - j,
    {
        if webapp_param_exec(ms[j].signature.as_str()) {
            return true;
        }
        j = j + 1;
    }
    false
}

fn non_ctors_of<'a>(ms: &'a Vec<MethodDescriptor>, name: &str) -> (r: Vec<&'a MethodDescriptor>)
    ensures
        r@.map_values(|m: &MethodDescriptor| *m) == non_ctors(ms@, name@),
{
    let mut r: Vec<&MethodDescriptor> = Vec::new();
    let mut i: usize = 0;
    while i < ms.len()
        invariant
            i <= ms@.len(),
            r@.map_values(|m: &MethodDescriptor| *m) == non_ctors(ms@.subrange(0, i as int), name@),
        decreases ms.len() - i,
    {
        let ghost pre = ms@.subrange(0, i + 1);
        assert(pre.drop_last() =~= ms@.subrange(0, i as int));
        reveal(Seq::filter);
        let ghost before = r@;
        if !str_eq(ms[i].method.as_str(), name) {
            r.push(&ms[i]);
            assert(r@.map_values(|m: &MethodDescriptor| *m) =~= before.map_values(|m: &MethodDescriptor| *m).push(
                ms@[i as int],
            ));
        }
        i = i + 1;
    }
    assert(ms@.subrange(0, ms@.len() as int) =~= ms@);
    r
}

fn minimal_of_exec(map: bool, c: &ClassInfo) -> (r: Option<PatternMatch>)
    requires
        forall|j: int| 0 <= j < c.methods@.len() ==> params_ordered(#[trigger] c.methods@[j].signature@),
    ensures
        match r {
            Some(m) => minimal_of(map, *c) == Some(m@),
            None => minimal_of(map, *c) is None,
        },
{
    reveal(minimal_of);
    if !c.is_static && !str_eq(c.name.as_str(), "Program") {
        return None;
    }
    let web = has_webapp_exec(&c.methods);
    let nc = non_ctors_of(&c.methods, c.name.as_str());
    if nc.len() == 0 || !(web || map) {
        return None;
    }
    let confidence: u32 = if web && map {
        95
    } else if map {
        85
    } else {
        80
    };
    let mut d = String::from_str("'");
    d.append(c.name.as_str());
    d.append("' uses ");
    if map {
        d.append("MapGet/MapPost endpoints");
    } else {
        d.append("WebApplication");
    }
    d.append(" \u{2014} Minimal API");
    Some(
        PatternMatch {
            pattern: PatternKind::MinimalApi,
            class: c.name.clone(),
            description: d,
            confidence,
            participants: one_name(c.name.as_str()),
            evidence: names_of(&nc),
        },
    )
}

#[verifier::rlimit(40)]
fn detect_minimal_api(tg: &TypeGraph, src: &str, results: &mut Vec<PatternMatch>)
    requires
        signatures_ordered(*tg),
    ensures
        match_views(final(results)@) == match_views(old(results)@) + minimal_matches(
            source_has_map(src@),
            tg.classes@,
        ),
{
    let map = has_map_calls(src);
    let ghost r0 = match_views(results@);
    let mut i: usize = 0;
    while i < tg.classes.len()
        invariant
            signatures_ordered(*tg),
            map == source_has_map(src@),
            i <= tg.classes@.len(),
            match_views(results@) == r0 + minimal_matches(map, tg.classes@.subrange(0, i as int)),
        decreases tg.classes.len() - i,
    {
        let ghost pre = tg.classes@.subrange(0, i + 1);
        assert(pre.drop_last() =~= tg.classes@.subrange(0, i as int));
        let c = &tg.classes[i];
        proof {
            lemma_class_signatures_ordered(*tg, i as int);
        }
        match minimal_of_exec(map, c) {
            Some(m) => push_match(results, m),
            None => {},
        }
        i = i + 1;
    }
    assert(tg.classes@.subrange(0, tg.classes@.len() as int) =~= tg.classes@);
}

// ---------------------------------------------------------------- DI container

/// The service registration calls the DI detector looks for.
#[verifier::opaque]
pub open spec fn di_name(k: int) -> Seq<char> {
    if k == 0 {
        "AddScoped"@
    } else if k == 1 {
        "AddSingleton"@
    } else if k == 2 {
        "AddTransient"@
    } else if k == 3 {
        "AddDbContext"@
    } else if k == 4 {
        "AddDbContextPool"@
    } else if k == 5 {
        "AddAuthentication"@
    } else if k == 6 {
        "AddAuthorization"@
    } else if k == 7 {
        "AddControllers"@
    } else if k == 8 {
        "AddEndpointsApiExplorer"@
    } else if k == 9 {
        "AddSwaggerGen"@
    } else if k == 10 {
        "AddCors"@
    } else if k == 11 {
        "AddMvc"@
    } else if k == 12 {
        "AddSignalR"@
    } else {
        "AddGrpc"@
    }
}

/// The position of the first occurrence of `needle` in `s`.
#[verifier::opaque]
pub open spec fn first_occurrence(s: Seq<char>, needle: Seq<char>) -> Option<int> {
    if has_substring(s, needle) {
        Some(choose|i: int| occurs_at(s, needle, i) && forall|j: int| 0 <= j < i ==> !occurs_at(s, needle, j))
    } else {
        None
    }
}

/// The first `>` of `s` does not come before its first `<`.
pub open spec fn angles_ordered(s: Seq<char>) -> bool {
    match (first_index_of(s, '<'), first_index_of(s, '>')) {
        (Some(a), Some(b)) => a < b,
        _ => true,
    }
}

/// The text from the first occurrence of `name` in `sig` to the end.
pub open spec fn tail_from(sig: Seq<char>, name: Seq<char>) -> Option<Seq<char>> {
    match first_occurrence(sig, name) {
        Some(st) => Some(sig.subrange(st, sig.len() as int)),
        None => None,
    }
}

/// The generic argument registered with `name` in `sig`: the text between
/// the first `<` and the first `>` after the call's name.
#[verifier::opaque]
pub open spec fn di_arg(sig: Seq<char>, name: Seq<char>) -> Seq<Seq<char>> {
    match tail_from(sig, name) {
        Some(rest) => match (first_index_of(rest, '<'), first_index_of(rest, '>')) {
            (Some(a), Some(b)) => seq![rest.subrange(a + 1, b)],
            _ => Seq::empty(),
        },
        None => Seq::empty(),
    }
}

/// The generic argument after `name` in `sig` can be cut out.
#[verifier::opaque]
pub open spec fn di_arg_ok(sig: Seq<char>, name: Seq<char>) -> bool {
    match tail_from(sig, name) {
        Some(rest) => angles_ordered(rest),
        None => true,
    }
}

/// Every registration call in `sig` has its generic argument in order.
pub open spec fn di_sig_ok(sig: Seq<char>) -> bool {
    forall|k: int| 0 <= k < 14 ==> #[trigger] di_arg_ok(sig, di_name(k))
}

/// The number of the first `k` registration calls named in `sig`.
pub open spec fn di_hits(sig: Seq<char>, k: nat) -> nat
    decreases k,
{
    if k == 0 {
        0
    } else {
        di_hits(sig, (k - 1) as nat) + if has_substring(sig, di_name(k - 1)) {
            1nat
        } else {
            0nat
        }
    }
}

/// The generic arguments of the first `k` registration calls in `sig`.
pub open spec fn di_args(sig: Seq<char>, k: nat) -> Seq<Seq<char>>
    decreases k,
{
    if k == 0 {
        Seq::empty()
    } else {
        di_args(sig, (k - 1) as nat) + di_arg(sig, di_name(k - 1))
    }
}

/// The number of registration calls over the methods `ms`.
pub open spec fn di_count(ms: Seq<MethodDescriptor>) -> nat
    decreases ms.len(),
{
    if ms.len() == 0 {
        0
    } else {
        di_count(ms.drop_last()) + di_hits(ms.last().signature@, 14)
    }
}

/// The registered generic arguments over the methods `ms`.
pub open spec fn di_evidence(ms: Seq<MethodDescriptor>) -> Seq<Seq<char>>
    decreases ms.len(),
{
    if ms.len() == 0 {
        Seq::empty()
    } else {
        di_evidence(ms.drop_last()) + di_args(ms.last().signature@, 14)
    }
}

/// A class where services are registered: static, `Program`, or named
/// `...Startup`, `...Extension` or `...Extensions`.
pub open spec fn di_candidate(c: ClassInfo) -> bool {
    c.is_static || c.name@ == "Program"@ || is_suffix("Startup"@, c.name@) || is_suffix("Extension"@, c.name@)
        || is_suffix("Extensions"@, c.name@)
}

/// In every class where services are registered, the generic arguments of
/// the registration calls can be cut out.
pub open spec fn di_ordered(tg: TypeGraph) -> bool {
    forall|k: int, j: int|
        0 <= k < tg.classes@.len() && 0 <= j < tg.classes@[k].methods@.len() && di_candidate(tg.classes@[k])
            ==> di_sig_ok(#[trigger] tg.classes@[k].methods@[j].signature@)
}

/// Each class has few enough methods that its registration count fits.
pub open spec fn method_counts_fit(tg: TypeGraph) -> bool {
    forall|k: int| 0 <= k < tg.classes@.len() ==> (#[trigger] tg.classes@[k]).methods@.len() <= usize::MAX / 16
}

/// The DI container match of class `c`: a registering class with two or
/// more registration calls.
pub open spec fn di_of(c: ClassInfo) -> Option<MatchView> {
    let n = di_count(c.methods@);
    if di_candidate(c) && n >= 2 {
        Some(
            MatchView {
                pattern: PatternKind::DiContainer,
                class: c.name@,
                description: "'"@ + c.name@ + "' registers "@ + decimal(n) + " DI services \u{2014} DI Container"@,
                confidence: 90,
                participants: seq![c.name@],
                evidence: di_evidence(c.methods@),
            },
        )
    } else {
        None
    }
}

/// DI container matches over the classes `cs`.
pub open spec fn di_matches(cs: Seq<ClassInfo>) -> Seq<MatchView>
    decreases cs.len(),
{
    if cs.len() == 0 {
        Seq::empty()
    } else {
        let rest = di_matches(cs.drop_last());
        match di_of(cs.last()) {
            Some(m) => rest.push(m),
            None => rest,
        }
    }
}

proof fn lemma_first_occurrence(s: Seq<char>, needle: Seq<char>, i: int)
    requires
        occurs_at(s, needle, i),
        forall|j: int| 0 <= j < i ==> !occurs_at(s, needle, j),
    ensures
        first_occurrence(s, needle) == Some(i),
{
    reveal(first_occurrence);
    assert(has_substring(s, needle));
    let c = choose|c: int| occurs_at(s, needle, c) && forall|j: int| 0 <= j < c ==> !occurs_at(s, needle, j);
    assert(occurs_at(s, needle, c) && forall|j: int| 0 <= j < c ==> !occurs_at(s, needle, j));
    if c < i {
        assert(!occurs_at(s, needle, c));
    }
    if c > i {
        assert(!occurs_at(s, needle, i));
    }
}

proof fn lemma_di_hits_bound(sig: Seq<char>, k: nat)
    ensures
        di_hits(sig, k) <= k,
    decreases k,
{
    if k > 0 {
        lemma_di_hits_bound(sig, (k - 1) as nat);
    }
}

fn di_name_exec(k: usize) -> (r: &'static str)
    requires
        k < 14,
    ensures
        r@ == di_name(k as int),
{
    reveal(di_name);
    match k {
        0 => "AddScoped",
        1 => "AddSingleton",
        2 => "AddTransient",
        3 => "AddDbContext",
        4 => "AddDbContextPool",
        5 => "AddAuthentication",
        6 => "AddAuthorization",
        7 => "AddControllers",
        8 => "AddEndpointsApiExplorer",
        9 => "AddSwaggerGen",
        10 => "AddCors",
        11 => "AddMvc",
        12 => "AddSignalR",
        _ => "AddGrpc",
    }
}

/// The tail of `sig` from the first occurrence of `name`, if any.
fn tail_from_exec(sig: &str, name: &str) -> (r: Option<String>)
    ensures
        match r {
            Some(t) => tail_from(sig@, name@) == Some(t@),
            None => tail_from(sig@, name@) is None,
        },
        r is Some == has_substring(sig@, name@),
{
    reveal(first_occurrence);
    let n = sig.unicode_len();
    match find(sig, name) {
        Some(st) => {
            proof {
                lemma_first_occurrence(sig@, name@, st as int);
            }
            Some(String::from_str(sig.substring_char(st, n)))
        },
        None => None,
    }
}

/// Whether `sig` names the registration call `name`, and its generic
/// argument.
fn di_arg_exec(sig: &str, name: &str) -> (r: (bool, Vec<String>))
    requires
        di_arg_ok(sig@, name@),
    ensures
        r.0 == has_substring(sig@, name@),
        string_views(r.1@) == di_arg(sig@, name@),
{
    reveal(di_arg);
    reveal(di_arg_ok);
    let mut args: Vec<String> = Vec::new();
    match tail_from_exec(sig, name) {
        Some(rest) => {
            let r = rest.as_str();
            match (find_char(r, '<'), find_char(r, '>')) {
                (Some(a), Some(b)) => {
                    let t = String::from_str(r.substring_char(a + 1, b));
                    args.push(t);
                    assert(string_views(args@) =~= seq![t@]);
                },
                _ => {
                    assert(string_views(args@) =~= Seq::<Seq<char>>::empty());
                },
            }
            (true, args)
        },
        None => {
            assert(string_views(args@) =~= Seq::<Seq<char>>::empty());
            (false, args)
        },
    }
}

/// The registration count and generic arguments of one signature.
fn di_scan(sig: &str) -> (r: (usize, Vec<String>))
    requires
        di_sig_ok(sig@),
    ensures
        r.0 == di_hits(sig@, 14),
        string_views(r.1@) == di_args(sig@, 14),
{
    let mut count: usize = 0;
    let mut args: Vec<String> = Vec::new();
    let mut k: usize = 0;
    while k < 14
        invariant
            di_sig_ok(sig@),
            k <= 14,
            count == di_hits(sig@, k as nat),
            count <= k,
            string_views(args@) == di_args(sig@, k as nat),
        decreases 14 - k,
    {
        let name = di_name_exec(k);
        assert(di_arg_ok(sig@, di_name(k as int)));
        let (hit, mut found) = di_arg_exec(sig, name);
        if hit {
            count = count + 1;
        }
        let ghost a0 = args@;
        let ghost f0 = found@;
        args.append(&mut found);
        assert(string_views(args@) =~= string_views(a0) + string_views(f0));
        k = k + 1;
    }
    (count, args)
}

/// The registration count and generic arguments over the methods `ms`.
fn di_scan_methods(ms: &Vec<MethodDescriptor>) -> (r: (usize, Vec<String>))
    requires
        forall|j: int| 0 <= j < ms@.len() ==> di_sig_ok(#[trigger] ms@[j].signature@),
        ms@.len() <= usize::MAX / 16,
    ensures
        r.0 == di_count(ms@),
        string_views(r.1@) == di_evidence(ms@),
{
    let mut count: usize = 0;
    let mut evidence: Vec<String> = Vec::new();
    let mut j: usize = 0;
    while j < ms.len()
        invariant
            forall|j: int| 0 <= j < ms@.len() ==> di_sig_ok(#[trigger] ms@[j].signature@),
            ms@.len() <= usize::MAX / 16,
            j <= ms@.len(),
            count == di_count(ms@.subrange(0, j as int)),
            count <= 14 * j,
            string_views(evidence@) == di_evidence(ms@.subrange(0, j as int)),
        decreases ms.len() - j,
    {
        let ghost pre = ms@.subrange(0, j + 1);
        assert(pre.drop_last() =~= ms@.subrange(0, j as int));
        let (hits, mut args) = di_scan(ms[j].signature.as_str());
        proof {
            lemma_di_hits_bound(ms@[j as int].signature@, 14);
        }
        count = count + hits;
        let ghost e0 = evidence@;
        let ghost a0 = args@;
        evidence.append(&mut args);
        assert(string_views(evidence@) =~= string_views(e0) + string_views(a0));
        j = j + 1;
    }
    assert(ms@.subrange(0, ms@.len() as int) =~= ms@);
    (count, evidence)
}

fn di_of_exec(c: &ClassInfo) -> (r: Option<PatternMatch>)
    requires
        di_candidate(*c) ==> forall|j: int| 0 <= j < c.methods@.len() ==> di_sig_ok(#[trigger] c.methods@[j].signature@),
        c.methods@.len() <= usize::MAX / 16,
    ensures
        match r {
            Some(m) => di_of(*c) == Some(m@),
            None => di_of(*c) is None,
        },
{
    let name = c.name.as_str();
    let candidate = c.is_static || str_eq(name, "Program") || ends_with(name, "Startup") || ends_with(name, "Extension")
        || ends_with(name, "Extensions");
    if !candidate {
        return None;
    }
    let (count, evidence) = di_scan_methods(&c.methods);
    if count < 2 {
        return None;
    }
    let mut d = String::from_str("'");
    d.append(name);
    d.append("' registers ");
    let n = decimal_string(count);
    d.append(n.as_str());
    d.append(" DI services \u{2014} DI Container");
    Some(
        PatternMatch {
            pattern: PatternKind::DiContainer,
            class: c.name.clone(),
            description: d,
            confidence: 90,
            participants: one_name(name),
            evidence,
        },
    )
}

fn detect_di_container(tg: &TypeGraph, results: &mut Vec<PatternMatch>)
    requires
        di_ordered(*tg),
        method_counts_fit(*tg),
    ensures
        match_views(final(results)@) == match_views(old(results)@) + di_matches(tg.classes@),
{
    let ghost r0 = match_views(results@);
    let mut i: usize = 0;
    while i < tg.classes.len()
        invariant
            di_ordered(*tg),
            method_counts_fit(*tg),
            i <= tg.classes@.len(),
            match_views(results@) == r0 + di_matches(tg.classes@.subrange(0, i as int)),
        decreases tg.classes.len() - i,
    {
        let ghost pre = tg.classes@.subrange(0, i + 1);
        assert(pre.drop_last() =~= tg.classes@.subrange(0, i as int));
        let c = &tg.classes[i];
        proof {
            assert(tg.classes@[i as int].methods@.len() <= usize::MAX / 16);
            if di_candidate(*c) {
                assert forall|j: int| 0 <= j < c.methods@.len() implies di_sig_ok(#[trigger] c.methods@[j].signature@) by {
                    assert(di_sig_ok(tg.classes@[i as int].methods@[j].signature@));
                }
            }
        }
        match di_of_exec(c) {
            Some(m) => push_match(results, m),
            None => {},
        }
        i = i + 1;
    }
    assert(tg.classes@.subrange(0, tg.classes@.len() as int) =~= tg.classes@);
}

fn di_arg_ok_exec(sig: &str, name: &str) -> (r: bool)
    ensures
        r == di_arg_ok(sig@, name@),
{
    reveal(di_arg_ok);
    match tail_from_exec(sig, name) {
        Some(rest) => match (find_char(rest.as_str(), '<'), find_char(rest.as_str(), '>')) {
            (Some(a), Some(b)) => a < b,
            _ => true,
        },
        None => true,
    }
}

fn di_sig_ok_exec(sig: &str) -> (r: bool)
    ensures
        r == di_sig_ok(sig@),
{
    let mut k: usize = 0;
    while k < 14
        invariant
            k <= 14,
            forall|j: int| 0 <= j < k ==> #[trigger] di_arg_ok(sig@, di_name(j)),
        decreases 14 - k,
    {
        if !di_arg_ok_exec(sig, di_name_exec(k)) {
            return false;
        }
        k = k + 1;
    }
    true
}

/// Whether the DI detector can read the type graph: in every class where
/// services are registered the generic arguments of the registration
/// calls can be cut out, and no class has too many methods to count.
pub fn registrations_readable(tg: &TypeGraph) -> (r: bool)
    ensures
        r == (di_ordered(*tg) && method_counts_fit(*tg)),
{
    let mut k: usize = 0;
    while k < tg.classes.len()
        invariant
            k <= tg.classes@.len(),
            forall|a: int| 0 <= a < k ==> (#[trigger] tg.classes@[a]).methods@.len() <= usize::MAX / 16,
            forall|a: int, j: int|
                0 <= a < k && 0 <= j < tg.classes@[a].methods@.len() && di_candidate(tg.classes@[a]) ==> di_sig_ok(
                    #[trigger] tg.classes@[a].methods@[j].signature@,
                ),
        decreases tg.classes.len() - k,
    {
        let c = &tg.classes[k];
        if c.methods.len() > usize::MAX / 16 {
            assert(!method_counts_fit(*tg));
            return false;
        }
        let name = c.name.as_str();
        let candidate = c.is_static || str_eq(name, "Program") || ends_with(name, "Startup") || ends_with(
            name,
            "Extension",
        ) || ends_with(name, "Extensions");
        if candidate {
            let ms = &c.methods;
            let mut j: usize = 0;
            while j < ms.len()
                invariant
                    k < tg.classes@.len(),
                    ms@ == tg.classes@[k as int].methods@,
                    di_candidate(tg.classes@[k as int]),
                    j <= ms@.len(),
                    forall|a: int| 0 <= a < k ==> (#[trigger] tg.classes@[a]).methods@.len() <= usize::MAX / 16,
                    forall|a: int, b: int|
                        0 <= a < k && 0 <= b < tg.classes@[a].methods@.len() && di_candidate(tg.classes@[a])
                            ==> di_sig_ok(#[trigger] tg.classes@[a].methods@[b].signature@),
                    forall|b: int| 0 <= b < j ==> di_sig_ok(#[trigger] ms@[b].signature@),
                decreases ms.len() - j,
            {
                if !di_sig_ok_exec(ms[j].signature.as_str()) {
                    assert(!di_sig_ok(tg.classes@[k as int].methods@[j as int].signature@));
                    return false;
                }
                j = j + 1;
            }
        }
        k = k + 1;
    }
    true
}

/// All .NET matches: controllers, then minimal APIs, then DI containers.
pub open spec fn dotnet_matches(tg: TypeGraph, src: Seq<char>) -> Seq<MatchView> {
    controller_matches(tg, source_has_http(src), tg.classes@) + minimal_matches(source_has_map(src), tg.classes@)
        + di_matches(tg.classes@)
}

/// .NET framework patterns of the context: Controller API, Minimal API and
/// DI container, in that order.
pub fn detect_dotnet(ctx: &DetectionContext) -> (r: Vec<PatternMatch>)
    requires
        ctx.type_graph.wf(),
        signatures_ordered(*ctx.type_graph),
        di_ordered(*ctx.type_graph),
        method_counts_fit(*ctx.type_graph),
    ensures
        match_views(r@) == dotnet_matches(*ctx.type_graph, ctx.source@),
{
    let tg = ctx.type_graph;
    let mut results: Vec<PatternMatch> = Vec::new();
    assert(match_views(results@) =~= Seq::<MatchView>::empty());
    detect_controller_api(tg, ctx.source, &mut results);
    detect_minimal_api(tg, ctx.source, &mut results);
    detect_di_container(tg, &mut results);
    assert(match_views(results@) =~= dotnet_matches(*tg, ctx.source@));
    results
}

} // verus!
