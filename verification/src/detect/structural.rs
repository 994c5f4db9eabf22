//! Structural patterns: Composite, Adapter, Decorator, Bridge, Flyweight,
//! Facade.

use vstd::prelude::*;
use crate::text::{str_eq, string_views, decimal, decimal_string, has_substring, contains};
use crate::resolve::types::{TypeGraph, ClassInfo, InterfaceInfo, MethodDescriptor, FieldDescriptor, names_contain, vec_contains_str, opt_view};
use crate::detect::types::{
    DetectionContext, PatternKind, PatternMatch, MatchView, match_views, none_of_kind, lemma_none_of_kind_concat,
};
use crate::detect::common::{
    return_type_spec, return_type_of, method_names, names_of, one_name, two_names, non_accessors,
    non_accessor_methods, is_accessor, accessor_name, param_section, param_section_of, params_ordered,
    signatures_ordered, class_names, class_names_of, all_names, bool_text, bool_string, first_word,
    first_word_of, trimmed, trim, comma_pieces, split_commas,
};
use crate::detect::creational::push_match;

verus! {

/// Some method of `ms` returns `rt`.
pub open spec fn some_returns(ms: Seq<MethodDescriptor>, rt: Seq<char>) -> bool {
    exists|j: int| 0 <= j < ms.len() && return_type_spec((#[trigger] ms[j]).signature@) == rt
}

/// Some method of `ms` returns something other than `void`.
pub open spec fn some_non_void(ms: Seq<MethodDescriptor>) -> bool {
    exists|j: int| 0 <= j < ms.len() && return_type_spec((#[trigger] ms[j]).signature@) != "void"@
}

/// The confidence of a composite candidate with action methods `na`
/// (none when it does not qualify).
pub open spec fn composite_confidence(na: Seq<MethodDescriptor>, name: Seq<char>) -> Option<u32> {
    if some_returns(na, name) {
        Some(85)
    } else if na.len() >= 3 && some_returns(na, "void"@) && some_non_void(na) {
        Some(65)
    } else {
        None
    }
}

/// An abstract class whose base class is a known abstract class, or that
/// has an abstract subclass, is an intermediate layer, not a composite.
pub open spec fn intermediate_abstract(tg: TypeGraph, c: ClassInfo) -> bool {
    (c.base_class matches Some(b) && tg.lookup_class(b@) matches Some(bc) && bc.is_abstract) || exists|k: int|
        0 <= k < tg.classes@.len() && (#[trigger] tg.classes@[k]).is_abstract && opt_view(
            tg.classes@[k].base_class,
        ) == Some(c.name@)
}

/// The composite match for the type `name` with methods `ms`, if any.
pub open spec fn composite_for(tg: TypeGraph, name: Seq<char>, ms: Seq<MethodDescriptor>, is_interface: bool) -> Option<MatchView> {
    let na = non_accessors(ms);
    let ni = tg.spec_concrete_subclasses(name).len();
    if ni >= 2 && na.len() >= 2 && composite_confidence(na, name) is Some {
        Some(
            MatchView {
                pattern: PatternKind::Composite,
                class: name,
                description: (if is_interface {
                    "Interface"@
                } else {
                    "Abstract class"@
                }) + " '"@ + name + "' has mgmt+ops with "@ + decimal(ni) + " implementations \u{2014} Composite"@,
                confidence: composite_confidence(na, name).unwrap(),
                participants: seq![name],
                evidence: seq!["returns_self: "@ + bool_text(some_returns(na, name)), "implementations: "@ + decimal(ni)],
            },
        )
    } else {
        None
    }
}

/// Composites among the interfaces.
pub open spec fn composite_iface_matches(tg: TypeGraph, is: Seq<InterfaceInfo>) -> Seq<MatchView>
    decreases is.len(),
{
    if is.len() == 0 {
        Seq::empty()
    } else {
        let rest = composite_iface_matches(tg, is.drop_last());
        match composite_for(tg, is.last().name@, is.last().methods@, true) {
            Some(m) => rest.push(m),
            None => rest,
        }
    }
}

/// Composites among the abstract classes that are not intermediate layers.
pub open spec fn composite_class_matches(tg: TypeGraph, cs: Seq<ClassInfo>) -> Seq<MatchView>
    decreases cs.len(),
{
    if cs.len() == 0 {
        Seq::empty()
    } else {
        let rest = composite_class_matches(tg, cs.drop_last());
        let c = cs.last();
        if c.is_abstract && !intermediate_abstract(tg, c) {
            match composite_for(tg, c.name@, c.methods@, false) {
                Some(m) => rest.push(m),
                None => rest,
            }
        } else {
            rest
        }
    }
}

fn some_returns_exec(ms: &Vec<&MethodDescriptor>, rt: &str) -> (r: bool)
    ensures
        r == some_returns(ms@.map_values(|m: &MethodDescriptor| *m), rt@),
{
    let ghost mv = ms@.map_values(|m: &MethodDescriptor| *m);
    let mut j: usize = 0;
    while j < ms.len()
        invariant
            mv == ms@.map_values(|m: &MethodDescriptor| *m),
            j <= ms@.len(),
            forall|b: int| 0 <= b < j ==> return_type_spec((#[trigger] mv[b]).signature@) != rt@,
        decreases ms.len() - j,
    {
        assert(mv[j as int] == *ms@[j as int]);
        let t = return_type_of(ms[j]);
        if str_eq(t.as_str(), rt) {
            return true;
        }
        j = j + 1;
    }
    false
}

fn some_non_void_exec(ms: &Vec<&MethodDescriptor>) -> (r: bool)
    ensures
        r == some_non_void(ms@.map_values(|m: &MethodDescriptor| *m)),
{
    let ghost mv = ms@.map_values(|m: &MethodDescriptor| *m);
    let mut j: usize = 0;
    while j < ms.len()
        invariant
            mv == ms@.map_values(|m: &MethodDescriptor| *m),
            j <= ms@.len(),
            forall|b: int| 0 <= b < j ==> return_type_spec((#[trigger] mv[b]).signature@) == "void"@,
        decreases ms.len() - j,
    {
        assert(mv[j as int] == *ms@[j as int]);
        let t = return_type_of(ms[j]);
        if !str_eq(t.as_str(), "void") {
            return true;
        }
        j = j + 1;
    }
    false
}

fn intermediate_abstract_exec(tg: &TypeGraph, c: &ClassInfo) -> (r: bool)
    ensures
        r == intermediate_abstract(*tg, *c),
{
    let base_abstract = match &c.base_class {
        Some(b) => match tg.get_class(b.as_str()) {
            Some(bc) => bc.is_abstract,
            None => false,
        },
        None => false,
    };
    if base_abstract {
        return true;
    }
    let mut k: usize = 0;
    while k < tg.classes.len()
        invariant
            k <= tg.classes@.len(),
            forall|x: int| 0 <= x < k ==> !((#[trigger] tg.classes@[x]).is_abstract && opt_view(tg.classes@[x].base_class) == Some(c.name@)),
        decreases tg.classes.len() - k,
    {
        let o = &tg.classes[k];
        if o.is_abstract {
            match &o.base_class {
                Some(b) => {
                    if str_eq(b.as_str(), c.name.as_str()) {
                        return true;
                    }
                },
                None => {},
            }
        }
        k = k + 1;
    }
    false
}

/// The composite match for `name` with methods `ms`, if any.
fn composite_for_type(tg: &TypeGraph, name: &str, ms: &Vec<MethodDescriptor>, is_interface: bool) -> (r: Option<PatternMatch>)
    requires
        tg.wf(),
    ensures
        match r {
            Some(m) => composite_for(*tg, name@, ms@, is_interface) == Some(m@),
            None => composite_for(*tg, name@, ms@, is_interface) is None,
        },
{
    let na = non_accessor_methods(ms);
    let ni = tg.concrete_subclasses(name).len();
    if ni < 2 || na.len() < 2 {
        return None;
    }
    let returns_self = some_returns_exec(&na, name);
    let confidence: u32 = if returns_self {
        85
    } else if na.len() >= 3 && some_returns_exec(&na, "void") && some_non_void_exec(&na) {
        65
    } else {
        return None;
    };
    let mut d = if is_interface {
        String::from_str("Interface")
    } else {
        String::from_str("Abstract class")
    };
    d.append(" '");
    d.append(name);
    d.append("' has mgmt+ops with ");
    let n = decimal_string(ni);
    d.append(n.as_str());
    d.append(" implementations \u{2014} Composite");
    let mut e1 = String::from_str("returns_self: ");
    let b = bool_string(returns_self);
    e1.append(b.as_str());
    let mut e2 = String::from_str("implementations: ");
    e2.append(n.as_str());
    Some(
        PatternMatch {
            pattern: PatternKind::Composite,
            class: String::from_str(name),
            description: d,
            confidence,
            participants: one_name(name),
            evidence: two_names(e1.as_str(), e2.as_str()),
        },
    )
}

fn detect_composite(tg: &TypeGraph, results: &mut Vec<PatternMatch>)
    requires
        tg.wf(),
    ensures
        match_views(final(results)@) == match_views(old(results)@) + composite_iface_matches(*tg, tg.interfaces@)
            + composite_class_matches(*tg, tg.classes@),
{
    let ghost r0 = match_views(results@);
    let mut i: usize = 0;
    while i < tg.interfaces.len()
        invariant
            tg.wf(),
            i <= tg.interfaces@.len(),
            match_views(results@) == r0 + composite_iface_matches(*tg, tg.interfaces@.subrange(0, i as int)),
        decreases tg.interfaces.len() - i,
    {
        let ghost pre = tg.interfaces@.subrange(0, i + 1);
        assert(pre.drop_last() =~= tg.interfaces@.subrange(0, i as int));
        let it = &tg.interfaces[i];
        match composite_for_type(tg, it.name.as_str(), &it.methods, true) {
            Some(m) => push_match(results, m),
            None => {},
        }
        i = i + 1;
    }
    assert(tg.interfaces@.subrange(0, tg.interfaces@.len() as int) =~= tg.interfaces@);
    let ghost r1 = match_views(results@);
    let mut i: usize = 0;
    while i < tg.classes.len()
        invariant
            tg.wf(),
            i <= tg.classes@.len(),
            match_views(results@) == r1 + composite_class_matches(*tg, tg.classes@.subrange(0, i as int)),
        decreases tg.classes.len() - i,
    {
        let ghost pre = tg.classes@.subrange(0, i + 1);
        assert(pre.drop_last() =~= tg.classes@.subrange(0, i as int));
        let c = &tg.classes[i];
        if c.is_abstract && !intermediate_abstract_exec(tg, c) {
            match composite_for_type(tg, c.name.as_str(), &c.methods, false) {
                Some(m) => push_match(results, m),
                None => {},
            }
        }
        i = i + 1;
    }
    assert(tg.classes@.subrange(0, tg.classes@.len() as int) =~= tg.classes@);
}

/// `m` is a constructor of class `class` taking, among its parameters, a
/// known class other than `iface`.
pub open spec fn wraps_other(tg: TypeGraph, class: Seq<char>, iface: Seq<char>, m: MethodDescriptor) -> bool {
    &&& m.method@ == class
    &&& param_section(m.signature@) is Some
    &&& exists|k: int|
        0 <= k < comma_pieces(param_section(m.signature@).unwrap()).len() && #[trigger] other_class_piece(
            tg,
            iface,
            comma_pieces(param_section(m.signature@).unwrap())[k],
        )
}

/// The parameter `piece`, trimmed, is a known class other than `iface`.
pub open spec fn other_class_piece(tg: TypeGraph, iface: Seq<char>, piece: Seq<char>) -> bool {
    trimmed(piece).len() > 0 && trimmed(piece) != iface && tg.has_class(trimmed(piece))
}

/// The methods of class `c` beyond those of the interface with method
/// names `iface_methods`: not accessors, not constructors.
pub open spec fn extra_methods(c: ClassInfo, iface_methods: Seq<Seq<char>>) -> Seq<MethodDescriptor> {
    extra_of(c.methods@, c.name@, iface_methods)
}

/// The methods of `ms` that are not accessors, not constructors of `name`
/// and not named in `iface_methods`.
pub open spec fn extra_of(ms: Seq<MethodDescriptor>, name: Seq<char>, iface_methods: Seq<Seq<char>>) -> Seq<MethodDescriptor> {
    ms.filter(|m: MethodDescriptor| !is_accessor(m.method@) && m.method@ != name && !iface_methods.contains(m.method@))
}

fn has_extra_exec(ms: &Vec<MethodDescriptor>, name: &str, tm: &Vec<String>) -> (r: bool)
    ensures
        r == (extra_of(ms@, name@, string_views(tm@)).len() > 0),
{
    let ghost tmv = string_views(tm@);
    let mut extra = false;
    let mut k: usize = 0;
    while k < ms.len()
        invariant
            tmv == string_views(tm@),
            k <= ms@.len(),
            extra == (extra_of(ms@.subrange(0, k as int), name@, tmv).len() > 0),
        decreases ms.len() - k,
    {
        let ghost pre = ms@.subrange(0, k + 1);
        assert(pre.drop_last() =~= ms@.subrange(0, k as int));
        reveal(Seq::filter);
        let m = &ms[k];
        let in_iface = vec_contains_str(tm, m.method.as_str());
        proof {
            if tmv.contains(m.method@) {
                let x = choose|x: int| 0 <= x < tmv.len() && tmv[x] == m.method@;
                assert(tm@[x]@ == m.method@);
            }
            if in_iface {
                let x = choose|x: int| 0 <= x < tm@.len() && (#[trigger] tm@[x])@ == m.method@;
                assert(tmv[x] == m.method@);
            }
        }
        if !accessor_name(m.method.as_str()) && !str_eq(m.method.as_str(), name) && !in_iface {
            extra = true;
        }
        k = k + 1;
    }
    assert(ms@.subrange(0, ms@.len() as int) =~= ms@);
    extra
}

/// Some method of the interface returns an interface or an abstract class.
pub open spec fn returns_abstraction(tg: TypeGraph, ms: Seq<MethodDescriptor>) -> bool {
    exists|j: int|
        0 <= j < ms.len() && (tg.has_interface(return_type_spec((#[trigger] ms[j]).signature@)) || (tg.lookup_class(
            return_type_spec(ms[j].signature@),
        ) matches Some(c) && c.is_abstract))
}

/// The adapter or decorator match of class `c` for its listed interface
/// `iface`, if any: the interface is known and has methods, the class has
/// them all, and it wraps another class or adds methods of its own.
pub open spec fn adp_for(tg: TypeGraph, c: ClassInfo, iface: Seq<char>) -> Option<MatchView> {
    match tg.lookup_interface(iface) {
        Some(t) => {
            let tm = method_names(t.methods@);
            let cm = method_names(c.methods@);
            let complete = forall|j: int| 0 <= j < tm.len() ==> cm.contains(#[trigger] tm[j]);
            let wraps = exists|j: int| 0 <= j < c.methods@.len() && wraps_other(tg, c.name@, iface, #[trigger] c.methods@[j]);
            let extra = extra_methods(c, tm).len() > 0;
            if t.methods@.len() > 0 && complete && (wraps || extra) {
                if returns_abstraction(tg, t.methods@) {
                    Some(
                        MatchView {
                            pattern: PatternKind::Decorator,
                            class: c.name@,
                            description: "'"@ + c.name@ + "' wraps '"@ + iface + "' \u{2014} decorator pattern"@,
                            confidence: 50,
                            participants: seq![c.name@, iface],
                            evidence: tm,
                        },
                    )
                } else {
                    Some(
                        MatchView {
                            pattern: PatternKind::Adapter,
                            class: c.name@,
                            description: "'"@ + c.name@ + "' implements '"@ + iface + "' \u{2014} adapter"@,
                            confidence: 50,
                            participants: seq![c.name@, iface],
                            evidence: tm,
                        },
                    )
                }
            } else {
                None
            }
        },
        None => None,
    }
}

/// The adapter and decorator matches of class `c` for the interfaces `is`.
pub open spec fn adp_class_matches(tg: TypeGraph, c: ClassInfo, is: Seq<String>) -> Seq<MatchView>
    decreases is.len(),
{
    if is.len() == 0 {
        Seq::empty()
    } else {
        let rest = adp_class_matches(tg, c, is.drop_last());
        match adp_for(tg, c, is.last()@) {
            Some(m) => rest.push(m),
            None => rest,
        }
    }
}

/// Adapters and decorators over all classes.
pub open spec fn adp_matches(tg: TypeGraph, cs: Seq<ClassInfo>) -> Seq<MatchView>
    decreases cs.len(),
{
    if cs.len() == 0 {
        Seq::empty()
    } else {
        adp_matches(tg, cs.drop_last()) + adp_class_matches(tg, cs.last(), cs.last().interfaces@)
    }
}

fn wraps_other_exec(tg: &TypeGraph, class: &str, iface: &str, m: &MethodDescriptor) -> (r: bool)
    requires
        params_ordered(m.signature@),
    ensures
        r == wraps_other(*tg, class@, iface@, *m),
{
    if !str_eq(m.method.as_str(), class) {
        return false;
    }
    match param_section_of(m.signature.as_str()) {
        Some(p) => {
            let pieces = split_commas(p.as_str());
            let ghost pv = comma_pieces(p@);
            let mut k: usize = 0;
            while k < pieces.len()
                invariant
                    string_views(pieces@) == pv,
                    param_section(m.signature@) == Some(p@),
                    m.method@ == class@,
                    pv == comma_pieces(p@),
                    k <= pieces@.len(),
                    forall|x: int| 0 <= x < k ==> !#[trigger] other_class_piece(*tg, iface@, pv[x]),
                decreases pieces.len() - k,
            {
                assert(pv[k as int] == pieces@[k as int]@);
                let t = trim(pieces[k].as_str());
                if t.unicode_len() > 0 && !str_eq(t.as_str(), iface) && tg.contains_class(t.as_str()) {
                    assert(pv.len() == pieces@.len());
                    assert(other_class_piece(*tg, iface@, pv[k as int]));
                    assert(exists|kk: int| 0 <= kk < comma_pieces(p@).len() && #[trigger] other_class_piece(*tg, iface@, comma_pieces(p@)[kk]));
                    assert(param_section(m.signature@) == Some(p@));
                    assert(m.method@ == class@);
                    assert(param_section(m.signature@) is Some);
                    assert(param_section(m.signature@).unwrap() == p@);
                    assert(wraps_other(*tg, class@, iface@, *m));
                    return true;
                }
                k = k + 1;
            }
            false
        },
        None => false,
    }
}

fn wraps_any_exec(tg: &TypeGraph, c: &ClassInfo, iface: &str) -> (r: bool)
    requires
        forall|j: int| 0 <= j < c.methods@.len() ==> params_ordered(#[trigger] c.methods@[j].signature@),
    ensures
        r == exists|b: int| 0 <= b < c.methods@.len() && wraps_other(*tg, c.name@, iface@, #[trigger] c.methods@[b]),
{
    let mut k: usize = 0;
    while k < c.methods.len()
        invariant
            forall|j: int| 0 <= j < c.methods@.len() ==> params_ordered(#[trigger] c.methods@[j].signature@),
            k <= c.methods@.len(),
            forall|b: int| 0 <= b < k ==> !wraps_other(*tg, c.name@, iface@, #[trigger] c.methods@[b]),
        decreases c.methods.len() - k,
    {
        if wraps_other_exec(tg, c.name.as_str(), iface, &c.methods[k]) {
            return true;
        }
        k = k + 1;
    }
    false
}

fn returns_abstraction_exec(tg: &TypeGraph, ms: &Vec<MethodDescriptor>) -> (r: bool)
    ensures
        r == returns_abstraction(*tg, ms@),
{
    let mut j: usize = 0;
    while j < ms.len()
        invariant
            j <= ms@.len(),
            forall|b: int|
                0 <= b < j ==> !(tg.has_interface(return_type_spec((#[trigger] ms@[b]).signature@)) || (tg.lookup_class(
                    return_type_spec(ms@[b].signature@),
                ) matches Some(c) && c.is_abstract)),
        decreases ms.len() - j,
    {
        let rt = return_type_of(&ms[j]);
        let abs = match tg.get_class(rt.as_str()) {
            Some(c) => c.is_abstract,
            None => false,
        };
        if tg.contains_interface(rt.as_str()) || abs {
            return true;
        }
        j = j + 1;
    }
    false
}

fn adp_for_exec(tg: &TypeGraph, c: &ClassInfo, iface: &str) -> (r: Option<PatternMatch>)
    requires
        forall|j: int| 0 <= j < c.methods@.len() ==> params_ordered(#[trigger] c.methods@[j].signature@),
    ensures
        match r {
            Some(m) => adp_for(*tg, *c, iface@) == Some(m@),
            None => adp_for(*tg, *c, iface@) is None,
        },
{
    let t = match tg.get_interface(iface) {
        Some(t) => t,
        None => return None,
    };
    if t.methods.len() == 0 {
        return None;
    }
    let tm = all_names(&t.methods);
    let cm = all_names(&c.methods);
    let ghost tmv = method_names(t.methods@);
    let ghost cmv = method_names(c.methods@);
    let mut j: usize = 0;
    while j < tm.len()
        invariant
            string_views(tm@) == tmv,
            string_views(cm@) == cmv,
            tmv == method_names(t.methods@),
            cmv == method_names(c.methods@),
            tg.lookup_interface(iface@) == Some(*t),
            j <= tm@.len(),
            forall|b: int| 0 <= b < j ==> cmv.contains(#[trigger] tmv[b]),
        decreases tm.len() - j,
    {
        assert(tmv[j as int] == tm@[j as int]@);
        if !vec_contains_str(&cm, tm[j].as_str()) {
            proof {
                if cmv.contains(tmv[j as int]) {
                    let x = choose|x: int| 0 <= x < cmv.len() && cmv[x] == tmv[j as int];
                    assert(cm@[x]@ == tmv[j as int]);
                }
                assert(!cmv.contains(tmv[j as int]));
            }
            return None;
        }
        proof {
            let x = choose|x: int| 0 <= x < cm@.len() && (#[trigger] cm@[x])@ == tm@[j as int]@;
            assert(cmv[x] == tmv[j as int]);
        }
        j = j + 1;
    }
    let wraps = wraps_any_exec(tg, c, iface);
    let extra = has_extra_exec(&c.methods, c.name.as_str(), &tm);
    if !wraps && !extra {
        return None;
    }
    let names = all_names(&t.methods);
    if returns_abstraction_exec(tg, &t.methods) {
        let mut d = String::from_str("'");
        d.append(c.name.as_str());
        d.append("' wraps '");
        d.append(iface);
        d.append("' \u{2014} decorator pattern");
        Some(
            PatternMatch {
                pattern: PatternKind::Decorator,
                class: c.name.clone(),
                description: d,
                confidence: 50,
                participants: two_names(c.name.as_str(), iface),
                evidence: names,
            },
        )
    } else {
        let mut d = String::from_str("'");
        d.append(c.name.as_str());
        d.append("' implements '");
        d.append(iface);
        d.append("' \u{2014} adapter");
        Some(
            PatternMatch {
                pattern: PatternKind::Adapter,
                class: c.name.clone(),
                description: d,
                confidence: 50,
                participants: two_names(c.name.as_str(), iface),
                evidence: names,
            },
        )
    }
}

/// Appends the adapter and decorator matches of class `c`.
fn adp_for_class(tg: &TypeGraph, c: &ClassInfo, results: &mut Vec<PatternMatch>)
    requires
        forall|j: int| 0 <= j < c.methods@.len() ==> params_ordered(#[trigger] c.methods@[j].signature@),
    ensures
        match_views(final(results)@) == match_views(old(results)@) + adp_class_matches(*tg, *c, c.interfaces@),
{
    let ghost r1 = match_views(results@);
    let mut k: usize = 0;
    while k < c.interfaces.len()
        invariant
            forall|j: int| 0 <= j < c.methods@.len() ==> params_ordered(#[trigger] c.methods@[j].signature@),
            k <= c.interfaces@.len(),
            match_views(results@) == r1 + adp_class_matches(*tg, *c, c.interfaces@.subrange(0, k as int)),
        decreases c.interfaces.len() - k,
    {
        let ghost ipre = c.interfaces@.subrange(0, k + 1);
        assert(ipre.drop_last() =~= c.interfaces@.subrange(0, k as int));
        match adp_for_exec(tg, c, c.interfaces[k].as_str()) {
            Some(m) => push_match(results, m),
            None => {},
        }
        k = k + 1;
    }
    assert(c.interfaces@.subrange(0, c.interfaces@.len() as int) =~= c.interfaces@);
}

fn detect_adapter_decorator_proxy(tg: &TypeGraph, results: &mut Vec<PatternMatch>)
    requires
        signatures_ordered(*tg),
    ensures
        match_views(final(results)@) == match_views(old(results)@) + adp_matches(*tg, tg.classes@),
{
    let ghost r0 = match_views(results@);
    let mut i: usize = 0;
    while i < tg.classes.len()
        invariant
            signatures_ordered(*tg),
            i <= tg.classes@.len(),
            match_views(results@) == r0 + adp_matches(*tg, tg.classes@.subrange(0, i as int)),
        decreases tg.classes.len() - i,
    {
        let ghost pre = tg.classes@.subrange(0, i + 1);
        assert(pre.drop_last() =~= tg.classes@.subrange(0, i as int));
        let c = &tg.classes[i];
        proof {
            assert forall|j: int| 0 <= j < c.methods@.len() implies params_ordered(#[trigger] c.methods@[j].signature@) by {
                assert(tg.classes@[i as int].methods@[j] == c.methods@[j]);
            }
        }
        let ghost r1 = match_views(results@);
        adp_for_class(tg, c, results);
        assert(match_views(results@) =~= r0 + adp_matches(*tg, pre));
        i = i + 1;
    }
    assert(tg.classes@.subrange(0, tg.classes@.len() as int) =~= tg.classes@);
}

/// Concrete classes whose base class is `name`.
pub open spec fn concrete_subs(cs: Seq<ClassInfo>, name: Seq<char>) -> Seq<ClassInfo> {
    cs.filter(|c: ClassInfo| !c.is_abstract && opt_view(c.base_class) == Some(name))
}

/// Decorators by hierarchy: an abstract class extending an abstract base,
/// with more methods than the base and two or more concrete subclasses.
pub open spec fn decorator_matches(tg: TypeGraph, cs: Seq<ClassInfo>) -> Seq<MatchView>
    decreases cs.len(),
{
    if cs.len() == 0 {
        Seq::empty()
    } else {
        let rest = decorator_matches(tg, cs.drop_last());
        let c = cs.last();
        match c.base_class {
            Some(b) => match tg.lookup_class(b@) {
                Some(bc) => {
                    let subs = concrete_subs(tg.classes@, c.name@);
                    if c.is_abstract && bc.is_abstract && c.methods@.len() > bc.methods@.len() && subs.len() >= 2 {
                        rest.push(
                            MatchView {
                                pattern: PatternKind::Decorator,
                                class: c.name@,
                                description: "'"@ + c.name@ + "' wraps '"@ + b@ + "' with "@ + decimal(subs.len())
                                    + " decorators \u{2014} Decorator"@,
                                confidence: 70,
                                participants: seq![c.name@, b@],
                                evidence: class_names(subs),
                            },
                        )
                    } else {
                        rest
                    }
                },
                None => rest,
            },
            None => rest,
        }
    }
}

fn concrete_subs_exec<'a>(cs: &'a Vec<ClassInfo>, name: &str) -> (r: Vec<&'a ClassInfo>)
    ensures
        r@.map_values(|c: &ClassInfo| *c) == concrete_subs(cs@, name@),
{
    let mut r: Vec<&ClassInfo> = Vec::new();
    let mut i: usize = 0;
    while i < cs.len()
        invariant
            i <= cs@.len(),
            r@.map_values(|c: &ClassInfo| *c) == concrete_subs(cs@.subrange(0, i as int), name@),
        decreases cs.len() - i,
    {
        let ghost pre = cs@.subrange(0, i + 1);
        assert(pre.drop_last() =~= cs@.subrange(0, i as int));
        reveal(Seq::filter);
        let ghost before = r@;
        let is_sub = match &cs[i].base_class {
            Some(b) => str_eq(b.as_str(), name),
            None => false,
        };
        if !cs[i].is_abstract && is_sub {
            r.push(&cs[i]);
            assert(r@.map_values(|c: &ClassInfo| *c) =~= before.map_values(|c: &ClassInfo| *c).push(cs@[i as int]));
        }
        i = i + 1;
    }
    assert(cs@.subrange(0, cs@.len() as int) =~= cs@);
    r
}

fn detect_decorator(tg: &TypeGraph, results: &mut Vec<PatternMatch>)
    ensures
        match_views(final(results)@) == match_views(old(results)@) + decorator_matches(*tg, tg.classes@),
{
    let ghost r0 = match_views(results@);
    let mut i: usize = 0;
    while i < tg.classes.len()
        invariant
            i <= tg.classes@.len(),
            match_views(results@) == r0 + decorator_matches(*tg, tg.classes@.subrange(0, i as int)),
        decreases tg.classes.len() - i,
    {
        let ghost pre = tg.classes@.subrange(0, i + 1);
        assert(pre.drop_last() =~= tg.classes@.subrange(0, i as int));
        let c = &tg.classes[i];
        match &c.base_class {
            Some(b) => match tg.get_class(b.as_str()) {
                Some(bc) => {
                    if c.is_abstract && bc.is_abstract && c.methods.len() > bc.methods.len() {
                        let subs = concrete_subs_exec(&tg.classes, c.name.as_str());
                        if subs.len() >= 2 {
                            let mut d = String::from_str("'");
                            d.append(c.name.as_str());
                            d.append("' wraps '");
                            d.append(b.as_str());
                            d.append("' with ");
                            let n = decimal_string(subs.len());
                            d.append(n.as_str());
                            d.append(" decorators \u{2014} Decorator");
                            let pm = PatternMatch {
                                pattern: PatternKind::Decorator,
                                class: c.name.clone(),
                                description: d,
                                confidence: 70,
                                participants: two_names(c.name.as_str(), b.as_str()),
                                evidence: class_names_of(&subs),
                            };
                            push_match(results, pm);
                        }
                    }
                },
                None => {},
            },
            None => {},
        }
        i = i + 1;
    }
    assert(tg.classes@.subrange(0, tg.classes@.len() as int) =~= tg.classes@);
}

/// Bridges: an abstract class whose first interface is a known interface,
/// with two or more concrete subclasses.
pub open spec fn bridge_matches(tg: TypeGraph, cs: Seq<ClassInfo>) -> Seq<MatchView>
    decreases cs.len(),
{
    if cs.len() == 0 {
        Seq::empty()
    } else {
        let rest = bridge_matches(tg, cs.drop_last());
        let c = cs.last();
        if c.is_abstract && c.interfaces@.len() > 0 && tg.has_interface(c.interfaces@[0]@)
            && tg.spec_concrete_subclasses(c.name@).len() >= 2 {
            let iface = c.interfaces@[0]@;
            let n = tg.spec_concrete_subclasses(c.name@).len();
            rest.push(
                MatchView {
                    pattern: PatternKind::Bridge,
                    class: c.name@,
                    description: "Abstract '"@ + c.name@ + "' implements '"@ + iface + "' with "@ + decimal(n)
                        + " subclasses \u{2014} Bridge"@,
                    confidence: 60,
                    participants: seq![c.name@, iface],
                    evidence: seq!["subclasses: "@ + decimal(n)],
                },
            )
        } else {
            rest
        }
    }
}

fn detect_bridge(tg: &TypeGraph, results: &mut Vec<PatternMatch>)
    requires
        tg.wf(),
    ensures
        match_views(final(results)@) == match_views(old(results)@) + bridge_matches(*tg, tg.classes@),
{
    let ghost r0 = match_views(results@);
    let mut i: usize = 0;
    while i < tg.classes.len()
        invariant
            tg.wf(),
            i <= tg.classes@.len(),
            match_views(results@) == r0 + bridge_matches(*tg, tg.classes@.subrange(0, i as int)),
        decreases tg.classes.len() - i,
    {
        let ghost pre = tg.classes@.subrange(0, i + 1);
        assert(pre.drop_last() =~= tg.classes@.subrange(0, i as int));
        let c = &tg.classes[i];
        if c.is_abstract && c.interfaces.len() > 0 && tg.contains_interface(c.interfaces[0].as_str()) {
            let n = tg.concrete_subclasses(c.name.as_str()).len();
            if n >= 2 {
                let iface = c.interfaces[0].as_str();
                let mut d = String::from_str("Abstract '");
                d.append(c.name.as_str());
                d.append("' implements '");
                d.append(iface);
                d.append("' with ");
                let k = decimal_string(n);
                d.append(k.as_str());
                d.append(" subclasses \u{2014} Bridge");
                let mut e = String::from_str("subclasses: ");
                e.append(k.as_str());
                let pm = PatternMatch {
                    pattern: PatternKind::Bridge,
                    class: c.name.clone(),
                    description: d,
                    confidence: 60,
                    participants: two_names(c.name.as_str(), iface),
                    evidence: one_name(e.as_str()),
                };
                push_match(results, pm);
            }
        }
        i = i + 1;
    }
    assert(tg.classes@.subrange(0, tg.classes@.len() as int) =~= tg.classes@);
}

/// A static field whose type names a dictionary, cache or pool.
pub open spec fn has_cache_field(fs: Seq<FieldDescriptor>) -> bool {
    exists|j: int|
        0 <= j < fs.len() && (#[trigger] fs[j]).is_static && (has_substring(fs[j].field_type@, "Dictionary"@)
            || has_substring(fs[j].field_type@, "ConcurrentDictionary"@) || has_substring(fs[j].field_type@, "Cache"@)
            || has_substring(fs[j].field_type@, "Pool"@))
}

/// Methods of `ms` whose signature starts with `name`.
pub open spec fn returning_class(ms: Seq<MethodDescriptor>, name: Seq<char>) -> Seq<MethodDescriptor> {
    ms.filter(|m: MethodDescriptor| first_word(m.signature@) == name)
}

/// A static method whose signature starts with `name`.
pub open spec fn has_static_factory(ms: Seq<MethodDescriptor>, name: Seq<char>) -> bool {
    exists|j: int| 0 <= j < ms.len() && (#[trigger] ms[j]).is_static && first_word(ms[j].signature@) == name
}

/// The number of instance methods whose signature starts with `name`.
pub open spec fn self_returning_count(ms: Seq<MethodDescriptor>, name: Seq<char>) -> nat {
    ms.filter(|m: MethodDescriptor| first_word(m.signature@) == name && !m.is_static).len()
}

/// The evidence lines `method -> Class` of the methods returning the class.
pub open spec fn arrow_lines(ms: Seq<MethodDescriptor>, name: Seq<char>) -> Seq<Seq<char>> {
    ms.map_values(|m: MethodDescriptor| m.method@ + " -> "@ + name)
}

/// The flyweight match of class `c`, if any: a static cache field (85
/// with a static factory, 60 without), or two or more instance methods
/// returning the class (40).
pub open spec fn flyweight_of_spec(c: ClassInfo) -> Option<MatchView> {
    let cache = has_cache_field(c.fields@);
    let factory = has_static_factory(c.methods@, c.name@);
    let sr = self_returning_count(c.methods@, c.name@);
    if cache || sr >= 2 {
        Some(
            MatchView {
                pattern: PatternKind::Flyweight,
                class: c.name@,
                description: "'"@ + c.name@ + "' \u{2014} Flyweight (cache: "@ + bool_text(cache) + ", factory: "@
                    + bool_text(factory) + ")"@,
                confidence: if cache && factory {
                    85
                } else if cache {
                    60
                } else {
                    40
                },
                participants: seq![c.name@],
                evidence: flyweight_evidence(cache, factory, c),
            },
        )
    } else {
        None
    }
}

/// The evidence of a flyweight match of class `c`.
pub open spec fn flyweight_evidence(cache: bool, factory: bool, c: ClassInfo) -> Seq<Seq<char>> {
    (if cache {
        seq!["static cache field"@]
    } else {
        Seq::empty()
    }) + (if factory {
        seq!["static factory"@]
    } else {
        Seq::empty()
    }) + arrow_lines(returning_class(c.methods@, c.name@), c.name@)
}

/// Flyweights over the classes `cs`.
pub open spec fn flyweight_matches(cs: Seq<ClassInfo>) -> Seq<MatchView>
    decreases cs.len(),
{
    if cs.len() == 0 {
        Seq::empty()
    } else {
        let rest = flyweight_matches(cs.drop_last());
        match flyweight_of_spec(cs.last()) {
            Some(m) => rest.push(m),
            None => rest,
        }
    }
}

fn has_cache_field_exec(fs: &Vec<FieldDescriptor>) -> (r: bool)
    ensures
        r == has_cache_field(fs@),
{
    let mut j: usize = 0;
    while j < fs.len()
        invariant
            j <= fs@.len(),
            forall|b: int|
                0 <= b < j ==> !((#[trigger] fs@[b]).is_static && (has_substring(fs@[b].field_type@, "Dictionary"@)
                    || has_substring(fs@[b].field_type@, "ConcurrentDictionary"@) || has_substring(
                    fs@[b].field_type@,
                    "Cache"@,
                ) || has_substring(fs@[b].field_type@, "Pool"@))),
        decreases fs.len() - j,
    {
        let t = fs[j].field_type.as_str();
        if fs[j].is_static && (contains(t, "Dictionary") || contains(t, "ConcurrentDictionary") || contains(t, "Cache")
            || contains(t, "Pool")) {
            return true;
        }
        j = j + 1;
    }
    false
}

fn static_factory_exec(ms: &Vec<MethodDescriptor>, name: &str) -> (r: bool)
    ensures
        r == has_static_factory(ms@, name@),
{
    let mut j: usize = 0;
    while j < ms.len()
        invariant
            j <= ms@.len(),
            forall|b: int| 0 <= b < j ==> !((#[trigger] ms@[b]).is_static && first_word(ms@[b].signature@) == name@),
        decreases ms.len() - j,
    {
        let w = first_word_of(ms[j].signature.as_str());
        if ms[j].is_static && str_eq(w.as_str(), name) {
            return true;
        }
        j = j + 1;
    }
    false
}

fn self_returning_exec(ms: &Vec<MethodDescriptor>, name: &str) -> (r: usize)
    ensures
        r == self_returning_count(ms@, name@),
{
    let mut sr: usize = 0;
    let mut j: usize = 0;
    while j < ms.len()
        invariant
            j <= ms@.len(),
            sr == self_returning_count(ms@.subrange(0, j as int), name@),
            sr <= j,
        decreases ms.len() - j,
    {
        let ghost pre = ms@.subrange(0, j + 1);
        assert(pre.drop_last() =~= ms@.subrange(0, j as int));
        reveal(Seq::filter);
        let w = first_word_of(ms[j].signature.as_str());
        if str_eq(w.as_str(), name) && !ms[j].is_static {
            sr = sr + 1;
        }
        j = j + 1;
    }
    assert(ms@.subrange(0, ms@.len() as int) =~= ms@);
    sr
}

fn arrows_exec(ms: &Vec<MethodDescriptor>, name: &str) -> (r: Vec<String>)
    ensures
        string_views(r@) == arrow_lines(returning_class(ms@, name@), name@),
{
    let mut arrows: Vec<String> = Vec::new();
    let mut j: usize = 0;
    while j < ms.len()
        invariant
            j <= ms@.len(),
            string_views(arrows@) == arrow_lines(returning_class(ms@.subrange(0, j as int), name@), name@),
        decreases ms.len() - j,
    {
        let ghost pre = ms@.subrange(0, j + 1);
        assert(pre.drop_last() =~= ms@.subrange(0, j as int));
        reveal(Seq::filter);
        let ghost rc0 = returning_class(ms@.subrange(0, j as int), name@);
        let m = &ms[j];
        let w = first_word_of(m.signature.as_str());
        if str_eq(w.as_str(), name) {
            let mut line = m.method.clone();
            line.append(" -> ");
            line.append(name);
            let ghost a0 = arrows@;
            let ghost lv = line@;
            assert(lv == m.method@ + " -> "@ + name@);
            arrows.push(line);
            proof {
                assert(returning_class(pre, name@) =~= rc0.push(*m));
                assert(arrows@ == a0.push(line));
                assert(string_views(arrows@) =~= string_views(a0).push(lv));
                assert(arrow_lines(rc0.push(*m), name@) =~= arrow_lines(rc0, name@).push(lv));
            }
        } else {
            assert(returning_class(pre, name@) =~= rc0);
        }
        j = j + 1;
    }
    assert(ms@.subrange(0, ms@.len() as int) =~= ms@);
    arrows
}

fn flyweight_of(c: &ClassInfo) -> (r: Option<PatternMatch>)
    ensures
        match r {
            Some(m) => flyweight_of_spec(*c) == Some(m@),
            None => flyweight_of_spec(*c) is None,
        },
{
    let cache = has_cache_field_exec(&c.fields);
    let factory = static_factory_exec(&c.methods, c.name.as_str());
    let sr = self_returning_exec(&c.methods, c.name.as_str());
    if !(cache || sr >= 2) {
        return None;
    }
    let confidence: u32 = if cache && factory {
        85
    } else if cache {
        60
    } else {
        40
    };
    let mut arrows = arrows_exec(&c.methods, c.name.as_str());
    let mut evidence: Vec<String> = Vec::new();
    if cache {
        evidence.push(String::from_str("static cache field"));
    }
    if factory {
        evidence.push(String::from_str("static factory"));
    }
    let ghost e0 = evidence@;
    let ghost a0 = arrows@;
    evidence.append(&mut arrows);
    let mut d = String::from_str("'");
    d.append(c.name.as_str());
    d.append("' \u{2014} Flyweight (cache: ");
    let b1 = bool_string(cache);
    d.append(b1.as_str());
    d.append(", factory: ");
    let b2 = bool_string(factory);
    d.append(b2.as_str());
    d.append(")");
    let pm = PatternMatch {
        pattern: PatternKind::Flyweight,
        class: c.name.clone(),
        description: d,
        confidence,
        participants: one_name(c.name.as_str()),
        evidence,
    };
    proof {
        assert(evidence@ == e0 + a0);
        assert(string_views(e0 + a0) =~= string_views(e0) + string_views(a0));
        assert(string_views(pm.evidence@) =~= flyweight_evidence(cache, factory, *c));
    }
    Some(pm)
}

fn detect_flyweight(tg: &TypeGraph, results: &mut Vec<PatternMatch>)
    ensures
        match_views(final(results)@) == match_views(old(results)@) + flyweight_matches(tg.classes@),
{
    let ghost r0 = match_views(results@);
    let mut i: usize = 0;
    while i < tg.classes.len()
        invariant
            i <= tg.classes@.len(),
            match_views(results@) == r0 + flyweight_matches(tg.classes@.subrange(0, i as int)),
        decreases tg.classes.len() - i,
    {
        let ghost pre = tg.classes@.subrange(0, i + 1);
        assert(pre.drop_last() =~= tg.classes@.subrange(0, i as int));
        let c = &tg.classes[i];
        match flyweight_of(c) {
            Some(m) => push_match(results, m),
            None => {},
        }
        i = i + 1;
    }
    assert(tg.classes@.subrange(0, tg.classes@.len() as int) =~= tg.classes@);
}

/// Facades: a concrete, non-static class with no interfaces and four or
/// more methods.
pub open spec fn facade_matches(cs: Seq<ClassInfo>) -> Seq<MatchView>
    decreases cs.len(),
{
    if cs.len() == 0 {
        Seq::empty()
    } else {
        let rest = facade_matches(cs.drop_last());
        let c = cs.last();
        if !c.is_abstract && !c.is_static && c.interfaces@.len() == 0 && c.methods@.len() >= 4 {
            rest.push(
                MatchView {
                    pattern: PatternKind::Facade,
                    class: c.name@,
                    description: "'"@ + c.name@ + "' has "@ + decimal(c.methods@.len())
                        + " methods and no interfaces \u{2014} Facade"@,
                    confidence: 30,
                    participants: seq![c.name@],
                    evidence: method_names(c.methods@),
                },
            )
        } else {
            rest
        }
    }
}

fn detect_facade(tg: &TypeGraph, results: &mut Vec<PatternMatch>)
    ensures
        match_views(final(results)@) == match_views(old(results)@) + facade_matches(tg.classes@),
{
    let ghost r0 = match_views(results@);
    let mut i: usize = 0;
    while i < tg.classes.len()
        invariant
            i <= tg.classes@.len(),
            match_views(results@) == r0 + facade_matches(tg.classes@.subrange(0, i as int)),
        decreases tg.classes.len() - i,
    {
        let ghost pre = tg.classes@.subrange(0, i + 1);
        assert(pre.drop_last() =~= tg.classes@.subrange(0, i as int));
        let c = &tg.classes[i];
        if !c.is_abstract && !c.is_static && c.interfaces.len() == 0 && c.methods.len() >= 4 {
            let mut d = String::from_str("'");
            d.append(c.name.as_str());
            d.append("' has ");
            let n = decimal_string(c.methods.len());
            d.append(n.as_str());
            d.append(" methods and no interfaces \u{2014} Facade");
            let pm = PatternMatch {
                pattern: PatternKind::Facade,
                class: c.name.clone(),
                description: d,
                confidence: 30,
                participants: one_name(c.name.as_str()),
                evidence: all_names(&c.methods),
            };
            push_match(results, pm);
        }
        i = i + 1;
    }
    assert(tg.classes@.subrange(0, tg.classes@.len() as int) =~= tg.classes@);
}

/// All structural matches, detector by detector.
pub open spec fn structural_matches(tg: TypeGraph) -> Seq<MatchView> {
    composite_iface_matches(tg, tg.interfaces@) + composite_class_matches(tg, tg.classes@) + adp_matches(
        tg,
        tg.classes@,
    ) + decorator_matches(tg, tg.classes@) + bridge_matches(tg, tg.classes@) + flyweight_matches(tg.classes@)
        + facade_matches(tg.classes@)
}

/// Structural patterns of the context: Composite, Adapter/Decorator (by
/// interface), Decorator (by hierarchy), Bridge, Flyweight and Facade, in
/// that order.
pub fn detect_structural(ctx: &DetectionContext) -> (r: Vec<PatternMatch>)
    requires
        ctx.type_graph.wf(),
        signatures_ordered(*ctx.type_graph),
    ensures
        match_views(r@) == structural_matches(*ctx.type_graph),
{
    let tg = ctx.type_graph;
    let mut results: Vec<PatternMatch> = Vec::new();
    assert(match_views(results@) =~= Seq::<MatchView>::empty());
    detect_composite(tg, &mut results);
    detect_adapter_decorator_proxy(tg, &mut results);
    detect_decorator(tg, &mut results);
    detect_bridge(tg, &mut results);
    detect_flyweight(tg, &mut results);
    detect_facade(tg, &mut results);
    assert(match_views(results@) =~= structural_matches(*tg));
    results
}

/// Class `c` has a static field whose type names a dictionary, cache or
/// pool.
pub open spec fn has_static_cache(c: ClassInfo) -> bool {
    exists|j: int|
        0 <= j < c.fields@.len() && (#[trigger] c.fields@[j]).is_static && (has_substring(
            c.fields@[j].field_type@,
            "Dictionary"@,
        ) || has_substring(c.fields@[j].field_type@, "ConcurrentDictionary"@) || has_substring(
            c.fields@[j].field_type@,
            "Cache"@,
        ) || has_substring(c.fields@[j].field_type@, "Pool"@))
}

/// What a Flyweight match of class `c` says of it: a static cache field
/// exactly when its confidence is 60 or more (85 with a static factory
/// method, 60 without), and otherwise (40) two or more instance methods
/// returning the class.
pub open spec fn flyweight_grounds(c: ClassInfo, m: MatchView) -> bool {
    &&& m.class == c.name@
    &&& m.confidence >= 60 <==> has_static_cache(c)
    &&& m.confidence == if has_static_cache(c) && has_static_factory(c.methods@, c.name@) {
        85u32
    } else if has_static_cache(c) {
        60u32
    } else {
        40u32
    }
    &&& has_static_cache(c) || self_returning_count(c.methods@, c.name@) >= 2
}

proof fn lemma_flyweights_sound(cs: Seq<ClassInfo>, k: int)
    requires
        0 <= k < flyweight_matches(cs).len(),
    ensures
        exists|x: int| 0 <= x < cs.len() && flyweight_grounds(#[trigger] cs[x], flyweight_matches(cs)[k]),
    decreases cs.len(),
{
    let rest = flyweight_matches(cs.drop_last());
    if k < rest.len() {
        lemma_flyweights_sound(cs.drop_last(), k);
        let x = choose|x: int| 0 <= x < cs.drop_last().len() && flyweight_grounds(#[trigger] cs.drop_last()[x], rest[k]);
        assert(cs.drop_last()[x] == cs[x]);
        assert(flyweight_matches(cs)[k] == rest[k]);
        assert(flyweight_grounds(cs[x], flyweight_matches(cs)[k]));
    } else {
        let x = cs.len() - 1;
        assert(cs[x] == cs.last());
        assert(has_cache_field(cs[x].fields@) == has_static_cache(cs[x]));
        assert(flyweight_grounds(cs[x], flyweight_matches(cs)[k]));
    }
}

proof fn lemma_flyweights_complete(cs: Seq<ClassInfo>, x: int)
    requires
        0 <= x < cs.len(),
        has_static_cache(cs[x]) || self_returning_count(cs[x].methods@, cs[x].name@) >= 2,
    ensures
        exists|k: int|
            0 <= k < flyweight_matches(cs).len() && flyweight_grounds(cs[x], #[trigger] flyweight_matches(cs)[k])
                && flyweight_matches(cs)[k].pattern == PatternKind::Flyweight,
    decreases cs.len(),
{
    let rest = flyweight_matches(cs.drop_last());
    if x < cs.len() - 1 {
        assert(cs.drop_last()[x] == cs[x]);
        lemma_flyweights_complete(cs.drop_last(), x);
        let k = choose|k: int|
            0 <= k < rest.len() && flyweight_grounds(cs[x], #[trigger] rest[k]) && rest[k].pattern == PatternKind::Flyweight;
        assert(flyweight_matches(cs)[k] == rest[k]);
    } else {
        assert(cs.last() == cs[x]);
        assert(has_cache_field(cs[x].fields@) == has_static_cache(cs[x]));
        let k = rest.len() as int;
        assert(flyweight_grounds(cs[x], flyweight_matches(cs)[k]));
    }
}

proof fn lemma_composite_iface_kind(tg: TypeGraph, is: Seq<InterfaceInfo>)
    ensures
        none_of_kind(composite_iface_matches(tg, is), PatternKind::Flyweight),
    decreases is.len(),
{
    if is.len() > 0 {
        lemma_composite_iface_kind(tg, is.drop_last());
    }
}

proof fn lemma_composite_class_kind(tg: TypeGraph, cs: Seq<ClassInfo>)
    ensures
        none_of_kind(composite_class_matches(tg, cs), PatternKind::Flyweight),
    decreases cs.len(),
{
    if cs.len() > 0 {
        lemma_composite_class_kind(tg, cs.drop_last());
    }
}

proof fn lemma_adp_class_kind(tg: TypeGraph, c: ClassInfo, is: Seq<String>)
    ensures
        none_of_kind(adp_class_matches(tg, c, is), PatternKind::Flyweight),
    decreases is.len(),
{
    if is.len() > 0 {
        lemma_adp_class_kind(tg, c, is.drop_last());
    }
}

proof fn lemma_adp_kind(tg: TypeGraph, cs: Seq<ClassInfo>)
    ensures
        none_of_kind(adp_matches(tg, cs), PatternKind::Flyweight),
    decreases cs.len(),
{
    if cs.len() > 0 {
        lemma_adp_kind(tg, cs.drop_last());
        lemma_adp_class_kind(tg, cs.last(), cs.last().interfaces@);
        lemma_none_of_kind_concat(
            adp_matches(tg, cs.drop_last()),
            adp_class_matches(tg, cs.last(), cs.last().interfaces@),
            PatternKind::Flyweight,
        );
    }
}

proof fn lemma_decorator_kind(tg: TypeGraph, cs: Seq<ClassInfo>)
    ensures
        none_of_kind(decorator_matches(tg, cs), PatternKind::Flyweight),
    decreases cs.len(),
{
    if cs.len() > 0 {
        lemma_decorator_kind(tg, cs.drop_last());
    }
}

proof fn lemma_bridge_kind(tg: TypeGraph, cs: Seq<ClassInfo>)
    ensures
        none_of_kind(bridge_matches(tg, cs), PatternKind::Flyweight),
    decreases cs.len(),
{
    if cs.len() > 0 {
        lemma_bridge_kind(tg, cs.drop_last());
    }
}

proof fn lemma_facade_kind(cs: Seq<ClassInfo>)
    ensures
        none_of_kind(facade_matches(cs), PatternKind::Flyweight),
    decreases cs.len(),
{
    if cs.len() > 0 {
        lemma_facade_kind(cs.drop_last());
    }
}

/// A Flyweight needs a static cache or self-returning instance methods:
/// every Flyweight match that structural detection reports names a class of
/// the graph whose confidence is 60 or more exactly when the class has a
/// static field typed as a dictionary, cache or pool, and which otherwise
/// has two or more instance methods returning the class. Instance fields
/// alone never make a Flyweight. Every class with such a cache field, or
/// with two or more such methods, gets a Flyweight match.
pub proof fn law_flyweight_needs_static_cache(tg: TypeGraph)
    ensures
        forall|x: int|
            0 <= x < tg.classes@.len() && (has_static_cache(#[trigger] tg.classes@[x]) || self_returning_count(
                tg.classes@[x].methods@,
                tg.classes@[x].name@,
            ) >= 2) ==> exists|k: int|
                0 <= k < structural_matches(tg).len() && flyweight_grounds(
                    tg.classes@[x],
                    #[trigger] structural_matches(tg)[k],
                ) && structural_matches(tg)[k].pattern == PatternKind::Flyweight,
        forall|k: int|
            0 <= k < structural_matches(tg).len() && (#[trigger] structural_matches(tg)[k]).pattern
                == PatternKind::Flyweight ==> exists|x: int|
                0 <= x < tg.classes@.len() && flyweight_grounds(#[trigger] tg.classes@[x], structural_matches(tg)[k]),
{
    let cs = tg.classes@;
    let a = composite_iface_matches(tg, tg.interfaces@);
    let b = composite_class_matches(tg, cs);
    let c = adp_matches(tg, cs);
    let d = decorator_matches(tg, cs);
    let e = bridge_matches(tg, cs);
    let f = flyweight_matches(cs);
    let g = facade_matches(cs);
    lemma_composite_iface_kind(tg, tg.interfaces@);
    lemma_composite_class_kind(tg, cs);
    lemma_adp_kind(tg, cs);
    lemma_decorator_kind(tg, cs);
    lemma_bridge_kind(tg, cs);
    lemma_facade_kind(cs);
    lemma_none_of_kind_concat(a, b, PatternKind::Flyweight);
    lemma_none_of_kind_concat(a + b, c, PatternKind::Flyweight);
    lemma_none_of_kind_concat(a + b + c, d, PatternKind::Flyweight);
    lemma_none_of_kind_concat(a + b + c + d, e, PatternKind::Flyweight);
    let pre = a + b + c + d + e;
    let all = structural_matches(tg);
    assert(all =~= pre + f + g);
    assert forall|k: int| 0 <= k < all.len() && (#[trigger] all[k]).pattern == PatternKind::Flyweight implies exists|x: int|
        0 <= x < cs.len() && flyweight_grounds(#[trigger] cs[x], all[k]) by {
        if k < pre.len() {
            assert(all[k] == pre[k]);
        } else if k < pre.len() + f.len() {
            assert(all[k] == f[k - pre.len()]);
            lemma_flyweights_sound(cs, k - pre.len());
        } else {
            assert(all[k] == g[k - pre.len() - f.len()]);
        }
    }
    assert forall|x: int|
        0 <= x < cs.len() && (has_static_cache(#[trigger] cs[x]) || self_returning_count(cs[x].methods@, cs[x].name@)
            >= 2) implies exists|k: int|
        0 <= k < all.len() && flyweight_grounds(cs[x], #[trigger] all[k]) && all[k].pattern == PatternKind::Flyweight by {
        lemma_flyweights_complete(cs, x);
        let j = choose|j: int|
            0 <= j < f.len() && flyweight_grounds(cs[x], #[trigger] f[j]) && f[j].pattern == PatternKind::Flyweight;
        assert(all[pre.len() + j] == f[j]);
    }
}

} // verus!
