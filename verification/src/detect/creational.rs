//! Creational patterns: Singleton, Factory Method, Abstract Factory,
//! Builder, Prototype.

use vstd::prelude::*;
use crate::text::{str_eq, string_views, decimal, decimal_string};
use crate::resolve::types::{TypeGraph, ClassInfo, InterfaceInfo, MethodDescriptor, names_contain, vec_contains_str};
use crate::detect::types::{
    DetectionContext, PatternKind, PatternMatch, MatchView, match_views, all_of_kind, lemma_filter_witness,
    lemma_filter_nonempty, lemma_filter_member,
};
use crate::detect::common::{return_type_spec, return_type_of, method_names, names_of, one_name, two_names};

verus! {

/// Static methods of `ms` that return `name`.
pub open spec fn static_self(ms: Seq<MethodDescriptor>, name: Seq<char>) -> Seq<MethodDescriptor> {
    ms.filter(|m: MethodDescriptor| m.is_static && return_type_spec(m.signature@) == name)
}

/// Instance methods of `ms` that return `name`.
pub open spec fn fluent(ms: Seq<MethodDescriptor>, name: Seq<char>) -> Seq<MethodDescriptor> {
    ms.filter(|m: MethodDescriptor| !m.is_static && return_type_spec(m.signature@) == name)
}

/// Methods of `ms` that return something other than `void` and `name`.
pub open spec fn returns_other(ms: Seq<MethodDescriptor>, name: Seq<char>) -> Seq<MethodDescriptor> {
    ms.filter(|m: MethodDescriptor| return_type_spec(m.signature@) != "void"@ && return_type_spec(m.signature@) != name)
}

/// Methods of `ms` that return an interface of `tg`.
pub open spec fn returning_interfaces(tg: TypeGraph, ms: Seq<MethodDescriptor>) -> Seq<MethodDescriptor> {
    ms.filter(|m: MethodDescriptor| return_type_spec(m.signature@) != "void"@ && tg.has_interface(return_type_spec(m.signature@)))
}

/// A match naming one class.
pub open spec fn one_class_match(
    k: PatternKind,
    class: Seq<char>,
    description: Seq<char>,
    confidence: u32,
    evidence: Seq<Seq<char>>,
) -> MatchView {
    MatchView { pattern: k, class, description, confidence, participants: seq![class], evidence }
}

/// Singletons: a class with a static method returning the class.
pub open spec fn singleton_matches(cs: Seq<ClassInfo>) -> Seq<MatchView>
    decreases cs.len(),
{
    if cs.len() == 0 {
        Seq::empty()
    } else {
        let rest = singleton_matches(cs.drop_last());
        let c = cs.last();
        let sr = static_self(c.methods@, c.name@);
        if sr.len() > 0 {
            rest.push(
                one_class_match(
                    PatternKind::Singleton,
                    c.name@,
                    "'"@ + c.name@ + "' has static method returning itself \u{2014} single instance"@,
                    90,
                    method_names(sr),
                ),
            )
        } else {
            rest
        }
    }
}

/// A method that returns an interface or an abstract class (not `void`,
/// not its own class): a factory method.
pub open spec fn is_factory_method(tg: TypeGraph, class: Seq<char>, m: MethodDescriptor) -> bool {
    let rt = return_type_spec(m.signature@);
    rt != "void"@ && rt != class && (tg.has_interface(rt) || (tg.lookup_class(rt) matches Some(c)
        && c.is_abstract))
}

/// The factory method match of method `m` of class `class`.
pub open spec fn factory_match(class: Seq<char>, m: MethodDescriptor) -> MatchView {
    let rt = return_type_spec(m.signature@);
    MatchView {
        pattern: PatternKind::FactoryMethod,
        class,
        description: "'"@ + m.method@ + "' returns '"@ + rt + "' (interface/abstract)"@,
        confidence: 85,
        participants: seq![class, rt],
        evidence: seq![m.method@ + " \u{2192} "@ + rt],
    }
}

/// The factory methods among `ms` of class `class`.
pub open spec fn factory_matches_in(tg: TypeGraph, class: Seq<char>, ms: Seq<MethodDescriptor>) -> Seq<MatchView>
    decreases ms.len(),
{
    if ms.len() == 0 {
        Seq::empty()
    } else {
        let rest = factory_matches_in(tg, class, ms.drop_last());
        if is_factory_method(tg, class, ms.last()) {
            rest.push(factory_match(class, ms.last()))
        } else {
            rest
        }
    }
}

/// The factory methods of the classes `cs`.
pub open spec fn factory_matches(tg: TypeGraph, cs: Seq<ClassInfo>) -> Seq<MatchView>
    decreases cs.len(),
{
    if cs.len() == 0 {
        Seq::empty()
    } else {
        factory_matches(tg, cs.drop_last()) + factory_matches_in(tg, cs.last().name@, cs.last().methods@)
    }
}

/// Abstract factories: an interface with two or more methods returning
/// interfaces.
pub open spec fn abstract_factory_matches(tg: TypeGraph, is: Seq<InterfaceInfo>) -> Seq<MatchView>
    decreases is.len(),
{
    if is.len() == 0 {
        Seq::empty()
    } else {
        let rest = abstract_factory_matches(tg, is.drop_last());
        let i = is.last();
        let ri = returning_interfaces(tg, i.methods@);
        if ri.len() >= 2 {
            rest.push(
                one_class_match(
                    PatternKind::AbstractFactory,
                    i.name@,
                    "Interface '"@ + i.name@ + "' has "@ + decimal(ri.len()) + " methods returning interfaces"@,
                    90,
                    method_names(ri),
                ),
            )
        } else {
            rest
        }
    }
}

/// Builders: a concrete class with two or more instance methods returning
/// itself and some method returning something else.
pub open spec fn builder_matches(cs: Seq<ClassInfo>) -> Seq<MatchView>
    decreases cs.len(),
{
    if cs.len() == 0 {
        Seq::empty()
    } else {
        let rest = builder_matches(cs.drop_last());
        let c = cs.last();
        let sr = fluent(c.methods@, c.name@);
        let ro = returns_other(c.methods@, c.name@);
        if !c.is_abstract && sr.len() >= 2 && ro.len() > 0 {
            rest.push(
                one_class_match(
                    PatternKind::Builder,
                    c.name@,
                    "'"@ + c.name@ + "' has "@ + decimal(sr.len()) + " fluent methods + "@ + decimal(ro.len())
                        + " build methods \u{2014} builder pattern"@,
                    85,
                    method_names(sr) + method_names(ro),
                ),
            )
        } else {
            rest
        }
    }
}

/// Prototypes: a class implementing `ICloneable`.
pub open spec fn prototype_matches(cs: Seq<ClassInfo>) -> Seq<MatchView>
    decreases cs.len(),
{
    if cs.len() == 0 {
        Seq::empty()
    } else {
        let rest = prototype_matches(cs.drop_last());
        let c = cs.last();
        if names_contain(c.interfaces@, "ICloneable"@) {
            rest.push(
                one_class_match(
                    PatternKind::Prototype,
                    c.name@,
                    "'"@ + c.name@ + "' implements ICloneable \u{2014} prototype"@,
                    95,
                    seq!["ICloneable"@],
                ),
            )
        } else {
            rest
        }
    }
}

/// All creational matches, detector by detector.
pub open spec fn creational_matches(tg: TypeGraph) -> Seq<MatchView> {
    singleton_matches(tg.classes@) + factory_matches(tg, tg.classes@) + abstract_factory_matches(
        tg,
        tg.interfaces@,
    ) + builder_matches(tg.classes@) + prototype_matches(tg.classes@)
}

/// Pushes a match and keeps the views in step.
pub fn push_match(results: &mut Vec<PatternMatch>, m: PatternMatch)
    ensures
        match_views(final(results)@) == match_views(old(results)@).push(m@),
{
    let ghost r0 = results@;
    results.push(m);
    assert(match_views(results@) =~= match_views(r0).push(m@));
}

fn static_self_exec<'a>(ms: &'a Vec<MethodDescriptor>, name: &str) -> (r: Vec<&'a MethodDescriptor>)
    ensures
        r@.map_values(|m: &MethodDescriptor| *m) == static_self(ms@, name@),
{
    let mut r: Vec<&MethodDescriptor> = Vec::new();
    let mut i: usize = 0;
    while i < ms.len()
        invariant
            i <= ms@.len(),
            r@.map_values(|m: &MethodDescriptor| *m) == static_self(ms@.subrange(0, i as int), name@),
        decreases ms.len() - i,
    {
        let ghost pre = ms@.subrange(0, i + 1);
        assert(pre.drop_last() =~= ms@.subrange(0, i as int));
        reveal(Seq::filter);
        let ghost before = r@;
        let rt = return_type_of(&ms[i]);
        if ms[i].is_static && str_eq(rt.as_str(), name) {
            r.push(&ms[i]);
            assert(r@.map_values(|m: &MethodDescriptor| *m) =~= before.map_values(|m: &MethodDescriptor| *m).push(ms@[i as int]));
        }
        i = i + 1;
    }
    assert(ms@.subrange(0, ms@.len() as int) =~= ms@);
    r
}

fn fluent_exec<'a>(ms: &'a Vec<MethodDescriptor>, name: &str) -> (r: Vec<&'a MethodDescriptor>)
    ensures
        r@.map_values(|m: &MethodDescriptor| *m) == fluent(ms@, name@),
{
    let mut r: Vec<&MethodDescriptor> = Vec::new();
    let mut i: usize = 0;
    while i < ms.len()
        invariant
            i <= ms@.len(),
            r@.map_values(|m: &MethodDescriptor| *m) == fluent(ms@.subrange(0, i as int), name@),
        decreases ms.len() - i,
    {
        let ghost pre = ms@.subrange(0, i + 1);
        assert(pre.drop_last() =~= ms@.subrange(0, i as int));
        reveal(Seq::filter);
        let ghost before = r@;
        let rt = return_type_of(&ms[i]);
        if !ms[i].is_static && str_eq(rt.as_str(), name) {
            r.push(&ms[i]);
            assert(r@.map_values(|m: &MethodDescriptor| *m) =~= before.map_values(|m: &MethodDescriptor| *m).push(ms@[i as int]));
        }
        i = i + 1;
    }
    assert(ms@.subrange(0, ms@.len() as int) =~= ms@);
    r
}

fn returns_other_exec<'a>(ms: &'a Vec<MethodDescriptor>, name: &str) -> (r: Vec<&'a MethodDescriptor>)
    ensures
        r@.map_values(|m: &MethodDescriptor| *m) == returns_other(ms@, name@),
{
    let mut r: Vec<&MethodDescriptor> = Vec::new();
    let mut i: usize = 0;
    while i < ms.len()
        invariant
            i <= ms@.len(),
            r@.map_values(|m: &MethodDescriptor| *m) == returns_other(ms@.subrange(0, i as int), name@),
        decreases ms.len() - i,
    {
        let ghost pre = ms@.subrange(0, i + 1);
        assert(pre.drop_last() =~= ms@.subrange(0, i as int));
        reveal(Seq::filter);
        let ghost before = r@;
        let rt = return_type_of(&ms[i]);
        if !str_eq(rt.as_str(), "void") && !str_eq(rt.as_str(), name) {
            r.push(&ms[i]);
            assert(r@.map_values(|m: &MethodDescriptor| *m) =~= before.map_values(|m: &MethodDescriptor| *m).push(ms@[i as int]));
        }
        i = i + 1;
    }
    assert(ms@.subrange(0, ms@.len() as int) =~= ms@);
    r
}

fn returning_interfaces_exec<'a>(tg: &TypeGraph, ms: &'a Vec<MethodDescriptor>) -> (r: Vec<&'a MethodDescriptor>)
    ensures
        r@.map_values(|m: &MethodDescriptor| *m) == returning_interfaces(*tg, ms@),
{
    let mut r: Vec<&MethodDescriptor> = Vec::new();
    let mut i: usize = 0;
    while i < ms.len()
        invariant
            i <= ms@.len(),
            r@.map_values(|m: &MethodDescriptor| *m) == returning_interfaces(*tg, ms@.subrange(0, i as int)),
        decreases ms.len() - i,
    {
        let ghost pre = ms@.subrange(0, i + 1);
        assert(pre.drop_last() =~= ms@.subrange(0, i as int));
        reveal(Seq::filter);
        let ghost before = r@;
        let rt = return_type_of(&ms[i]);
        if !str_eq(rt.as_str(), "void") && tg.contains_interface(rt.as_str()) {
            r.push(&ms[i]);
            assert(r@.map_values(|m: &MethodDescriptor| *m) =~= before.map_values(|m: &MethodDescriptor| *m).push(ms@[i as int]));
        }
        i = i + 1;
    }
    assert(ms@.subrange(0, ms@.len() as int) =~= ms@);
    r
}

fn detect_singleton(tg: &TypeGraph, results: &mut Vec<PatternMatch>)
    ensures
        match_views(final(results)@) == match_views(old(results)@) + singleton_matches(tg.classes@),
{
    let ghost r0 = match_views(results@);
    let mut i: usize = 0;
    while i < tg.classes.len()
        invariant
            i <= tg.classes@.len(),
            match_views(results@) == r0 + singleton_matches(tg.classes@.subrange(0, i as int)),
        decreases tg.classes.len() - i,
    {
        let ghost pre = tg.classes@.subrange(0, i + 1);
        assert(pre.drop_last() =~= tg.classes@.subrange(0, i as int));
        let c = &tg.classes[i];
        let sr = static_self_exec(&c.methods, c.name.as_str());
        if sr.len() > 0 {
            let mut d = String::from_str("'");
            d.append(c.name.as_str());
            d.append("' has static method returning itself \u{2014} single instance");
            let m = PatternMatch {
                pattern: PatternKind::Singleton,
                class: c.name.clone(),
                description: d,
                confidence: 90,
                participants: one_name(c.name.as_str()),
                evidence: names_of(&sr),
            };
            push_match(results, m);
        }
        i = i + 1;
    }
    assert(tg.classes@.subrange(0, tg.classes@.len() as int) =~= tg.classes@);
}

/// Whether class `rt` of `tg` is abstract.
fn is_abstract_class(tg: &TypeGraph, rt: &str) -> (r: bool)
    ensures
        r == (tg.lookup_class(rt@) matches Some(c) && c.is_abstract),
{
    match tg.get_class(rt) {
        Some(c) => c.is_abstract,
        None => false,
    }
}

fn detect_factory_methods(tg: &TypeGraph, results: &mut Vec<PatternMatch>)
    ensures
        match_views(final(results)@) == match_views(old(results)@) + factory_matches(*tg, tg.classes@),
{
    let ghost r0 = match_views(results@);
    let mut i: usize = 0;
    while i < tg.classes.len()
        invariant
            i <= tg.classes@.len(),
            match_views(results@) == r0 + factory_matches(*tg, tg.classes@.subrange(0, i as int)),
        decreases tg.classes.len() - i,
    {
        let ghost pre = tg.classes@.subrange(0, i + 1);
        assert(pre.drop_last() =~= tg.classes@.subrange(0, i as int));
        let c = &tg.classes[i];
        let ghost r1 = match_views(results@);
        let mut j: usize = 0;
        while j < c.methods.len()
            invariant
                j <= c.methods@.len(),
                match_views(results@) == r1 + factory_matches_in(*tg, c.name@, c.methods@.subrange(0, j as int)),
            decreases c.methods.len() - j,
        {
            let ghost mpre = c.methods@.subrange(0, j + 1);
            assert(mpre.drop_last() =~= c.methods@.subrange(0, j as int));
            let m = &c.methods[j];
            let rt = return_type_of(m);
            if !str_eq(rt.as_str(), "void") && !str_eq(rt.as_str(), c.name.as_str()) && (tg.contains_interface(
                rt.as_str(),
            ) || is_abstract_class(tg, rt.as_str())) {
                let mut d = String::from_str("'");
                d.append(m.method.as_str());
                d.append("' returns '");
                d.append(rt.as_str());
                d.append("' (interface/abstract)");
                let mut e = m.method.clone();
                e.append(" \u{2192} ");
                e.append(rt.as_str());
                let mut ev: Vec<String> = Vec::new();
                ev.push(e);
                let pm = PatternMatch {
                    pattern: PatternKind::FactoryMethod,
                    class: c.name.clone(),
                    description: d,
                    confidence: 85,
                    participants: two_names(c.name.as_str(), rt.as_str()),
                    evidence: ev,
                };
                proof {
                    assert(string_views(pm.evidence@) =~= factory_match(c.name@, *m).evidence);
                    assert(pm@ == factory_match(c.name@, *m));
                }
                push_match(results, pm);
            }
            j = j + 1;
        }
        assert(c.methods@.subrange(0, c.methods@.len() as int) =~= c.methods@);
        assert(match_views(results@) =~= r0 + factory_matches(*tg, pre));
        i = i + 1;
    }
    assert(tg.classes@.subrange(0, tg.classes@.len() as int) =~= tg.classes@);
}

fn detect_abstract_factory(tg: &TypeGraph, results: &mut Vec<PatternMatch>)
    ensures
        match_views(final(results)@) == match_views(old(results)@) + abstract_factory_matches(*tg, tg.interfaces@),
{
    let ghost r0 = match_views(results@);
    let mut i: usize = 0;
    while i < tg.interfaces.len()
        invariant
            i <= tg.interfaces@.len(),
            match_views(results@) == r0 + abstract_factory_matches(*tg, tg.interfaces@.subrange(0, i as int)),
        decreases tg.interfaces.len() - i,
    {
        let ghost pre = tg.interfaces@.subrange(0, i + 1);
        assert(pre.drop_last() =~= tg.interfaces@.subrange(0, i as int));
        let it = &tg.interfaces[i];
        let ri = returning_interfaces_exec(tg, &it.methods);
        if ri.len() >= 2 {
            let mut d = String::from_str("Interface '");
            d.append(it.name.as_str());
            d.append("' has ");
            let n = decimal_string(ri.len());
            d.append(n.as_str());
            d.append(" methods returning interfaces");
            let pm = PatternMatch {
                pattern: PatternKind::AbstractFactory,
                class: it.name.clone(),
                description: d,
                confidence: 90,
                participants: one_name(it.name.as_str()),
                evidence: names_of(&ri),
            };
            push_match(results, pm);
        }
        i = i + 1;
    }
    assert(tg.interfaces@.subrange(0, tg.interfaces@.len() as int) =~= tg.interfaces@);
}

fn detect_builder(tg: &TypeGraph, results: &mut Vec<PatternMatch>)
    ensures
        match_views(final(results)@) == match_views(old(results)@) + builder_matches(tg.classes@),
{
    let ghost r0 = match_views(results@);
    let mut i: usize = 0;
    while i < tg.classes.len()
        invariant
            i <= tg.classes@.len(),
            match_views(results@) == r0 + builder_matches(tg.classes@.subrange(0, i as int)),
        decreases tg.classes.len() - i,
    {
        let ghost pre = tg.classes@.subrange(0, i + 1);
        assert(pre.drop_last() =~= tg.classes@.subrange(0, i as int));
        let c = &tg.classes[i];
        if !c.is_abstract {
            let sr = fluent_exec(&c.methods, c.name.as_str());
            let ro = returns_other_exec(&c.methods, c.name.as_str());
            if sr.len() >= 2 && ro.len() > 0 {
                let mut d = String::from_str("'");
                d.append(c.name.as_str());
                d.append("' has ");
                let a = decimal_string(sr.len());
                d.append(a.as_str());
                d.append(" fluent methods + ");
                let b = decimal_string(ro.len());
                d.append(b.as_str());
                d.append(" build methods \u{2014} builder pattern");
                let mut ev = names_of(&sr);
                let mut more = names_of(&ro);
                let ghost e0 = ev@;
                ev.append(&mut more);
                let pm = PatternMatch {
                    pattern: PatternKind::Builder,
                    class: c.name.clone(),
                    description: d,
                    confidence: 85,
                    participants: one_name(c.name.as_str()),
                    evidence: ev,
                };
                proof {
                    let sv = fluent(c.methods@, c.name@);
                    let rv = returns_other(c.methods@, c.name@);
                    assert(string_views(pm.evidence@) =~= method_names(sv) + method_names(rv));
                }
                push_match(results, pm);
            }
        }
        i = i + 1;
    }
    assert(tg.classes@.subrange(0, tg.classes@.len() as int) =~= tg.classes@);
}

fn detect_prototype(tg: &TypeGraph, results: &mut Vec<PatternMatch>)
    ensures
        match_views(final(results)@) == match_views(old(results)@) + prototype_matches(tg.classes@),
{
    let ghost r0 = match_views(results@);
    let mut i: usize = 0;
    while i < tg.classes.len()
        invariant
            i <= tg.classes@.len(),
            match_views(results@) == r0 + prototype_matches(tg.classes@.subrange(0, i as int)),
        decreases tg.classes.len() - i,
    {
        let ghost pre = tg.classes@.subrange(0, i + 1);
        assert(pre.drop_last() =~= tg.classes@.subrange(0, i as int));
        let c = &tg.classes[i];
        if vec_contains_str(&c.interfaces, "ICloneable") {
            let mut d = String::from_str("'");
            d.append(c.name.as_str());
            d.append("' implements ICloneable \u{2014} prototype");
            let pm = PatternMatch {
                pattern: PatternKind::Prototype,
                class: c.name.clone(),
                description: d,
                confidence: 95,
                participants: one_name(c.name.as_str()),
                evidence: one_name("ICloneable"),
            };
            push_match(results, pm);
        }
        i = i + 1;
    }
    assert(tg.classes@.subrange(0, tg.classes@.len() as int) =~= tg.classes@);
}

/// Creational patterns of the context's type graph: singletons, factory
/// methods, abstract factories, builders and prototypes, in that order.
pub fn detect_creational(ctx: &DetectionContext) -> (r: Vec<PatternMatch>)
    ensures
        match_views(r@) == creational_matches(*ctx.type_graph),
{
    let mut results: Vec<PatternMatch> = Vec::new();
    assert(match_views(results@) =~= Seq::<MatchView>::empty());
    detect_singleton(ctx.type_graph, &mut results);
    detect_factory_methods(ctx.type_graph, &mut results);
    detect_abstract_factory(ctx.type_graph, &mut results);
    detect_builder(ctx.type_graph, &mut results);
    detect_prototype(ctx.type_graph, &mut results);
    assert(match_views(results@) =~= creational_matches(*ctx.type_graph));
    results
}

/// Class `c` has a static method whose return type is `c` itself.
pub open spec fn has_static_self_method(c: ClassInfo) -> bool {
    exists|j: int|
        0 <= j < c.methods@.len() && (#[trigger] c.methods@[j]).is_static && return_type_spec(c.methods@[j].signature@)
            == c.name@
}

/// Method `j` of class `c` is a static method named `n` returning `c`.
pub open spec fn static_self_named(c: ClassInfo, j: int, n: Seq<char>) -> bool {
    0 <= j < c.methods@.len() && c.methods@[j].is_static && return_type_spec(c.methods@[j].signature@) == c.name@
        && c.methods@[j].method@ == n
}

/// Evidence `ev` lists, and only lists, names of static methods of `c`
/// returning `c`; there is at least one.
pub open spec fn static_self_evidence(c: ClassInfo, ev: Seq<Seq<char>>) -> bool {
    &&& ev.len() > 0
    &&& forall|q: int| 0 <= q < ev.len() ==> names_static_self(c, #[trigger] ev[q])
}

/// Some static method of `c` returning `c` is named `n`.
pub open spec fn names_static_self(c: ClassInfo, n: Seq<char>) -> bool {
    exists|j: int| static_self_named(c, j, n)
}

proof fn lemma_static_self_evidence(c: ClassInfo)
    requires
        static_self(c.methods@, c.name@).len() > 0,
    ensures
        static_self_evidence(c, method_names(static_self(c.methods@, c.name@))),
{
    let sr = static_self(c.methods@, c.name@);
    let ev = method_names(sr);
    assert(ev.len() == sr.len());
    assert forall|q: int| 0 <= q < ev.len() implies names_static_self(c, #[trigger] ev[q]) by {
        lemma_filter_member(
            c.methods@,
            |m: MethodDescriptor| m.is_static && return_type_spec(m.signature@) == c.name@,
            q,
        );
        let j = choose|j: int|
            0 <= j < c.methods@.len() && #[trigger] c.methods@[j] == sr[q] && (c.methods@[j].is_static
                && return_type_spec(c.methods@[j].signature@) == c.name@);
        assert(ev[q] == sr[q].method@);
        assert(static_self_named(c, j, ev[q]));
    }
}

proof fn lemma_singletons_sound(cs: Seq<ClassInfo>, k: int)
    requires
        0 <= k < singleton_matches(cs).len(),
    ensures
        singleton_matches(cs)[k].pattern == PatternKind::Singleton,
        singleton_matches(cs)[k].confidence == 90,
        exists|x: int|
            0 <= x < cs.len() && (#[trigger] cs[x]).name@ == singleton_matches(cs)[k].class && has_static_self_method(
                cs[x],
            ) && static_self_evidence(cs[x], singleton_matches(cs)[k].evidence),
    decreases cs.len(),
{
    let rest = singleton_matches(cs.drop_last());
    if k < rest.len() {
        lemma_singletons_sound(cs.drop_last(), k);
        let x = choose|x: int|
            0 <= x < cs.drop_last().len() && (#[trigger] cs.drop_last()[x]).name@ == rest[k].class
                && has_static_self_method(cs.drop_last()[x]) && static_self_evidence(cs.drop_last()[x], rest[k].evidence);
        assert(cs.drop_last()[x] == cs[x]);
    } else {
        let c = cs.last();
        let x = cs.len() - 1;
        assert(cs[x] == c);
        lemma_filter_witness(
            c.methods@,
            |m: MethodDescriptor| m.is_static && return_type_spec(m.signature@) == c.name@,
        );
        lemma_static_self_evidence(c);
    }
}

proof fn lemma_singletons_complete(cs: Seq<ClassInfo>, x: int)
    requires
        0 <= x < cs.len(),
        has_static_self_method(cs[x]),
    ensures
        exists|k: int|
            0 <= k < singleton_matches(cs).len() && (#[trigger] singleton_matches(cs)[k]).class == cs[x].name@,
    decreases cs.len(),
{
    let rest = singleton_matches(cs.drop_last());
    if x < cs.len() - 1 {
        assert(cs.drop_last()[x] == cs[x]);
        lemma_singletons_complete(cs.drop_last(), x);
        let k = choose|k: int| 0 <= k < rest.len() && (#[trigger] rest[k]).class == cs[x].name@;
        assert(singleton_matches(cs)[k] == rest[k]);
    } else {
        let c = cs.last();
        assert(cs[x] == c);
        let j = choose|j: int|
            0 <= j < c.methods@.len() && (#[trigger] c.methods@[j]).is_static && return_type_spec(
                c.methods@[j].signature@,
            ) == c.name@;
        lemma_filter_nonempty(
            c.methods@,
            |m: MethodDescriptor| m.is_static && return_type_spec(m.signature@) == c.name@,
            j,
        );
        assert(singleton_matches(cs)[rest.len() as int].class == c.name@);
    }
}

proof fn lemma_factory_in_kind(tg: TypeGraph, class: Seq<char>, ms: Seq<MethodDescriptor>)
    ensures
        all_of_kind(factory_matches_in(tg, class, ms), PatternKind::FactoryMethod),
    decreases ms.len(),
{
    if ms.len() > 0 {
        lemma_factory_in_kind(tg, class, ms.drop_last());
    }
}

proof fn lemma_factory_kind(tg: TypeGraph, cs: Seq<ClassInfo>)
    ensures
        all_of_kind(factory_matches(tg, cs), PatternKind::FactoryMethod),
    decreases cs.len(),
{
    if cs.len() > 0 {
        lemma_factory_kind(tg, cs.drop_last());
        lemma_factory_in_kind(tg, cs.last().name@, cs.last().methods@);
        let a = factory_matches(tg, cs.drop_last());
        let b = factory_matches_in(tg, cs.last().name@, cs.last().methods@);
        assert forall|x: int| 0 <= x < (a + b).len() implies (#[trigger] (a + b)[x]).pattern
            == PatternKind::FactoryMethod by {
            if x >= a.len() {
                assert((a + b)[x] == b[x - a.len()]);
            }
        }
    }
}

proof fn lemma_abstract_factory_kind(tg: TypeGraph, is: Seq<InterfaceInfo>)
    ensures
        all_of_kind(abstract_factory_matches(tg, is), PatternKind::AbstractFactory),
    decreases is.len(),
{
    if is.len() > 0 {
        lemma_abstract_factory_kind(tg, is.drop_last());
    }
}

proof fn lemma_builder_kind(cs: Seq<ClassInfo>)
    ensures
        all_of_kind(builder_matches(cs), PatternKind::Builder),
    decreases cs.len(),
{
    if cs.len() > 0 {
        lemma_builder_kind(cs.drop_last());
    }
}

proof fn lemma_prototype_kind(cs: Seq<ClassInfo>)
    ensures
        all_of_kind(prototype_matches(cs), PatternKind::Prototype),
    decreases cs.len(),
{
    if cs.len() > 0 {
        lemma_prototype_kind(cs.drop_last());
    }
}

/// Singletons are classes with a static method returning the class: every
/// Singleton match that creational detection reports names a class of the
/// graph that has a static method whose return type is that class, and
/// every such class gets a Singleton match. A Singleton match has
/// confidence 90 and its evidence names static methods of the class that
/// return it. A class whose methods returning it are all instance methods
/// gets none.
pub proof fn law_singleton_needs_static_self(tg: TypeGraph)
    ensures
        forall|k: int|
            0 <= k < creational_matches(tg).len() && (#[trigger] creational_matches(tg)[k]).pattern
                == PatternKind::Singleton ==> exists|x: int|
                0 <= x < tg.classes@.len() && (#[trigger] tg.classes@[x]).name@ == creational_matches(tg)[k].class
                    && has_static_self_method(tg.classes@[x]) && creational_matches(tg)[k].confidence == 90
                    && static_self_evidence(tg.classes@[x], creational_matches(tg)[k].evidence),
        forall|x: int|
            0 <= x < tg.classes@.len() && has_static_self_method(#[trigger] tg.classes@[x]) ==> exists|k: int|
                0 <= k < creational_matches(tg).len() && (#[trigger] creational_matches(tg)[k]).class
                    == tg.classes@[x].name@ && creational_matches(tg)[k].pattern == PatternKind::Singleton,
{
    let cs = tg.classes@;
    let s = singleton_matches(cs);
    let rest = factory_matches(tg, cs) + abstract_factory_matches(tg, tg.interfaces@) + builder_matches(cs)
        + prototype_matches(cs);
    lemma_factory_kind(tg, cs);
    lemma_abstract_factory_kind(tg, tg.interfaces@);
    lemma_builder_kind(cs);
    lemma_prototype_kind(cs);
    let all = creational_matches(tg);
    assert(all =~= s + rest);
    assert forall|k: int| 0 <= k < all.len() && (#[trigger] all[k]).pattern == PatternKind::Singleton implies exists|x: int|
        0 <= x < cs.len() && (#[trigger] cs[x]).name@ == all[k].class && has_static_self_method(cs[x])
            && all[k].confidence == 90 && static_self_evidence(cs[x], all[k].evidence) by {
        if k < s.len() {
            assert(all[k] == s[k]);
            lemma_singletons_sound(cs, k);
        } else {
            let f = factory_matches(tg, cs);
            let af = abstract_factory_matches(tg, tg.interfaces@);
            let b = builder_matches(cs);
            let p = prototype_matches(cs);
            let j = k - s.len();
            assert(all[k] == rest[j]);
            if j < f.len() {
                assert(rest[j] == f[j]);
            } else if j < f.len() + af.len() {
                assert(rest[j] == af[j - f.len()]);
            } else if j < f.len() + af.len() + b.len() {
                assert(rest[j] == b[j - f.len() - af.len()]);
            } else {
                assert(rest[j] == p[j - f.len() - af.len() - b.len()]);
            }
        }
    }
    assert forall|x: int| 0 <= x < cs.len() && has_static_self_method(#[trigger] cs[x]) implies exists|k: int|
        0 <= k < all.len() && (#[trigger] all[k]).class == cs[x].name@ && all[k].pattern == PatternKind::Singleton by {
        lemma_singletons_complete(cs, x);
        let k = choose|k: int| 0 <= k < s.len() && (#[trigger] s[k]).class == cs[x].name@;
        lemma_singletons_sound(cs, k);
        assert(all[k] == s[k]);
    }
}

} // verus!
