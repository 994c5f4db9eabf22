//! Virtual dispatch resolution: CHA (Class Hierarchy Analysis) and RTA
//! (Rapid Type Analysis).

use vstd::prelude::*;
use crate::resolve::types::{
    CallSite, CallTarget, ClassInfo, Confidence, MethodDescriptor, TypeGraph, find_method,
    first_method_named, names_contain, single_site, vec_contains_str,
};

verus! {

/// For each class of `cs`, its first method named `method`.
pub open spec fn first_methods_of(cs: Seq<ClassInfo>, method: Seq<char>) -> Seq<MethodDescriptor>
    decreases cs.len(),
{
    if cs.len() == 0 {
        Seq::empty()
    } else {
        let prev = first_methods_of(cs.drop_last(), method);
        match first_method_named(cs.last().methods@, method) {
            Some(m) => prev.push(m),
            None => prev,
        }
    }
}

/// The methods that CHA finds for `method` on `class_name`: the override
/// in each concrete subclass (at most one per class).
pub open spec fn spec_cha_methods(tg: TypeGraph, class_name: Seq<char>, method: Seq<char>) -> Seq<MethodDescriptor> {
    first_methods_of(tg.spec_concrete_subclasses(class_name), method)
}

/// The receiver type and method name that CHA dispatches on.
pub open spec fn cha_query(target: CallTarget) -> Option<(Seq<char>, Seq<char>)> {
    match target {
        CallTarget::Virtual { class, method } => Some(
            (
                match class {
                    Some(c) => c@,
                    None => Seq::empty(),
                },
                method@,
            ),
        ),
        CallTarget::Abstract { interface, method } => Some((interface@, method@)),
        _ => None,
    }
}

/// The call sites CHA yields: one site with the resolved overrides, or
/// none when nothing resolved.
pub open spec fn cha_result(r: Seq<CallSite>, target: CallTarget, caller: Seq<char>, tg: TypeGraph) -> bool {
    match cha_query(target) {
        Some((cls, m)) => {
            let res = spec_cha_methods(tg, cls, m);
            if res.len() == 0 {
                r.len() == 0
            } else {
                single_site(r, caller, target, Confidence::CHA, res)
            }
        },
        None => r.len() == 0,
    }
}

/// CHA: walk the type hierarchy to find all possible override targets.
pub fn resolve_cha(target: &CallTarget, caller: &str, type_graph: &TypeGraph) -> (r: Vec<CallSite>)
    requires
        type_graph.wf(),
    ensures
        cha_result(r@, *target, caller@, *type_graph),
{
    match target {
        CallTarget::Virtual { class, method } => {
            let class_name: &str = match class {
                Some(c) => c.as_str(),
                None => "",
            };
            proof {
                reveal_strlit("");
                assert(""@ =~= Seq::<char>::empty());
            }
            resolve_virtual_impl(target, caller, type_graph, class_name, method.as_str())
        },
        CallTarget::Abstract { interface, method } => {
            resolve_virtual_impl(target, caller, type_graph, interface.as_str(), method.as_str())
        },
        _ => Vec::new(),
    }
}

/// The overrides of `method` in the concrete subclasses of `class_name`,
/// as one CHA call site.
pub fn resolve_virtual_impl(
    target: &CallTarget,
    caller: &str,
    type_graph: &TypeGraph,
    class_name: &str,
    method: &str,
) -> (r: Vec<CallSite>)
    requires
        type_graph.wf(),
    ensures
        ({
            let res = spec_cha_methods(*type_graph, class_name@, method@);
            if res.len() == 0 {
                r@.len() == 0
            } else {
                single_site(r@, caller@, *target, Confidence::CHA, res)
            }
        }),
{
    let concretes = type_graph.concrete_subclasses(class_name);
    let ghost cs = concretes@.map_values(|c: &ClassInfo| *c);
    let mut resolved: Vec<MethodDescriptor> = Vec::new();
    let mut i: usize = 0;
    while i < concretes.len()
        invariant
            i <= concretes@.len(),
            cs == concretes@.map_values(|c: &ClassInfo| *c),
            resolved@ == first_methods_of(cs.subrange(0, i as int), method@),
        decreases concretes.len() - i,
    {
        let ghost pre = cs.subrange(0, i + 1);
        assert(pre.drop_last() =~= cs.subrange(0, i as int));
        assert(pre.last() == *concretes@[i as int]);
        match find_method(&concretes[i].methods, method) {
            Some(m) => {
                resolved.push(m.clone());
            },
            None => {},
        }
        i = i + 1;
    }
    assert(cs.subrange(0, concretes@.len() as int) =~= cs);
    if resolved.len() == 0 {
        return Vec::new();
    }
    vec![CallSite {
        caller: String::from_str(caller),
        target: target.clone(),
        confidence: Confidence::CHA,
        resolved,
    }]
}

/// The CHA methods that belong to an instantiated type.
pub open spec fn spec_rta_methods(cha: Seq<MethodDescriptor>, instantiated: Seq<String>) -> Seq<MethodDescriptor> {
    cha.filter(|m: MethodDescriptor| names_contain(instantiated, m.class@))
}

/// RTA: keep the CHA results whose class is actually instantiated
/// (`new` expressions); the set of instantiated types is given by name.
pub fn resolve_rta(
    target: &CallTarget,
    caller: &str,
    type_graph: &TypeGraph,
    instantiated_types: &Vec<String>,
) -> (r: Vec<CallSite>)
    requires
        type_graph.wf(),
    ensures
        match cha_query(*target) {
            Some((cls, m)) => {
                let res = spec_rta_methods(spec_cha_methods(*type_graph, cls, m), instantiated_types@);
                if res.len() == 0 {
                    r@.len() == 0
                } else {
                    single_site(r@, caller@, *target, Confidence::RTA, res)
                }
            },
            None => r@.len() == 0,
        },
{
    let cha_sites = resolve_cha(target, caller, type_graph);
    if cha_sites.len() == 0 {
        proof {
            reveal(Seq::filter);
        }
        return cha_sites;
    }
    let site = &cha_sites[0];
    let mut filtered: Vec<MethodDescriptor> = Vec::new();
    let mut i: usize = 0;
    while i < site.resolved.len()
        invariant
            i <= site.resolved@.len(),
            filtered@ == spec_rta_methods(site.resolved@.subrange(0, i as int), instantiated_types@),
        decreases site.resolved.len() - i,
    {
        let ghost pre = site.resolved@.subrange(0, i + 1);
        assert(pre.drop_last() =~= site.resolved@.subrange(0, i as int));
        reveal(Seq::filter);
        if vec_contains_str(instantiated_types, site.resolved[i].class.as_str()) {
            filtered.push(site.resolved[i].clone());
        }
        i = i + 1;
    }
    assert(site.resolved@.subrange(0, site.resolved@.len() as int) =~= site.resolved@);
    if filtered.len() == 0 {
        return Vec::new();
    }
    vec![CallSite {
        caller: String::from_str(caller),
        target: target.clone(),
        confidence: Confidence::RTA,
        resolved: filtered,
    }]
}

/// RTA keeps exactly the CHA methods whose class is instantiated: each
/// of its methods is a CHA method of an instantiated class, and each such
/// method is kept.
pub proof fn law_rta_filters_cha(cha: Seq<MethodDescriptor>, instantiated: Seq<String>, m: MethodDescriptor)
    ensures
        spec_rta_methods(cha, instantiated).contains(m) <==> (cha.contains(m) && names_contain(instantiated, m.class@)),
{
    let p = |x: MethodDescriptor| names_contain(instantiated, x.class@);
    #[allow(deprecated)]
    cha.filter_lemma(p);
    if cha.filter(p).contains(m) {
        cha.lemma_filter_contains_rev(p, m);
        let j = choose|j: int| 0 <= j < cha.filter(p).len() && cha.filter(p)[j] == m;
        assert(p(cha.filter(p)[j]));
    }
    if cha.contains(m) && p(m) {
        let i = choose|i: int| 0 <= i < cha.len() && cha[i] == m;
        cha.lemma_filter_contains(p, i);
    }
}

} // verus!
