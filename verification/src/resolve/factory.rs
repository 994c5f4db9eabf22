//! Factory method resolution: calls to `Create`, `Build`, `Make`,
//! `Resolve` or `GetInstance` are factory calls.

use vstd::prelude::*;
use crate::text::str_eq;
use crate::resolve::types::{CallSite, CallTarget, ClassInfo, Confidence, FactoryDescriptor, MethodDescriptor, TypeGraph};
use crate::detect::common::{return_type_spec, return_type_of};

verus! {

/// The names of the methods that build an instance: `Create`, `Build`,
/// `Make` and `Resolve`.
pub open spec fn is_factory_method_name(m: Seq<char>) -> bool {
    m == "Create"@ || m == "Build"@ || m == "Make"@ || m == "Resolve"@
}

/// A type the graph knows as an interface or as an abstract class.
pub open spec fn is_abstraction(tg: TypeGraph, name: Seq<char>) -> bool {
    tg.has_interface(name) || (tg.lookup_class(name) matches Some(c) && c.is_abstract)
}

/// The factory a method is, as (return type, method name): one named like
/// a factory method whose return type is an interface or abstract class.
pub open spec fn factory_of(tg: TypeGraph, m: MethodDescriptor) -> Option<(Seq<char>, Seq<char>)> {
    let rt = return_type_spec(m.signature@);
    if is_factory_method_name(m.method@) && is_abstraction(tg, rt) {
        Some((rt, m.method@))
    } else {
        None
    }
}

/// The factories among `ms`, in order.
pub open spec fn factories_in(tg: TypeGraph, ms: Seq<MethodDescriptor>) -> Seq<(Seq<char>, Seq<char>)>
    decreases ms.len(),
{
    if ms.len() == 0 {
        Seq::empty()
    } else {
        factories_in(tg, ms.drop_last()) + match factory_of(tg, ms.last()) {
            Some(f) => seq![f],
            None => Seq::empty(),
        }
    }
}

/// The factories of the classes `cs`, class by class.
pub open spec fn class_factories(tg: TypeGraph, cs: Seq<ClassInfo>) -> Seq<(Seq<char>, Seq<char>)>
    decreases cs.len(),
{
    if cs.len() == 0 {
        Seq::empty()
    } else {
        class_factories(tg, cs.drop_last()) + factories_in(tg, cs.last().methods@)
    }
}

/// The descriptors as (return type, method name), with whether each is
/// conditional.
pub open spec fn factory_views(r: Seq<FactoryDescriptor>) -> Seq<(Seq<char>, Seq<char>, bool)> {
    r.map_values(|f: FactoryDescriptor| (f.return_type@, f.factory_method@, f.conditional))
}

/// Detect factory methods in the type graph: in each class, in order, the
/// methods named `Create`, `Build`, `Make` or `Resolve` that return an
/// interface or an abstract class of the graph (none is conditional).
pub fn detect_factories(type_graph: &TypeGraph) -> (r: Vec<FactoryDescriptor>)
    ensures
        factory_views(r@) == class_factories(*type_graph, type_graph.classes@).map_values(
            |f: (Seq<char>, Seq<char>)| (f.0, f.1, false),
        ),
{
    let mut r: Vec<FactoryDescriptor> = Vec::new();
    let ghost cs = type_graph.classes@;
    let mut i: usize = 0;
    assert(factory_views(r@) =~= class_factories(*type_graph, cs.subrange(0, 0)).map_values(
        |f: (Seq<char>, Seq<char>)| (f.0, f.1, false),
    ));
    while i < type_graph.classes.len()
        invariant
            cs == type_graph.classes@,
            i <= cs.len(),
            factory_views(r@) == class_factories(*type_graph, cs.subrange(0, i as int)).map_values(
                |f: (Seq<char>, Seq<char>)| (f.0, f.1, false),
            ),
        decreases type_graph.classes.len() - i,
    {
        let ms = &type_graph.classes[i].methods;
        let ghost r0 = factory_views(r@);
        let mut j: usize = 0;
        assert(factories_in(*type_graph, ms@.subrange(0, 0)) =~= Seq::<(Seq<char>, Seq<char>)>::empty());
        assert(r0 =~= r0 + factories_in(*type_graph, ms@.subrange(0, 0)).map_values(
            |f: (Seq<char>, Seq<char>)| (f.0, f.1, false),
        ));
        while j < ms.len()
            invariant
                ms@ == cs[i as int].methods@,
                j <= ms@.len(),
                factory_views(r@) == r0 + factories_in(*type_graph, ms@.subrange(0, j as int)).map_values(
                    |f: (Seq<char>, Seq<char>)| (f.0, f.1, false),
                ),
            decreases ms.len() - j,
        {
            let m = &ms[j];
            assert(ms@.subrange(0, j + 1).drop_last() =~= ms@.subrange(0, j as int));
            let ghost before = factory_views(r@);
            let name = m.method.as_str();
            let named = str_eq(name, "Create") || str_eq(name, "Build") || str_eq(name, "Make") || str_eq(
                name,
                "Resolve",
            );
            let rt = return_type_of(m);
            let abstraction = type_graph.contains_interface(rt.as_str()) || match type_graph.get_class(rt.as_str()) {
                Some(c) => c.is_abstract,
                None => false,
            };
            if named && abstraction {
                r.push(FactoryDescriptor { return_type: rt, factory_method: m.method.clone(), conditional: false });
                assert(factory_views(r@) =~= before.push((rt@, m.method@, false)));
            }
            assert(factory_views(r@) =~= r0 + factories_in(*type_graph, ms@.subrange(0, j + 1)).map_values(
                |f: (Seq<char>, Seq<char>)| (f.0, f.1, false),
            ));
            j = j + 1;
        }
        assert(ms@.subrange(0, ms@.len() as int) =~= ms@);
        assert(cs.subrange(0, i + 1).drop_last() =~= cs.subrange(0, i as int));
        assert(factory_views(r@) =~= class_factories(*type_graph, cs.subrange(0, i + 1)).map_values(
            |f: (Seq<char>, Seq<char>)| (f.0, f.1, false),
        ));
        i = i + 1;
    }
    assert(cs.subrange(0, cs.len() as int) =~= cs);
    r
}

/// The method names treated as factory methods.
pub open spec fn is_factory_name(m: Seq<char>) -> bool {
    m == "Create"@ || m == "Build"@ || m == "Make"@ || m == "Resolve"@ || m == "GetInstance"@
}

/// The method name of a static or instance call.
pub open spec fn factory_method_of(target: CallTarget) -> Option<Seq<char>> {
    match target {
        CallTarget::Static { method, .. } => Some(method@),
        CallTarget::Instance { method } => Some(method@),
        _ => None,
    }
}

/// Resolve a factory-based call: a low-confidence (RTA) call site with no
/// resolved methods when the callee is a factory method.
pub fn resolve_factory(
    target: &CallTarget,
    caller: &str,
    _type_graph: &TypeGraph,
    _factories: &[FactoryDescriptor],
) -> (r: Vec<CallSite>)
    ensures
        match factory_method_of(*target) {
            Some(m) => if is_factory_name(m) {
                single_empty_site(r@, caller@, *target, Confidence::RTA)
            } else {
                r@.len() == 0
            },
            None => r@.len() == 0,
        },
        r@.len() == 1 <==> (factory_method_of(*target) matches Some(m) && (m == "Create"@ || m == "Build"@ || m
            == "Make"@ || m == "Resolve"@ || m == "GetInstance"@)),
        r@.len() <= 1,
        r@.len() == 1 ==> single_empty_site(r@, caller@, *target, Confidence::RTA),
{
    let method: &str = match target {
        CallTarget::Static { method, .. } => method.as_str(),
        CallTarget::Instance { method } => method.as_str(),
        _ => {
            return Vec::new();
        },
    };
    let is_factory = str_eq(method, "Create") || str_eq(method, "Build") || str_eq(method, "Make")
        || str_eq(method, "Resolve") || str_eq(method, "GetInstance");
    if !is_factory {
        return Vec::new();
    }
    vec![CallSite {
        caller: String::from_str(caller),
        target: target.clone(),
        confidence: Confidence::RTA,
        resolved: Vec::new(),
    }]
}

/// One call site with the given parts and no resolved methods.
pub open spec fn single_empty_site(
    r: Seq<CallSite>,
    caller: Seq<char>,
    target: CallTarget,
    confidence: Confidence,
) -> bool {
    &&& r.len() == 1
    &&& r[0].caller@ == caller
    &&& r[0].target == target
    &&& r[0].confidence == confidence
    &&& r[0].resolved@.len() == 0
}

/// The calls resolved as factory calls are exactly the calls of a method
/// named `Create`, `Build`, `Make`, `Resolve` or `GetInstance`: the names
/// of detected factory methods, and `GetInstance` besides.
pub proof fn law_factory_call_names(m: Seq<char>)
    ensures
        is_factory_name(m) <==> (m == "Create"@ || m == "Build"@ || m == "Make"@ || m == "Resolve"@ || m
            == "GetInstance"@),
        is_factory_name(m) <==> (is_factory_method_name(m) || m == "GetInstance"@),
{
}

} // verus!
