//! Abstract class resolution: given a call on an abstract class (or an
//! abstract/interface target), find all concrete implementations via CHA.

use vstd::prelude::*;
use crate::resolve::types::{
    CallSite, CallTarget, ClassInfo, Confidence, MethodDescriptor, TypeGraph, find_method,
    first_method_named,
};

verus! {

/// The abstract type and method an abstract call dispatches on.
pub open spec fn abstract_query(tg: TypeGraph, target: CallTarget) -> Option<(Seq<char>, Seq<char>)> {
    match target {
        CallTarget::Abstract { interface, method } => Some((interface@, method@)),
        CallTarget::Static { class, method } => match tg.lookup_class(class@) {
            Some(c) => if c.is_abstract {
                Some((class@, method@))
            } else {
                None
            },
            None => None,
        },
        CallTarget::Virtual { class: Some(class), method } => match tg.lookup_class(class@) {
            Some(c) => if c.is_abstract {
                Some((class@, method@))
            } else {
                None
            },
            None => None,
        },
        _ => None,
    }
}

/// `m` is what class `c` resolves `method` to: its own method of that name,
/// or, when it declares none, a bare descriptor for the inherited method.
pub open spec fn resolved_in_class(c: ClassInfo, method: Seq<char>, m: MethodDescriptor) -> bool {
    match first_method_named(c.methods@, method) {
        Some(own) => m == own,
        None => {
            &&& m.class@ == c.name@
            &&& m.method@ == method
            &&& m.signature@.len() == 0
            &&& !m.is_static && !m.is_virtual && !m.is_abstract
            &&& m.file@.len() == 0
            &&& m.line_start == 0 && m.line_end == 0
        },
    }
}

/// Resolve an abstract method call to its concrete implementations, with
/// the class hierarchy confidence (70, within the 60-90 range that
/// abstract class resolution is given), however many there are.
pub fn resolve_abstract(target: &CallTarget, caller: &str, type_graph: &TypeGraph) -> (r: Vec<CallSite>)
    requires
        type_graph.wf(),
    ensures
        match abstract_query(*type_graph, *target) {
            None => r@.len() == 0,
            Some((cls, method)) => {
                let concretes = type_graph.spec_concrete_subclasses(cls);
                if concretes.len() == 0 {
                    r@.len() == 0
                } else {
                    &&& r@.len() == 1
                    &&& r@[0].caller@ == caller@
                    &&& r@[0].target == *target
                    &&& r@[0].resolved@.len() == concretes.len()
                    &&& forall|i: int|
                        0 <= i < concretes.len() ==> resolved_in_class(
                            #[trigger] concretes[i],
                            method,
                            r@[0].resolved@[i],
                        )
                    &&& r@[0].confidence == Confidence::CHA
                }
            },
        },
{
    let (class_name, method): (&str, &str) = match target {
        CallTarget::Abstract { interface, method } => (interface.as_str(), method.as_str()),
        CallTarget::Static { class, method } => match type_graph.get_class(class.as_str()) {
            Some(c) => {
                if c.is_abstract {
                    (class.as_str(), method.as_str())
                } else {
                    return Vec::new();
                }
            },
            None => {
                return Vec::new();
            },
        },
        CallTarget::Virtual { class: Some(class), method } => match type_graph.get_class(
            class.as_str(),
        ) {
            Some(c) => {
                if c.is_abstract {
                    (class.as_str(), method.as_str())
                } else {
                    return Vec::new();
                }
            },
            None => {
                return Vec::new();
            },
        },
        _ => {
            return Vec::new();
        },
    };
    let concretes = type_graph.concrete_subclasses(class_name);
    let ghost cs = concretes@.map_values(|c: &ClassInfo| *c);
    if concretes.len() == 0 {
        return Vec::new();
    }
    let mut resolved: Vec<MethodDescriptor> = Vec::new();
    let mut i: usize = 0;
    while i < concretes.len()
        invariant
            i <= concretes@.len(),
            cs == concretes@.map_values(|c: &ClassInfo| *c),
            resolved@.len() == i,
            forall|k: int| 0 <= k < i ==> resolved_in_class(#[trigger] cs[k], method@, resolved@[k]),
        decreases concretes.len() - i,
    {
        let cls = concretes[i];
        match find_method(&cls.methods, method) {
            Some(md) => {
                resolved.push(md.clone());
            },
            None => {
                proof {
                    reveal_strlit("");
                }
                resolved.push(
                    MethodDescriptor {
                        class: cls.name.clone(),
                        method: String::from_str(method),
                        signature: String::new(),
                        is_static: false,
                        is_virtual: false,
                        is_abstract: false,
                        file: String::new(),
                        line_start: 0,
                        line_end: 0,
                    },
                );
            },
        }
        i = i + 1;
    }
    let confidence = Confidence::CHA;
    vec![CallSite { caller: String::from_str(caller), target: target.clone(), confidence, resolved }]
}

} // verus!
