//! Interface dispatch resolution: a single implementation devirtualizes
//! the call, several make a CHA set.

use vstd::prelude::*;
use crate::resolve::types::{
    CallSite, CallTarget, ClassInfo, Confidence, MethodDescriptor, TypeGraph, find_method,
};
use crate::resolve::virtual_table::first_methods_of;

verus! {

/// The interface and method an interface call dispatches on.
pub open spec fn interface_query(tg: TypeGraph, target: CallTarget) -> Option<(Seq<char>, Seq<char>)> {
    match target {
        CallTarget::Abstract { interface, method } => Some((interface@, method@)),
        CallTarget::Virtual { class: Some(c), method } => if tg.has_interface(c@) {
            Some((c@, method@))
        } else {
            None
        },
        _ => None,
    }
}

/// Resolve an interface method call to the implementing methods.
pub fn resolve_interface(target: &CallTarget, caller: &str, type_graph: &TypeGraph) -> (r: Vec<CallSite>)
    requires
        type_graph.wf(),
    ensures
        match interface_query(*type_graph, *target) {
            None => r@.len() == 0,
            Some((iface, method)) => {
                let res = first_methods_of(type_graph.spec_implementors_of(iface), method);
                if res.len() == 0 {
                    r@.len() == 0
                } else {
                    &&& r@.len() == 1
                    &&& r@[0].caller@ == caller@
                    &&& r@[0].target == *target
                    &&& r@[0].resolved@ == res
                    &&& r@[0].confidence == if res.len() == 1 {
                        Confidence::ExplicitImpl
                    } else {
                        Confidence::MultiImpl
                    }
                }
            },
        },
{
    let (iface, method): (&str, &str) = match target {
        CallTarget::Abstract { interface, method } => (interface.as_str(), method.as_str()),
        CallTarget::Virtual { class: Some(c), method } => {
            if type_graph.contains_interface(c.as_str()) {
                (c.as_str(), method.as_str())
            } else {
                return Vec::new();
            }
        },
        _ => {
            return Vec::new();
        },
    };
    let implementors = type_graph.implementors_of(iface);
    let ghost cs = implementors@.map_values(|c: &ClassInfo| *c);
    if implementors.len() == 0 {
        return Vec::new();
    }
    let mut resolved: Vec<MethodDescriptor> = Vec::new();
    let mut i: usize = 0;
    while i < implementors.len()
        invariant
            i <= implementors@.len(),
            cs == implementors@.map_values(|c: &ClassInfo| *c),
            resolved@ == first_methods_of(cs.subrange(0, i as int), method@),
        decreases implementors.len() - i,
    {
        let ghost pre = cs.subrange(0, i + 1);
        assert(pre.drop_last() =~= cs.subrange(0, i as int));
        assert(pre.last() == *implementors@[i as int]);
        match find_method(&implementors[i].methods, method) {
            Some(md) => {
                resolved.push(md.clone());
            },
            None => {},
        }
        i = i + 1;
    }
    assert(cs.subrange(0, implementors@.len() as int) =~= cs);
    if resolved.len() == 0 {
        return Vec::new();
    }
    let confidence = if resolved.len() == 1 {
        Confidence::ExplicitImpl
    } else {
        Confidence::MultiImpl
    };
    vec![CallSite { caller: String::from_str(caller), target: target.clone(), confidence, resolved }]
}

} // verus!
