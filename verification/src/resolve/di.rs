//! Dependency-injection container resolution: an interface resolves to the
//! implementation classes registered for it.

use vstd::prelude::*;
use crate::text::{str_eq, strip_start, strip_end, trim_start_char, trim_end_char, string_views};
use crate::parse::syntax::{SyntaxTree, field_child, field_text, child_by_field, field_text_of, is_kind, text_view};
use crate::parse::parser::{parse_source, parsed_from};
use crate::resolve::symbols::{first_of_kind, first_of_kind_exec};
use crate::detect::common::{trimmed, trim, comma_pieces, split_commas};
use crate::resolve::types::{
    CallSite, CallTarget, ClassInfo, Confidence, DiLifetime, DiRegistration, MethodDescriptor, TypeGraph,
};

verus! {

/// Container of DI registrations, built from scanning startup code.
/// Registrations are kept in the order they were made; those for one
/// interface are the ones whose `interface_type` names it.
#[derive(Debug)]
pub struct DiContainer {
    pub registrations: Vec<DiRegistration>,
}

/// The registrations of `regs` made for `interface`.
pub open spec fn regs_for(regs: Seq<DiRegistration>, interface: Seq<char>) -> Seq<DiRegistration> {
    regs.filter(|r: DiRegistration| r.interface_type@ == interface)
}

impl DiContainer {
    pub fn new() -> (r: Self)
        ensures
            r.registrations@.len() == 0,
    {
        DiContainer { registrations: Vec::new() }
    }

    /// Register a DI mapping.
    pub fn register(&mut self, reg: DiRegistration)
        ensures
            final(self).registrations@ == old(self).registrations@.push(reg),
    {
        self.registrations.push(reg);
    }

    /// Does any registration name `interface`?
    pub open spec fn has_interface(self, interface: Seq<char>) -> bool {
        exists|i: int|
            0 <= i < self.registrations@.len() && (#[trigger] self.registrations@[i]).interface_type@
                == interface
    }

    /// All registrations for an interface, in registration order.
    pub fn resolve(&self, interface: &str) -> (r: Vec<&DiRegistration>)
        ensures
            r@.map_values(|d: &DiRegistration| *d) == regs_for(self.registrations@, interface@),
    {
        let mut result: Vec<&DiRegistration> = Vec::new();
        let mut i: usize = 0;
        while i < self.registrations.len()
            invariant
                i <= self.registrations@.len(),
                result@.map_values(|d: &DiRegistration| *d) == regs_for(
                    self.registrations@.subrange(0, i as int),
                    interface@,
                ),
            decreases self.registrations.len() - i,
        {
            let ghost pre = self.registrations@.subrange(0, i + 1);
            assert(pre.drop_last() =~= self.registrations@.subrange(0, i as int));
            reveal(Seq::filter);
            let reg = &self.registrations[i];
            let ghost before = result@;
            if str_eq(reg.interface_type.as_str(), interface) {
                result.push(reg);
                assert(result@.map_values(|d: &DiRegistration| *d) =~= before.map_values(
                    |d: &DiRegistration| *d,
                ).push(*reg));
            }
            i = i + 1;
        }
        assert(self.registrations@.subrange(0, self.registrations@.len() as int)
            =~= self.registrations@);
        result
    }

    fn contains_interface(&self, interface: &str) -> (r: bool)
        ensures
            r == self.has_interface(interface@),
    {
        let mut i: usize = 0;
        while i < self.registrations.len()
            invariant
                i <= self.registrations@.len(),
                forall|k: int|
                    0 <= k < i ==> (#[trigger] self.registrations@[k]).interface_type@ != interface@,
            decreases self.registrations.len() - i,
        {
            if str_eq(self.registrations[i].interface_type.as_str(), interface) {
                return true;
            }
            i = i + 1;
        }
        false
    }
}

/// The lifetime an `Add...` registration method gives.
pub open spec fn lifetime_of(name: Seq<char>) -> Option<DiLifetime> {
    if name == "AddScoped"@ {
        Some(DiLifetime::Scoped)
    } else if name == "AddSingleton"@ {
        Some(DiLifetime::Singleton)
    } else if name == "AddTransient"@ {
        Some(DiLifetime::Transient)
    } else {
        None
    }
}

/// The texts of the named nodes among `cs` that have text, in order.
pub open spec fn named_texts(t: SyntaxTree, cs: Seq<usize>) -> Seq<Seq<char>>
    decreases cs.len(),
{
    if cs.len() == 0 {
        Seq::empty()
    } else {
        let c = cs.last() as int;
        named_texts(t, cs.drop_last()) + if t.nodes@[c].named && text_view(t.nodes@[c].text) is Some {
            seq![text_view(t.nodes@[c].text).unwrap()]
        } else {
            Seq::empty()
        }
    }
}

/// The registration node `i` makes, as (interface, implementation,
/// lifetime): a call `x.AddScoped<I, C>(..)` (or `AddSingleton`,
/// `AddTransient`) whose generic name has exactly two type arguments.
pub open spec fn registration_at(t: SyntaxTree, i: int) -> Option<(Seq<char>, Seq<char>, DiLifetime)> {
    if t.kind_of(i) != "invocation_expression"@ {
        None
    } else {
        match field_child(t, i, "function"@) {
            None => None,
            Some(f) => if t.kind_of(f as int) != "member_access_expression"@ {
                None
            } else {
                match field_child(t, f as int, "name"@) {
                    None => None,
                    Some(g) => if t.kind_of(g as int) != "generic_name"@ {
                        None
                    } else {
                        match (
                            first_of_kind(t, t.children_of(g as int), "identifier"@),
                            first_of_kind(t, t.children_of(g as int), "type_argument_list"@),
                        ) {
                            (Some(a), Some(b)) => match text_view(t.nodes@[a as int].text) {
                                Some(name) => match lifetime_of(name) {
                                    Some(l) => {
                                        let args = named_texts(t, t.children_of(b as int));
                                        if args.len() == 2 {
                                            Some((args[0], args[1], l))
                                        } else {
                                            None
                                        }
                                    },
                                    None => None,
                                },
                                None => None,
                            },
                            _ => None,
                        }
                    },
                }
            },
        }
    }
}

/// The registrations made by the nodes below `k`, in node order.
pub open spec fn registrations_upto(t: SyntaxTree, k: int) -> Seq<(Seq<char>, Seq<char>, DiLifetime)>
    decreases k,
{
    if k <= 0 {
        Seq::empty()
    } else {
        registrations_upto(t, k - 1) + match registration_at(t, k - 1) {
            Some(r) => seq![r],
            None => Seq::empty(),
        }
    }
}

/// Registrations as (interface, implementation, lifetime, confidence).
pub open spec fn reg_views(rs: Seq<DiRegistration>) -> Seq<(Seq<char>, Seq<char>, DiLifetime, Confidence)> {
    rs.map_values(|r: DiRegistration| (r.interface_type@, r.implementation_type@, r.lifetime, r.confidence))
}

/// The registrations of a tree, each with the DI registration confidence.
pub open spec fn tree_registrations(t: SyntaxTree) -> Seq<(Seq<char>, Seq<char>, DiLifetime, Confidence)> {
    registrations_upto(t, t.nodes@.len() as int).map_values(
        |r: (Seq<char>, Seq<char>, DiLifetime)| (r.0, r.1, r.2, Confidence::DiRegistration),
    )
}

fn named_texts_exec(t: &SyntaxTree, b: usize) -> (r: Vec<String>)
    requires
        t.wf(),
        b < t.nodes@.len(),
    ensures
        string_views(r@) == named_texts(*t, t.children_of(b as int)),
{
    let cs = &t.nodes[b].children;
    let mut r: Vec<String> = Vec::new();
    let mut j: usize = 0;
    assert(cs@.subrange(0, 0) =~= Seq::<usize>::empty());
    assert(string_views(r@) =~= Seq::<Seq<char>>::empty());
    while j < cs.len()
        invariant
            t.wf(),
            b < t.nodes@.len(),
            cs@ == t.children_of(b as int),
            j <= cs@.len(),
            string_views(r@) == named_texts(*t, cs@.subrange(0, j as int)),
        decreases cs.len() - j,
    {
        assert(cs@.subrange(0, j + 1).drop_last() =~= cs@.subrange(0, j as int));
        let c = cs[j];
        assert(c < b) by {
            assert(t.nodes@[b as int].children@[j as int] == c);
        }
        let ghost before = string_views(r@);
        if t.nodes[c].named {
            match &t.nodes[c].text {
                Some(x) => {
                    r.push(x.clone());
                    assert(string_views(r@) =~= before.push(x@));
                },
                None => {
                    assert(string_views(r@) =~= before + Seq::<Seq<char>>::empty());
                },
            }
        } else {
            assert(string_views(r@) =~= before + Seq::<Seq<char>>::empty());
        }
        j = j + 1;
    }
    assert(cs@.subrange(0, cs@.len() as int) =~= cs@);
    r
}

fn registration_at_exec(t: &SyntaxTree, i: usize) -> (r: Option<(String, String, DiLifetime)>)
    requires
        t.wf(),
        i < t.nodes@.len(),
    ensures
        match r {
            Some(x) => registration_at(*t, i as int) == Some((x.0@, x.1@, x.2)),
            None => registration_at(*t, i as int) is None,
        },
{
    if !is_kind(t, i, "invocation_expression") {
        return None;
    }
    let f = match child_by_field(t, i, "function") {
        Some(f) => f,
        None => {
            return None;
        },
    };
    if !is_kind(t, f, "member_access_expression") {
        return None;
    }
    let g = match child_by_field(t, f, "name") {
        Some(g) => g,
        None => {
            return None;
        },
    };
    if !is_kind(t, g, "generic_name") {
        return None;
    }
    let a = match first_of_kind_exec(t, g, "identifier") {
        Some(a) => a,
        None => {
            return None;
        },
    };
    let b = match first_of_kind_exec(t, g, "type_argument_list") {
        Some(b) => b,
        None => {
            return None;
        },
    };
    let name = match &t.nodes[a].text {
        Some(x) => x.as_str(),
        None => {
            return None;
        },
    };
    let l = if str_eq(name, "AddScoped") {
        DiLifetime::Scoped
    } else if str_eq(name, "AddSingleton") {
        DiLifetime::Singleton
    } else if str_eq(name, "AddTransient") {
        DiLifetime::Transient
    } else {
        return None;
    };
    let args = named_texts_exec(t, b);
    if args.len() != 2 {
        return None;
    }
    let ghost av = string_views(args@);
    assert(av[0] == args@[0]@ && av[1] == args@[1]@);
    Some((args[0].clone(), args[1].clone(), l))
}

/// The container of the registrations a syntax tree makes, in node order
/// (see `registration_at`), each with the DI registration confidence.
pub fn scan_tree_registrations(t: &SyntaxTree) -> (r: DiContainer)
    requires
        t.wf(),
    ensures
        reg_views(r.registrations@) == tree_registrations(*t),
{
    let mut c = DiContainer::new();
    let mut i: usize = 0;
    assert(reg_views(c.registrations@) =~= registrations_upto(*t, 0).map_values(
        |r: (Seq<char>, Seq<char>, DiLifetime)| (r.0, r.1, r.2, Confidence::DiRegistration),
    ));
    while i < t.nodes.len()
        invariant
            t.wf(),
            i <= t.nodes@.len(),
            reg_views(c.registrations@) == registrations_upto(*t, i as int).map_values(
                |r: (Seq<char>, Seq<char>, DiLifetime)| (r.0, r.1, r.2, Confidence::DiRegistration),
            ),
        decreases t.nodes.len() - i,
    {
        let ghost before = reg_views(c.registrations@);
        match registration_at_exec(t, i) {
            Some((iface, imp, l)) => {
                let ghost x = (iface@, imp@, l, Confidence::DiRegistration);
                c.register(
                    DiRegistration {
                        interface_type: iface,
                        implementation_type: imp,
                        lifetime: l,
                        confidence: Confidence::DiRegistration,
                    },
                );
                assert(reg_views(c.registrations@) =~= before.push(x));
            },
            None => {},
        }
        assert(reg_views(c.registrations@) =~= registrations_upto(*t, i + 1).map_values(
            |r: (Seq<char>, Seq<char>, DiLifetime)| (r.0, r.1, r.2, Confidence::DiRegistration),
        ));
        i = i + 1;
    }
    c
}

/// Build a DI container from startup code: the registrations the parsed
/// source makes (`services.AddScoped<IFoo, Foo>()`, `AddSingleton`,
/// `AddTransient`), in node order (see `scan_tree_registrations`).
pub fn scan_di_registrations(source: &str, _type_graph: &TypeGraph) -> (r: DiContainer)
    ensures
        exists|t: SyntaxTree| t.wf() && parsed_from(t, source@) && reg_views(r.registrations@) == tree_registrations(t),
{
    match parse_source(source) {
        Ok(t) => scan_tree_registrations(&t),
        Err(_) => DiContainer::new(),
    }
}

/// The interface a DI call resolves through.
pub open spec fn di_query(container: DiContainer, target: CallTarget) -> Option<Seq<char>> {
    match target {
        CallTarget::DiResolved { interface, .. } => Some(interface@),
        CallTarget::Abstract { interface, .. } => if container.has_interface(interface@) {
            Some(interface@)
        } else {
            None
        },
        _ => None,
    }
}

/// `m` stands for the implementation class `c` without a specific method.
pub open spec fn class_only_descriptor(c: ClassInfo, m: MethodDescriptor) -> bool {
    &&& m.class@ == c.name@
    &&& m.method@.len() == 0
    &&& m.signature@.len() == 0
    &&& !m.is_static && !m.is_virtual && !m.is_abstract
    &&& m.file@.len() == 0
    &&& m.line_start == 0 && m.line_end == 0
}

/// The registrations whose implementation class is in the type graph.
pub open spec fn known_impls(tg: TypeGraph, regs: Seq<DiRegistration>) -> Seq<DiRegistration> {
    regs.filter(|r: DiRegistration| tg.has_class(r.implementation_type@))
}

/// Index of the last registration with the highest confidence score.
pub open spec fn last_max_conf(regs: Seq<DiRegistration>) -> int
    decreases regs.len(),
{
    if regs.len() <= 1 {
        0
    } else {
        let j = last_max_conf(regs.drop_last());
        if regs.last().confidence.spec_score() >= regs[j].confidence.spec_score() {
            regs.len() - 1
        } else {
            j
        }
    }
}

/// Resolve a call through the DI container: one call site whose resolved
/// entries are the registered implementation classes known to the type
/// graph, with the best confidence among the registrations.
pub fn resolve_di(
    target: &CallTarget,
    caller: &str,
    container: &DiContainer,
    type_graph: &TypeGraph,
) -> (r: Vec<CallSite>)
    ensures
        match di_query(*container, *target) {
            None => r@.len() == 0,
            Some(iface) => {
                let regs = regs_for(container.registrations@, iface);
                let known = known_impls(*type_graph, regs);
                if known.len() == 0 {
                    r@.len() == 0
                } else {
                    &&& r@.len() == 1
                    &&& r@[0].caller@ == caller@
                    &&& r@[0].target == *target
                    &&& r@[0].resolved@.len() == known.len()
                    &&& forall|i: int|
                        0 <= i < known.len() ==> class_only_descriptor(
                            type_graph.lookup_class((#[trigger] known[i]).implementation_type@).unwrap(),
                            r@[0].resolved@[i],
                        )
                    &&& r@[0].confidence == regs[last_max_conf(regs)].confidence
                }
            },
        },
{
    let interface: &str = match target {
        CallTarget::DiResolved { interface, .. } => interface.as_str(),
        CallTarget::Abstract { interface, .. } => {
            if container.contains_interface(interface.as_str()) {
                interface.as_str()
            } else {
                return Vec::new();
            }
        },
        _ => {
            return Vec::new();
        },
    };
    let registrations = container.resolve(interface);
    let ghost regs = registrations@.map_values(|d: &DiRegistration| *d);
    if registrations.len() == 0 {
        proof {
            reveal(Seq::filter);
        }
        return Vec::new();
    }
    let mut resolved: Vec<MethodDescriptor> = Vec::new();
    let ghost mut known_seen: Seq<DiRegistration> = Seq::empty();
    let mut i: usize = 0;
    while i < registrations.len()
        invariant
            i <= registrations@.len(),
            regs == registrations@.map_values(|d: &DiRegistration| *d),
            known_seen == known_impls(*type_graph, regs.subrange(0, i as int)),
            resolved@.len() == known_seen.len(),
            forall|k: int|
                0 <= k < known_seen.len() ==> class_only_descriptor(
                    type_graph.lookup_class((#[trigger] known_seen[k]).implementation_type@).unwrap(),
                    resolved@[k],
                ),
        decreases registrations.len() - i,
    {
        let ghost pre = regs.subrange(0, i + 1);
        assert(pre.drop_last() =~= regs.subrange(0, i as int));
        reveal(Seq::filter);
        let reg = registrations[i];
        match type_graph.get_class(reg.implementation_type.as_str()) {
            Some(cls) => {
                proof {
                    reveal_strlit("");
                }
                resolved.push(
                    MethodDescriptor {
                        class: cls.name.clone(),
                        method: String::new(),
                        signature: String::new(),
                        is_static: false,
                        is_virtual: false,
                        is_abstract: false,
                        file: String::new(),
                        line_start: 0,
                        line_end: 0,
                    },
                );
                proof {
                    known_seen = known_seen.push(*reg);
                }
            },
            None => {},
        }
        i = i + 1;
    }
    assert(regs.subrange(0, registrations@.len() as int) =~= regs);
    if resolved.len() == 0 {
        return Vec::new();
    }
    let mut j: usize = 0;
    let mut k: usize = 1;
    while k < registrations.len()
        invariant
            1 <= k <= registrations@.len(),
            regs == registrations@.map_values(|d: &DiRegistration| *d),
            j as int == last_max_conf(regs.subrange(0, k as int)),
            0 <= j < k,
        decreases registrations.len() - k,
    {
        let ghost s = regs.subrange(0, k + 1);
        assert(s.drop_last() =~= regs.subrange(0, k as int));
        if registrations[k].confidence.score() >= registrations[j].confidence.score() {
            j = k;
        }
        k = k + 1;
    }
    assert(regs.subrange(0, k as int) =~= regs);
    let confidence = registrations[j].confidence;
    vec![CallSite { caller: String::from_str(caller), target: target.clone(), confidence, resolved }]
}

/// What a DI container call names: a registration `AddX<I, ..>` of
/// interface `I`, or a lookup `GetService<I>` of `I`.
pub enum DiCall {
    Register { interface: Seq<char>, method: Seq<char> },
    Resolve { interface: Seq<char>, method: Seq<char> },
}

/// Whether `r` is the classification that `d` describes.
pub open spec fn di_classified_as(r: Option<CallTarget>, d: Option<DiCall>) -> bool {
    match d {
        None => r is None,
        Some(DiCall::Register { interface, method }) => r matches Some(CallTarget::Static { class, method: m })
            && class@ == interface && m@ == method,
        Some(DiCall::Resolve { interface, method }) => r matches Some(
            CallTarget::DiResolved { interface: i, method: m },
        ) && i@ == interface && m@ == method,
    }
}

/// The type argument list with its angle brackets taken off.
pub open spec fn unbracketed(args: Seq<char>) -> Seq<char> {
    strip_end(strip_start(args, '<'), '>')
}

/// The DI call an invocation node makes: `x.AddScoped`, `x.AddSingleton`
/// or `x.AddTransient` with type arguments registers the first of them;
/// `x.GetService`, `x.GetRequiredService` or `x.GetKeyedService` with type
/// arguments resolves them.
pub open spec fn di_call(t: SyntaxTree, i: int) -> Option<DiCall> {
    if t.kind_of(i) != "invocation_expression"@ {
        None
    } else {
        match field_child(t, i, "function"@) {
            None => None,
            Some(f) => if t.kind_of(f as int) != "member_access_expression"@ {
                None
            } else {
                match field_text(t, f as int, "name"@) {
                    None => None,
                    Some(name) => if name == "AddScoped"@ || name == "AddSingleton"@ || name == "AddTransient"@ {
                        match field_text(t, i, "type_arguments"@) {
                            Some(args) => Some(
                                DiCall::Register {
                                    interface: trimmed(comma_pieces(unbracketed(args))[0]),
                                    method: name,
                                },
                            ),
                            None => None,
                        }
                    } else if name == "GetService"@ || name == "GetRequiredService"@ || name == "GetKeyedService"@ {
                        match field_text(t, i, "type_arguments"@) {
                            Some(args) => Some(DiCall::Resolve { interface: trimmed(unbracketed(args)), method: name }),
                            None => None,
                        }
                    } else {
                        None
                    },
                }
            },
        }
    }
}

proof fn lemma_comma_pieces_nonempty(s: Seq<char>)
    ensures
        comma_pieces(s).len() >= 1,
{
}

/// Classify an invocation node as a DI container call (see `di_call`).
pub fn classify_di_call(t: &SyntaxTree, i: usize) -> (r: Option<CallTarget>)
    requires
        t.wf(),
        i < t.nodes@.len(),
    ensures
        di_classified_as(r, di_call(*t, i as int)),
{
    if !is_kind(t, i, "invocation_expression") {
        return None;
    }
    let f = match child_by_field(t, i, "function") {
        Some(f) => f,
        None => {
            return None;
        },
    };
    if !is_kind(t, f, "member_access_expression") {
        return None;
    }
    let name = match field_text_of(t, f, "name") {
        Some(n) => n,
        None => {
            return None;
        },
    };
    let n = name.as_str();
    if str_eq(n, "AddScoped") || str_eq(n, "AddSingleton") || str_eq(n, "AddTransient") {
        match field_text_of(t, i, "type_arguments") {
            Some(args) => {
                let a = trim_start_char(args.as_str(), '<');
                let clean = trim_end_char(a.as_str(), '>');
                let parts = split_commas(clean.as_str());
                proof {
                    lemma_comma_pieces_nonempty(clean@);
                    assert(string_views(parts@)[0] == parts@[0]@);
                }
                let iface = trim(parts[0].as_str());
                Some(CallTarget::Static { class: iface, method: name })
            },
            None => None,
        }
    } else if str_eq(n, "GetService") || str_eq(n, "GetRequiredService") || str_eq(n, "GetKeyedService") {
        match field_text_of(t, i, "type_arguments") {
            Some(args) => {
                let a = trim_start_char(args.as_str(), '<');
                let b = trim_end_char(a.as_str(), '>');
                let iface = trim(b.as_str());
                Some(CallTarget::DiResolved { interface: iface, method: name })
            },
            None => None,
        }
    } else {
        None
    }
}


/// After a registration is added, resolving its interface gives the earlier
/// registrations for it followed by the new one; any other interface
/// resolves as before.
pub proof fn law_register_then_resolve(regs: Seq<DiRegistration>, reg: DiRegistration, interface: Seq<char>)
    ensures
        regs_for(regs.push(reg), interface) == if reg.interface_type@ == interface {
            regs_for(regs, interface).push(reg)
        } else {
            regs_for(regs, interface)
        },
{
    reveal(Seq::filter);
    assert(regs.push(reg).drop_last() =~= regs);
}

} // verus!
