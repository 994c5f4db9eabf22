//! Pattern detection results and the context detectors read.

use vstd::prelude::*;
use crate::text::string_views;
use crate::analysis::callgraph::CallGraph;
use crate::resolve::types::TypeGraph;

verus! {

/// The design patterns the detectors recognize.
#[derive(Debug, Clone, Copy, PartialEq, Eq, Hash, Structural)]
pub enum PatternKind {
    Singleton,
    FactoryMethod,
    AbstractFactory,
    Builder,
    Prototype,
    Adapter,
    Decorator,
    Proxy,
    Composite,
    Facade,
    Bridge,
    Flyweight,
    Strategy,
    Observer,
    Command,
    Mediator,
    ChainOfResponsibility,
    State,
    TemplateMethod,
    Visitor,
    Iterator,
    Memento,
    Interpreter,
    Handler,
    DotnetMediator,
    ControllerApi,
    MinimalApi,
    DiContainer,
}

/// The name of a pattern kind.
pub open spec fn pattern_name(k: PatternKind) -> Seq<char> {
    match k {
        PatternKind::Singleton => "Singleton"@,
        PatternKind::FactoryMethod => "FactoryMethod"@,
        PatternKind::AbstractFactory => "AbstractFactory"@,
        PatternKind::Builder => "Builder"@,
        PatternKind::Prototype => "Prototype"@,
        PatternKind::Adapter => "Adapter"@,
        PatternKind::Decorator => "Decorator"@,
        PatternKind::Proxy => "Proxy"@,
        PatternKind::Composite => "Composite"@,
        PatternKind::Facade => "Facade"@,
        PatternKind::Bridge => "Bridge"@,
        PatternKind::Flyweight => "Flyweight"@,
        PatternKind::Strategy => "Strategy"@,
        PatternKind::Observer => "Observer"@,
        PatternKind::Command => "Command"@,
        PatternKind::Mediator => "Mediator"@,
        PatternKind::ChainOfResponsibility => "ChainOfResponsibility"@,
        PatternKind::State => "State"@,
        PatternKind::TemplateMethod => "TemplateMethod"@,
        PatternKind::Visitor => "Visitor"@,
        PatternKind::Iterator => "Iterator"@,
        PatternKind::Memento => "Memento"@,
        PatternKind::Interpreter => "Interpreter"@,
        PatternKind::Handler => "Handler"@,
        PatternKind::DotnetMediator => "DotnetMediator"@,
        PatternKind::ControllerApi => "ControllerApi"@,
        PatternKind::MinimalApi => "MinimalApi"@,
        PatternKind::DiContainer => "DiContainer"@,
    }
}

impl PatternKind {
    /// The pattern's name, as it is displayed.
    pub fn to_string(&self) -> (r: String)
        ensures
            r@ == pattern_name(*self),
    {
        let s = match self {
            PatternKind::Singleton => "Singleton",
            PatternKind::FactoryMethod => "FactoryMethod",
            PatternKind::AbstractFactory => "AbstractFactory",
            PatternKind::Builder => "Builder",
            PatternKind::Prototype => "Prototype",
            PatternKind::Adapter => "Adapter",
            PatternKind::Decorator => "Decorator",
            PatternKind::Proxy => "Proxy",
            PatternKind::Composite => "Composite",
            PatternKind::Facade => "Facade",
            PatternKind::Bridge => "Bridge",
            PatternKind::Flyweight => "Flyweight",
            PatternKind::Strategy => "Strategy",
            PatternKind::Observer => "Observer",
            PatternKind::Command => "Command",
            PatternKind::Mediator => "Mediator",
            PatternKind::ChainOfResponsibility => "ChainOfResponsibility",
            PatternKind::State => "State",
            PatternKind::TemplateMethod => "TemplateMethod",
            PatternKind::Visitor => "Visitor",
            PatternKind::Iterator => "Iterator",
            PatternKind::Memento => "Memento",
            PatternKind::Interpreter => "Interpreter",
            PatternKind::Handler => "Handler",
            PatternKind::DotnetMediator => "DotnetMediator",
            PatternKind::ControllerApi => "ControllerApi",
            PatternKind::MinimalApi => "MinimalApi",
            PatternKind::DiContainer => "DiContainer",
        };
        String::from_str(s)
    }
}

/// A detected pattern. The confidence is in hundredths (90 stands for 0.90).
#[derive(Debug)]
pub struct PatternMatch {
    pub pattern: PatternKind,
    pub class: String,
    pub description: String,
    pub confidence: u32,
    pub participants: Vec<String>,
    pub evidence: Vec<String>,
}

/// A detected pattern with its strings as characters.
pub struct MatchView {
    pub pattern: PatternKind,
    pub class: Seq<char>,
    pub description: Seq<char>,
    pub confidence: u32,
    pub participants: Seq<Seq<char>>,
    pub evidence: Seq<Seq<char>>,
}

impl View for PatternMatch {
    type V = MatchView;

    open spec fn view(&self) -> MatchView {
        MatchView {
            pattern: self.pattern,
            class: self.class@,
            description: self.description@,
            confidence: self.confidence,
            participants: string_views(self.participants@),
            evidence: string_views(self.evidence@),
        }
    }
}

/// The views of a list of matches.
pub open spec fn match_views(s: Seq<PatternMatch>) -> Seq<MatchView> {
    s.map_values(|m: PatternMatch| m@)
}

/// What the detectors read: the type graph, the call graph when there is
/// one, and the source text.
pub struct DetectionContext<'a> {
    pub type_graph: &'a TypeGraph,
    pub callgraph: Option<&'a CallGraph>,
    pub source: &'a str,
}

impl<'a> DetectionContext<'a> {
    /// A context without a call graph.
    pub fn new(type_graph: &'a TypeGraph, source: &'a str) -> (r: Self)
        ensures
            r.type_graph == type_graph,
            r.callgraph is None,
            r.source == source,
    {
        DetectionContext { type_graph, callgraph: None, source }
    }

    /// A context with a call graph.
    pub fn with_callgraph(type_graph: &'a TypeGraph, callgraph: &'a CallGraph, source: &'a str) -> (r: Self)
        ensures
            r.type_graph == type_graph,
            r.callgraph == Some(callgraph),
            r.source == source,
    {
        DetectionContext { type_graph, callgraph: Some(callgraph), source }
    }
}

/// Every match of `ms` is of pattern `k`.
pub open spec fn all_of_kind(ms: Seq<MatchView>, k: PatternKind) -> bool {
    forall|x: int| 0 <= x < ms.len() ==> (#[trigger] ms[x]).pattern == k
}

/// A witness of a non-empty filter: an element of `s` that meets `p`.
pub proof fn lemma_filter_witness<A>(s: Seq<A>, p: spec_fn(A) -> bool)
    requires
        s.filter(p).len() > 0,
    ensures
        exists|j: int| 0 <= j < s.len() && p(#[trigger] s[j]),
    decreases s.len(),
{
    reveal(Seq::filter);
    if s.len() > 0 && !p(s.last()) {
        lemma_filter_witness(s.drop_last(), p);
        let j = choose|j: int| 0 <= j < s.drop_last().len() && p(#[trigger] s.drop_last()[j]);
        assert(s.drop_last()[j] == s[j]);
    } else if s.len() > 0 {
        assert(p(s[s.len() - 1]));
    }
}

/// An element of `s` that meets `p` makes the filter non-empty.
pub proof fn lemma_filter_nonempty<A>(s: Seq<A>, p: spec_fn(A) -> bool, j: int)
    requires
        0 <= j < s.len(),
        p(s[j]),
    ensures
        s.filter(p).len() > 0,
{
    s.filter_lemma(p);
    assert(s.filter(p).contains(s[j]));
}

/// No match of `ms` is of pattern `k`.
pub open spec fn none_of_kind(ms: Seq<MatchView>, k: PatternKind) -> bool {
    forall|x: int| 0 <= x < ms.len() ==> (#[trigger] ms[x]).pattern != k
}

/// Joining two lists with no match of pattern `k` gives none.
pub proof fn lemma_none_of_kind_concat(a: Seq<MatchView>, b: Seq<MatchView>, k: PatternKind)
    requires
        none_of_kind(a, k),
        none_of_kind(b, k),
    ensures
        none_of_kind(a + b, k),
{
    assert forall|x: int| 0 <= x < (a + b).len() implies (#[trigger] (a + b)[x]).pattern != k by {
        if x < a.len() {
            assert((a + b)[x] == a[x]);
        } else {
            assert((a + b)[x] == b[x - a.len()]);
        }
    }
}

/// Every element of a filter is an element of `s` that meets `p`.
pub proof fn lemma_filter_member<A>(s: Seq<A>, p: spec_fn(A) -> bool, i: int)
    requires
        0 <= i < s.filter(p).len(),
    ensures
        exists|j: int| 0 <= j < s.len() && #[trigger] s[j] == s.filter(p)[i] && p(s[j]),
    decreases s.len(),
{
    reveal(Seq::filter);
    let pre = s.drop_last().filter(p);
    if i < pre.len() {
        lemma_filter_member(s.drop_last(), p, i);
        let j = choose|j: int| 0 <= j < s.drop_last().len() && #[trigger] s.drop_last()[j] == pre[i] && p(s.drop_last()[j]);
        assert(s.drop_last()[j] == s[j]);
        assert(s.filter(p)[i] == pre[i]);
    } else {
        assert(s[s.len() - 1] == s.filter(p)[i]);
    }
}

} // verus!
