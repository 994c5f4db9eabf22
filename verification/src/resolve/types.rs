//! Core types for call resolution: call targets, confidence levels,
//! method/class descriptors and the type graph (class hierarchy plus
//! interface implementations).

use vstd::prelude::*;
use crate::text::{str_eq, string_views};

verus! {

/// The callee of an invocation, as far as the syntax tells it.
#[allow(inconsistent_fields)]
#[derive(Debug, PartialEq, Eq, Hash)]
pub enum CallTarget {
    /// Static method call: `ClassName.MethodName`
    Static { class: String, method: String },
    /// Instance method call: `obj.MethodName`
    Instance { method: String },
    /// Virtual method call: could be overridden
    Virtual { class: Option<String>, method: String },
    /// Abstract/interface method call
    Abstract { interface: String, method: String },
    /// DI resolved call: interface -> concrete via container
    DiResolved { interface: String, method: String },
}

impl Clone for CallTarget {
    fn clone(&self) -> (r: Self)
        ensures
            r == *self,
    {
        match self {
            CallTarget::Static { class, method } => CallTarget::Static {
                class: class.clone(),
                method: method.clone(),
            },
            CallTarget::Instance { method } => CallTarget::Instance { method: method.clone() },
            CallTarget::Virtual { class, method } => CallTarget::Virtual {
                class: match class {
                    Some(c) => Some(c.clone()),
                    None => None,
                },
                method: method.clone(),
            },
            CallTarget::Abstract { interface, method } => CallTarget::Abstract {
                interface: interface.clone(),
                method: method.clone(),
            },
            CallTarget::DiResolved { interface, method } => CallTarget::DiResolved {
                interface: interface.clone(),
                method: method.clone(),
            },
        }
    }
}

/// Resolution confidence, ranked by a numerical score (0-100).
#[derive(Debug, Clone, Copy, PartialEq, Eq, Structural)]
pub enum Confidence {
    Direct,
    ExplicitImpl,
    DiRegistration,
    CHA,
    MultiImpl,
    RTA,
    Reflection,
    DynamicString,
    Unknown,
}

impl Confidence {
    /// The numerical rank of a confidence level.
    pub open spec fn spec_score(self) -> u8 {
        match self {
            Confidence::Direct => 100,
            Confidence::ExplicitImpl => 95,
            Confidence::DiRegistration => 95,
            Confidence::CHA => 70,
            Confidence::MultiImpl => 60,
            Confidence::RTA => 50,
            Confidence::Reflection => 40,
            Confidence::DynamicString => 10,
            Confidence::Unknown => 0,
        }
    }

    pub fn score(&self) -> (r: u8)
        ensures
            r == self.spec_score(),
    {
        match self {
            Confidence::Direct => 100,
            Confidence::ExplicitImpl => 95,
            Confidence::DiRegistration => 95,
            Confidence::CHA => 70,
            Confidence::MultiImpl => 60,
            Confidence::RTA => 50,
            Confidence::Reflection => 40,
            Confidence::DynamicString => 10,
            Confidence::Unknown => 0,
        }
    }
}

/// A method as recorded in the type graph.
#[derive(Debug, PartialEq, Eq, Hash, Default)]
pub struct MethodDescriptor {
    pub class: String,
    pub method: String,
    pub signature: String,
    pub is_static: bool,
    pub is_virtual: bool,
    pub is_abstract: bool,
    pub file: String,
    pub line_start: usize,
    pub line_end: usize,
}

impl Clone for MethodDescriptor {
    fn clone(&self) -> (r: Self)
        ensures
            r == *self,
    {
        MethodDescriptor {
            class: self.class.clone(),
            method: self.method.clone(),
            signature: self.signature.clone(),
            is_static: self.is_static,
            is_virtual: self.is_virtual,
            is_abstract: self.is_abstract,
            file: self.file.clone(),
            line_start: self.line_start,
            line_end: self.line_end,
        }
    }
}

/// A field declaration of a class.
#[derive(Debug, PartialEq, Eq, Hash)]
pub struct FieldDescriptor {
    pub name: String,
    pub field_type: String,
    pub is_static: bool,
    pub is_readonly: bool,
}

impl Clone for FieldDescriptor {
    fn clone(&self) -> (r: Self)
        ensures
            r == *self,
    {
        FieldDescriptor {
            name: self.name.clone(),
            field_type: self.field_type.clone(),
            is_static: self.is_static,
            is_readonly: self.is_readonly,
        }
    }
}

/// Clones a vector element by element; the copy equals the original.
pub fn clone_vec<T: Clone>(v: &Vec<T>) -> (r: Vec<T>)
    requires
        forall|a: T, b: T| #[trigger] call_ensures(T::clone, (&a,), b) ==> a == b,
    ensures
        r@ == v@,
{
    let mut r: Vec<T> = Vec::new();
    let mut i: usize = 0;
    while i < v.len()
        invariant
            i <= v.len(),
            r@ == v@.subrange(0, i as int),
            forall|a: T, b: T| #[trigger] call_ensures(T::clone, (&a,), b) ==> a == b,
        decreases v.len() - i,
    {
        let x = v[i].clone();
        r.push(x);
        assert(r@ =~= v@.subrange(0, i + 1));
        i = i + 1;
    }
    assert(r@ =~= v@);
    r
}


/// A class (or struct/record) with its members.
#[derive(Debug)]
pub struct ClassInfo {
    pub name: String,
    pub base_class: Option<String>,
    pub interfaces: Vec<String>,
    pub methods: Vec<MethodDescriptor>,
    pub fields: Vec<FieldDescriptor>,
    pub is_abstract: bool,
    pub is_sealed: bool,
    pub is_static: bool,
}

impl Clone for ClassInfo {
    fn clone(&self) -> (r: Self)
        ensures
            r.name == self.name,
            r.base_class == self.base_class,
            r.interfaces@ == self.interfaces@,
            r.methods@ == self.methods@,
            r.fields@ == self.fields@,
            r.is_abstract == self.is_abstract,
            r.is_sealed == self.is_sealed,
            r.is_static == self.is_static,
    {
        ClassInfo {
            name: self.name.clone(),
            base_class: match &self.base_class {
                Some(b) => Some(b.clone()),
                None => None,
            },
            interfaces: clone_vec(&self.interfaces),
            methods: clone_vec(&self.methods),
            fields: clone_vec(&self.fields),
            is_abstract: self.is_abstract,
            is_sealed: self.is_sealed,
            is_static: self.is_static,
        }
    }
}

/// An interface with its declared methods.
#[derive(Debug)]
pub struct InterfaceInfo {
    pub name: String,
    pub methods: Vec<MethodDescriptor>,
}

impl Clone for InterfaceInfo {
    fn clone(&self) -> (r: Self)
        ensures
            r.name == self.name,
            r.methods@ == self.methods@,
    {
        InterfaceInfo { name: self.name.clone(), methods: clone_vec(&self.methods) }
    }
}

/// A method descriptor with its strings as characters.
pub struct MethodView {
    pub class: Seq<char>,
    pub method: Seq<char>,
    pub signature: Seq<char>,
    pub is_static: bool,
    pub is_virtual: bool,
    pub is_abstract: bool,
    pub file: Seq<char>,
    pub line_start: usize,
    pub line_end: usize,
}

impl View for MethodDescriptor {
    type V = MethodView;

    open spec fn view(&self) -> MethodView {
        MethodView {
            class: self.class@,
            method: self.method@,
            signature: self.signature@,
            is_static: self.is_static,
            is_virtual: self.is_virtual,
            is_abstract: self.is_abstract,
            file: self.file@,
            line_start: self.line_start,
            line_end: self.line_end,
        }
    }
}

/// A field descriptor with its strings as characters.
pub struct FieldView {
    pub name: Seq<char>,
    pub field_type: Seq<char>,
    pub is_static: bool,
    pub is_readonly: bool,
}

impl View for FieldDescriptor {
    type V = FieldView;

    open spec fn view(&self) -> FieldView {
        FieldView {
            name: self.name@,
            field_type: self.field_type@,
            is_static: self.is_static,
            is_readonly: self.is_readonly,
        }
    }
}

/// The views of a list of methods.
pub open spec fn method_views(s: Seq<MethodDescriptor>) -> Seq<MethodView> {
    s.map_values(|m: MethodDescriptor| m@)
}

/// The views of a list of fields.
pub open spec fn field_views(s: Seq<FieldDescriptor>) -> Seq<FieldView> {
    s.map_values(|f: FieldDescriptor| f@)
}

/// A class with its strings as characters.
pub struct ClassView {
    pub name: Seq<char>,
    pub base_class: Option<Seq<char>>,
    pub interfaces: Seq<Seq<char>>,
    pub methods: Seq<MethodView>,
    pub fields: Seq<FieldView>,
    pub is_abstract: bool,
    pub is_sealed: bool,
    pub is_static: bool,
}

impl View for ClassInfo {
    type V = ClassView;

    open spec fn view(&self) -> ClassView {
        ClassView {
            name: self.name@,
            base_class: opt_view(self.base_class),
            interfaces: string_views(self.interfaces@),
            methods: method_views(self.methods@),
            fields: field_views(self.fields@),
            is_abstract: self.is_abstract,
            is_sealed: self.is_sealed,
            is_static: self.is_static,
        }
    }
}

/// An interface with its strings as characters.
pub struct InterfaceView {
    pub name: Seq<char>,
    pub methods: Seq<MethodView>,
}

impl View for InterfaceInfo {
    type V = InterfaceView;

    open spec fn view(&self) -> InterfaceView {
        InterfaceView { name: self.name@, methods: method_views(self.methods@) }
    }
}

/// The views of a list of classes.
pub open spec fn class_views(s: Seq<ClassInfo>) -> Seq<ClassView> {
    s.map_values(|c: ClassInfo| c@)
}

/// The views of a list of interfaces.
pub open spec fn interface_views(s: Seq<InterfaceInfo>) -> Seq<InterfaceView> {
    s.map_values(|c: InterfaceInfo| c@)
}

/// A single call resolution result.
#[derive(Debug, PartialEq)]
pub struct CallSite {
    /// Which method this call belongs to
    pub caller: String,
    /// The call expression
    pub target: CallTarget,
    /// Resolution confidence
    pub confidence: Confidence,
    /// Possible concrete methods this resolves to
    pub resolved: Vec<MethodDescriptor>,
}

/// The abstract value of a call site.
pub struct CallSiteView {
    pub caller: Seq<char>,
    pub target: CallTarget,
    pub confidence: Confidence,
    pub resolved: Seq<MethodDescriptor>,
}

impl View for CallSite {
    type V = CallSiteView;

    open spec fn view(&self) -> CallSiteView {
        CallSiteView {
            caller: self.caller@,
            target: self.target,
            confidence: self.confidence,
            resolved: self.resolved@,
        }
    }
}

impl Clone for CallSite {
    fn clone(&self) -> (r: Self)
        ensures
            r@ == self@,
    {
        CallSite {
            caller: self.caller.clone(),
            target: self.target.clone(),
            confidence: self.confidence,
            resolved: clone_vec(&self.resolved),
        }
    }
}

/// The score of a call site's confidence.
pub open spec fn site_score(s: CallSite) -> int {
    s.confidence.spec_score() as int
}

/// Index of the last alternative with the highest score (the element
/// `Iterator::max_by_key` yields).
pub open spec fn last_max_index(s: Seq<CallSite>) -> int
    decreases s.len(),
{
    if s.len() <= 1 {
        0
    } else {
        let j = last_max_index(s.drop_last());
        if site_score(s.last()) >= site_score(s[j]) {
            s.len() - 1
        } else {
            j
        }
    }
}

proof fn lemma_last_max_index(s: Seq<CallSite>)
    requires
        s.len() > 0,
    ensures
        0 <= last_max_index(s) < s.len(),
        forall|k: int| 0 <= k < s.len() ==> site_score(#[trigger] s[k]) <= site_score(s[last_max_index(s)]),
    decreases s.len(),
{
    if s.len() > 1 {
        lemma_last_max_index(s.drop_last());
        let j = last_max_index(s.drop_last());
        assert forall|k: int| 0 <= k < s.len() implies site_score(#[trigger] s[k]) <= site_score(
            s[last_max_index(s)],
        ) by {
            if k < s.len() - 1 {
                assert(s[k] == s.drop_last()[k]);
            }
        }
    }
}

/// Combines multiple resolution strategies for one call site.
/// The winning result is the one with highest confidence.
#[derive(Debug, PartialEq)]
pub struct ResolutionSet {
    pub callsite: CallSite,
    pub alternatives: Vec<CallSite>,
}

impl ResolutionSet {
    /// The recorded winner is one of the alternatives and none of them
    /// scores higher.
    pub open spec fn wf(self) -> bool {
        &&& self.alternatives@.len() > 0
        &&& exists|k: int|
            0 <= k < self.alternatives@.len() && (#[trigger] self.alternatives@[k])@
                == self.callsite@
        &&& forall|i: int|
            0 <= i < self.alternatives@.len() ==> site_score(#[trigger] self.alternatives@[i])
                <= site_score(self.callsite)
    }

    pub fn new(site: CallSite) -> (r: Self)
        ensures
            r.callsite@ == site@,
            r.alternatives@ == seq![site],
            r.wf(),
    {
        let c = site.clone();
        let r = ResolutionSet { callsite: c, alternatives: vec![site] };
        assert(r.alternatives@[0]@ == r.callsite@);
        r
    }

    /// Pick the best (highest confidence) resolution: the last alternative
    /// with the highest score, or the recorded winner when there is none.
    pub fn best(&self) -> (r: &CallSite)
        ensures
            self.alternatives@.len() == 0 ==> r@ == self.callsite@,
            self.alternatives@.len() > 0 ==> *r == self.alternatives@[last_max_index(
                self.alternatives@,
            )],
    {
        if self.alternatives.len() == 0 {
            return &self.callsite;
        }
        let mut j: usize = 0;
        let mut i: usize = 1;
        while i < self.alternatives.len()
            invariant
                1 <= i <= self.alternatives@.len(),
                j as int == last_max_index(self.alternatives@.subrange(0, i as int)),
                0 <= j < i,
            decreases self.alternatives.len() - i,
        {
            let ghost s = self.alternatives@.subrange(0, i + 1);
            assert(s.drop_last() =~= self.alternatives@.subrange(0, i as int));
            if self.alternatives[i].confidence.score() >= self.alternatives[j].confidence.score() {
                j = i;
            }
            i = i + 1;
        }
        assert(self.alternatives@.subrange(0, i as int) =~= self.alternatives@);
        &self.alternatives[j]
    }

    /// Record another resolution; it becomes the winner when it scores
    /// strictly higher than the current one.
    pub fn add(&mut self, site: CallSite)
        ensures
            final(self).alternatives@ == old(self).alternatives@.push(site),
            site_score(site) > site_score(old(self).callsite) ==> final(self).callsite@ == site@,
            site_score(site) <= site_score(old(self).callsite) ==> final(self).callsite == old(
                self,
            ).callsite,
            old(self).wf() ==> final(self).wf(),
    {
        let ghost old_alts = self.alternatives@;
        if site.confidence.score() > self.callsite.confidence.score() {
            self.callsite = site.clone();
        }
        self.alternatives.push(site);
        proof {
            if old(self).wf() {
                let k = choose|k: int|
                    0 <= k < old_alts.len() && (#[trigger] old_alts[k])@ == old(self).callsite@;
                if site_score(site) > site_score(old(self).callsite) {
                    assert(self.alternatives@[old_alts.len() as int]@ == self.callsite@);
                } else {
                    assert(self.alternatives@[k]@ == self.callsite@);
                }
                assert forall|i: int| 0 <= i < self.alternatives@.len() implies site_score(
                    #[trigger] self.alternatives@[i],
                ) <= site_score(self.callsite) by {
                    if i < old_alts.len() {
                        assert(self.alternatives@[i] == old_alts[i]);
                    }
                }
            }
        }
    }
}

/// Whichever sequence of `new` and `add` built a resolution set, the
/// alternative that `best` picks scores exactly as high as the recorded
/// winner.
pub proof fn law_best_matches_winner(rs: ResolutionSet)
    requires
        rs.wf(),
    ensures
        site_score(rs.alternatives@[last_max_index(rs.alternatives@)]) == site_score(rs.callsite),
{
    lemma_last_max_index(rs.alternatives@);
    let k = choose|k: int|
        0 <= k < rs.alternatives@.len() && (#[trigger] rs.alternatives@[k])@ == rs.callsite@;
    assert(site_score(rs.alternatives@[k]) <= site_score(
        rs.alternatives@[last_max_index(rs.alternatives@)],
    ));
}

/// DI registration: e.g. `AddScoped<IFoo, Foo>()`
#[derive(Debug)]
pub struct DiRegistration {
    pub interface_type: String,
    pub implementation_type: String,
    pub lifetime: DiLifetime,
    pub confidence: Confidence,
}

impl Clone for DiRegistration {
    fn clone(&self) -> (r: Self)
        ensures
            r == *self,
    {
        DiRegistration {
            interface_type: self.interface_type.clone(),
            implementation_type: self.implementation_type.clone(),
            lifetime: self.lifetime,
            confidence: self.confidence,
        }
    }
}

#[derive(Debug, Clone, Copy, PartialEq, Eq, Structural)]
pub enum DiLifetime {
    Singleton,
    Scoped,
    Transient,
}

/// Factory descriptor: factory method that creates instances
#[derive(Debug)]
pub struct FactoryDescriptor {
    pub return_type: String,
    pub factory_method: String,
    pub conditional: bool,
}

/// Reflection call pattern
#[derive(Debug)]
pub struct ReflectionPattern {
    pub target_type: String,
    pub method_name: String,
    /// true if the method name is a compile-time constant
    pub is_static_string: bool,
}


/// The view of an optional string.
pub open spec fn opt_view(o: Option<String>) -> Option<Seq<char>> {
    match o {
        Some(s) => Some(s@),
        None => None,
    }
}

/// The view of an optional string reference.
pub open spec fn opt_ref_view(o: Option<&String>) -> Option<Seq<char>> {
    match o {
        Some(s) => Some(s@),
        None => None,
    }
}

/// The first class of `s` with the given name.
pub open spec fn find_class_in(s: Seq<ClassInfo>, name: Seq<char>) -> Option<ClassInfo>
    decreases s.len(),
{
    if s.len() == 0 {
        None
    } else if s[0].name@ == name {
        Some(s[0])
    } else {
        find_class_in(s.drop_first(), name)
    }
}

/// The first interface of `s` with the given name.
pub open spec fn find_interface_in(s: Seq<InterfaceInfo>, name: Seq<char>) -> Option<InterfaceInfo>
    decreases s.len(),
{
    if s.len() == 0 {
        None
    } else if s[0].name@ == name {
        Some(s[0])
    } else {
        find_interface_in(s.drop_first(), name)
    }
}

proof fn lemma_find_class_in(s: Seq<ClassInfo>, name: Seq<char>)
    ensures
        find_class_in(s, name) is Some <==> exists|i: int| 0 <= i < s.len() && (#[trigger] s[i]).name@ == name,
        find_class_in(s, name) matches Some(c) ==> c.name@ == name && s.contains(c),
    decreases s.len(),
{
    if s.len() > 0 {
        lemma_find_class_in(s.drop_first(), name);
        if s[0].name@ != name {
            if exists|i: int| 0 <= i < s.len() && (#[trigger] s[i]).name@ == name {
                let i = choose|i: int| 0 <= i < s.len() && (#[trigger] s[i]).name@ == name;
                assert(s.drop_first()[i - 1] == s[i]);
            }
            if find_class_in(s, name) is Some {
                let c = find_class_in(s, name).unwrap();
                let j = choose|j: int| 0 <= j < s.drop_first().len() && s.drop_first()[j] == c;
                assert(s[j + 1] == c);
            }
        } else {
            assert(s[0] == s[0]);
        }
    }
}

/// In a sequence whose element at `k` is the first one named `name`,
/// the lookup finds that element.
proof fn lemma_find_class_first(s: Seq<ClassInfo>, k: int, name: Seq<char>)
    requires
        0 <= k < s.len(),
        s[k].name@ == name,
        forall|i: int| 0 <= i < k ==> (#[trigger] s[i]).name@ != name,
    ensures
        find_class_in(s, name) == Some(s[k]),
    decreases s.len(),
{
    if k > 0 {
        assert forall|i: int| 0 <= i < k - 1 implies (#[trigger] s.drop_first()[i]).name@ != name by {
            assert(s.drop_first()[i] == s[i + 1]);
        }
        lemma_find_class_first(s.drop_first(), k - 1, name);
    }
}

proof fn lemma_find_interface_in(s: Seq<InterfaceInfo>, name: Seq<char>)
    ensures
        find_interface_in(s, name) is Some <==> exists|i: int| 0 <= i < s.len() && (#[trigger] s[i]).name@ == name,
        find_interface_in(s, name) matches Some(c) ==> c.name@ == name && s.contains(c),
    decreases s.len(),
{
    if s.len() > 0 {
        lemma_find_interface_in(s.drop_first(), name);
        if s[0].name@ != name {
            if exists|i: int| 0 <= i < s.len() && (#[trigger] s[i]).name@ == name {
                let i = choose|i: int| 0 <= i < s.len() && (#[trigger] s[i]).name@ == name;
                assert(s.drop_first()[i - 1] == s[i]);
            }
            if find_interface_in(s, name) is Some {
                let c = find_interface_in(s, name).unwrap();
                let j = choose|j: int| 0 <= j < s.drop_first().len() && s.drop_first()[j] == c;
                assert(s[j + 1] == c);
            }
        } else {
            assert(s[0] == s[0]);
        }
    }
}

/// Whether a string sequence holds the given characters.
pub open spec fn names_contain(s: Seq<String>, name: Seq<char>) -> bool {
    exists|i: int| 0 <= i < s.len() && (#[trigger] s[i])@ == name
}

/// Whether `name` occurs in `s` (by characters).
pub fn vec_contains_str(s: &Vec<String>, name: &str) -> (r: bool)
    ensures
        r == names_contain(s@, name@),
{
    let mut i: usize = 0;
    while i < s.len()
        invariant
            i <= s.len(),
            forall|j: int| 0 <= j < i ==> (#[trigger] s@[j])@ != name@,
        decreases s.len() - i,
    {
        if str_eq(s[i].as_str(), name) {
            return true;
        }
        i = i + 1;
    }
    false
}

/// `n` is `o` with `file` filled in when `o` had no file.
pub open spec fn annotated(o: MethodDescriptor, n: MethodDescriptor, file: Seq<char>) -> bool {
    &&& n.class == o.class
    &&& n.method == o.method
    &&& n.signature == o.signature
    &&& n.is_static == o.is_static
    &&& n.is_virtual == o.is_virtual
    &&& n.is_abstract == o.is_abstract
    &&& n.line_start == o.line_start
    &&& n.line_end == o.line_end
    &&& n.file@ == (if o.file@.len() == 0 {
        file
    } else {
        o.file@
    })
}

pub open spec fn annotated_all(o: Seq<MethodDescriptor>, n: Seq<MethodDescriptor>, file: Seq<char>) -> bool {
    o.len() == n.len() && forall|i: int| 0 <= i < o.len() ==> annotated(#[trigger] o[i], n[i], file)
}

/// Two classes agree on everything but their methods.
pub open spec fn same_class_shape(a: ClassInfo, b: ClassInfo) -> bool {
    &&& a.name == b.name
    &&& a.base_class == b.base_class
    &&& a.interfaces@ == b.interfaces@
    &&& a.fields@ == b.fields@
    &&& a.methods@.len() == b.methods@.len()
    &&& a.is_abstract == b.is_abstract
    &&& a.is_sealed == b.is_sealed
    &&& a.is_static == b.is_static
}

/// Fill in `file` for every method that has none.
fn annotate_methods(ms: &Vec<MethodDescriptor>, file: &str) -> (r: Vec<MethodDescriptor>)
    ensures
        annotated_all(ms@, r@, file@),
{
    let mut r: Vec<MethodDescriptor> = Vec::new();
    let mut i: usize = 0;
    while i < ms.len()
        invariant
            i <= ms@.len(),
            r@.len() == i,
            forall|k: int| 0 <= k < i ==> annotated(#[trigger] ms@[k], r@[k], file@),
        decreases ms.len() - i,
    {
        let m = &ms[i];
        let f = if m.file.as_str().unicode_len() == 0 {
            String::from_str(file)
        } else {
            m.file.clone()
        };
        r.push(MethodDescriptor {
            class: m.class.clone(),
            method: m.method.clone(),
            signature: m.signature.clone(),
            is_static: m.is_static,
            is_virtual: m.is_virtual,
            is_abstract: m.is_abstract,
            file: f,
            line_start: m.line_start,
            line_end: m.line_end,
        });
        i = i + 1;
    }
    r
}

/// Type graph: class hierarchy + interface implementations, each keyed by
/// its name.
#[derive(Debug)]
pub struct TypeGraph {
    pub classes: Vec<ClassInfo>,
    pub interfaces: Vec<InterfaceInfo>,
}

impl TypeGraph {
    /// The class registered under `name`.
    pub open spec fn lookup_class(self, name: Seq<char>) -> Option<ClassInfo> {
        find_class_in(self.classes@, name)
    }

    /// The interface registered under `name`.
    pub open spec fn lookup_interface(self, name: Seq<char>) -> Option<InterfaceInfo> {
        find_interface_in(self.interfaces@, name)
    }

    pub open spec fn has_class(self, name: Seq<char>) -> bool {
        self.lookup_class(name) is Some
    }

    pub open spec fn has_interface(self, name: Seq<char>) -> bool {
        self.lookup_interface(name) is Some
    }

    /// The base class name of the class registered under `name`, if any.
    pub open spec fn base_of(self, name: Seq<char>) -> Option<Seq<char>> {
        match self.lookup_class(name) {
            Some(c) => opt_view(c.base_class),
            None => None,
        }
    }

    /// Following base classes from `cur` leaves the graph within `fuel` steps.
    pub open spec fn chain_ends(self, cur: Option<Seq<char>>, fuel: nat) -> bool
        decreases fuel,
    {
        match cur {
            None => true,
            Some(b) => if fuel == 0 {
                false
            } else {
                self.chain_ends(self.base_of(b), (fuel - 1) as nat)
            },
        }
    }

    /// `ancestor` is met within `fuel` steps when following base classes from `cur`.
    pub open spec fn reaches(self, cur: Option<Seq<char>>, ancestor: Seq<char>, fuel: nat) -> bool
        decreases fuel,
    {
        match cur {
            None => false,
            Some(b) => if b == ancestor {
                true
            } else if fuel == 0 {
                false
            } else {
                self.reaches(self.base_of(b), ancestor, (fuel - 1) as nat)
            },
        }
    }

    /// `class` or one of its registered ancestors (within `fuel` steps)
    /// lists `iface` among its interfaces.
    pub open spec fn implements(self, class: ClassInfo, iface: Seq<char>, fuel: nat) -> bool
        decreases fuel,
    {
        if names_contain(class.interfaces@, iface) {
            true
        } else if fuel == 0 {
            false
        } else {
            match class.base_class {
                Some(b) => match self.lookup_class(b@) {
                    Some(c) => self.implements(c, iface, (fuel - 1) as nat),
                    None => false,
                },
                None => false,
            }
        }
    }

    /// The number of steps within which every base-class chain ends.
    pub open spec fn depth_bound(self) -> nat {
        (self.classes@.len() + 1) as nat
    }

    /// Names are unique (as map keys are) and the class hierarchy is acyclic.
    pub open spec fn wf(self) -> bool {
        &&& self.class_names_unique()
        &&& self.interface_names_unique()
        &&& self.hierarchy_ends()
    }

    /// `class` is `ancestor` itself's descendant: its base chain meets `ancestor`.
    pub open spec fn spec_is_subclass_of(self, class: ClassInfo, ancestor: Seq<char>) -> bool {
        self.reaches(opt_view(class.base_class), ancestor, self.depth_bound())
    }

    pub open spec fn spec_implements_interface(self, class: ClassInfo, iface: Seq<char>) -> bool {
        self.implements(class, iface, self.depth_bound())
    }

    /// A concrete (non-abstract, non-static) class that is `name`, derives
    /// from it, or implements it.
    pub open spec fn is_concrete_subclass(self, c: ClassInfo, name: Seq<char>) -> bool {
        &&& !c.is_abstract
        &&& !c.is_static
        &&& (c.name@ == name || self.spec_is_subclass_of(c, name)
            || self.spec_implements_interface(c, name))
    }

    pub open spec fn spec_concrete_subclasses(self, name: Seq<char>) -> Seq<ClassInfo> {
        self.filter_concrete(self.classes@, name)
    }

    /// A concrete class implementing `iface`.
    pub open spec fn is_implementor(self, c: ClassInfo, iface: Seq<char>) -> bool {
        !c.is_abstract && !c.is_static && self.spec_implements_interface(c, iface)
    }

    pub open spec fn spec_implementors_of(self, iface: Seq<char>) -> Seq<ClassInfo> {
        self.filter_implementors(self.classes@, iface)
    }

    pub fn new() -> (r: Self)
        ensures
            r.classes@.len() == 0,
            r.interfaces@.len() == 0,
            r.wf(),
    {
        TypeGraph { classes: Vec::new(), interfaces: Vec::new() }
    }

    /// The classes of `s` that are concrete subclasses of `name`.
    pub open spec fn filter_concrete(self, s: Seq<ClassInfo>, name: Seq<char>) -> Seq<ClassInfo> {
        s.filter(|c: ClassInfo| self.is_concrete_subclass(c, name))
    }

    /// The classes of `s` that implement `iface`.
    pub open spec fn filter_implementors(self, s: Seq<ClassInfo>, iface: Seq<char>) -> Seq<ClassInfo> {
        s.filter(|c: ClassInfo| self.is_implementor(c, iface))
    }

    /// Does `class` derive (transitively) from `ancestor`?
    pub fn is_subclass_of(&self, class: &ClassInfo, ancestor: &str) -> (r: bool)
        requires
            self.chain_ends(opt_view(class.base_class), self.depth_bound()),
        ensures
            r == self.spec_is_subclass_of(*class, ancestor@),
    {
        let mut cur: Option<&String> = match &class.base_class {
            Some(b) => Some(b),
            None => None,
        };
        let ghost mut fuel: nat = self.depth_bound();
        loop
            invariant
                self.chain_ends(opt_ref_view(cur), fuel),
                self.spec_is_subclass_of(*class, ancestor@) == self.reaches(
                    opt_ref_view(cur),
                    ancestor@,
                    fuel,
                ),
            decreases fuel,
        {
            match cur {
                None => {
                    return false;
                },
                Some(b) => {
                    if str_eq(b.as_str(), ancestor) {
                        return true;
                    }
                    cur = match self.get_class(b.as_str()) {
                        Some(c) => match &c.base_class {
                            Some(bb) => Some(bb),
                            None => None,
                        },
                        None => None,
                    };
                    proof {
                        fuel = (fuel - 1) as nat;
                    }
                },
            }
        }
    }

    /// Does `class` or one of its ancestors implement `iface`?
    pub fn implements_interface(&self, class: &ClassInfo, iface: &str) -> (r: bool)
        requires
            self.chain_ends(opt_view(class.base_class), self.depth_bound()),
        ensures
            r == self.spec_implements_interface(*class, iface@),
    {
        let mut cur: &ClassInfo = class;
        let ghost mut fuel: nat = self.depth_bound();
        loop
            invariant
                self.chain_ends(opt_view(cur.base_class), fuel),
                self.spec_implements_interface(*class, iface@) == self.implements(
                    *cur,
                    iface@,
                    fuel,
                ),
            decreases fuel,
        {
            if vec_contains_str(&cur.interfaces, iface) {
                return true;
            }
            match &cur.base_class {
                None => {
                    return false;
                },
                Some(b) => {
                    match self.get_class(b.as_str()) {
                        None => {
                            return false;
                        },
                        Some(c) => {
                            cur = c;
                            proof {
                                fuel = (fuel - 1) as nat;
                            }
                        },
                    }
                },
            }
        }
    }

    /// All concrete (non-abstract, non-static) classes that are `name`,
    /// derive from it or implement it.
    pub fn concrete_subclasses(&self, name: &str) -> (r: Vec<&ClassInfo>)
        requires
            self.wf(),
        ensures
            r@.map_values(|c: &ClassInfo| *c) == self.spec_concrete_subclasses(name@),
    {
        let mut result: Vec<&ClassInfo> = Vec::new();
        let mut i: usize = 0;
        while i < self.classes.len()
            invariant
                self.wf(),
                i <= self.classes@.len(),
                result@.map_values(|c: &ClassInfo| *c) == self.filter_concrete(
                    self.classes@.subrange(0, i as int),
                    name@,
                ),
            decreases self.classes.len() - i,
        {
            let ghost pre = self.classes@.subrange(0, i + 1);
            assert(pre.drop_last() =~= self.classes@.subrange(0, i as int));
            reveal(Seq::filter);
            let class = &self.classes[i];
            let ghost before = result@;
            if !class.is_abstract && !class.is_static {
                if str_eq(class.name.as_str(), name) || self.is_subclass_of(class, name)
                    || self.implements_interface(class, name) {
                    result.push(class);
                    assert(result@.map_values(|c: &ClassInfo| *c) =~= before.map_values(
                        |c: &ClassInfo| *c,
                    ).push(*class));
                }
            }
            i = i + 1;
        }
        assert(self.classes@.subrange(0, self.classes@.len() as int) =~= self.classes@);
        result
    }

    /// All concrete classes implementing `interface`.
    pub fn implementors_of(&self, interface: &str) -> (r: Vec<&ClassInfo>)
        requires
            self.wf(),
        ensures
            r@.map_values(|c: &ClassInfo| *c) == self.spec_implementors_of(interface@),
    {
        let mut result: Vec<&ClassInfo> = Vec::new();
        let mut i: usize = 0;
        while i < self.classes.len()
            invariant
                self.wf(),
                i <= self.classes@.len(),
                result@.map_values(|c: &ClassInfo| *c) == self.filter_implementors(
                    self.classes@.subrange(0, i as int),
                    interface@,
                ),
            decreases self.classes.len() - i,
        {
            let ghost pre = self.classes@.subrange(0, i + 1);
            assert(pre.drop_last() =~= self.classes@.subrange(0, i as int));
            reveal(Seq::filter);
            let class = &self.classes[i];
            let ghost before = result@;
            if !class.is_abstract && !class.is_static && self.implements_interface(class, interface) {
                result.push(class);
                assert(result@.map_values(|c: &ClassInfo| *c) =~= before.map_values(
                    |c: &ClassInfo| *c,
                ).push(*class));
            }
            i = i + 1;
        }
        assert(self.classes@.subrange(0, self.classes@.len() as int) =~= self.classes@);
        result
    }

    /// Class names are unique (as keys of a map are).
    pub open spec fn class_names_unique(self) -> bool {
        forall|i: int, j: int|
            0 <= i < j < self.classes@.len() ==> (#[trigger] self.classes@[i]).name@
                != (#[trigger] self.classes@[j]).name@
    }

    /// Interface names are unique (as keys of a map are).
    pub open spec fn interface_names_unique(self) -> bool {
        forall|i: int, j: int|
            0 <= i < j < self.interfaces@.len() ==> (#[trigger] self.interfaces@[i]).name@
                != (#[trigger] self.interfaces@[j]).name@
    }

    /// Every base-class chain ends within the depth bound.
    pub open spec fn hierarchy_ends(self) -> bool {
        forall|i: int|
            0 <= i < self.classes@.len() ==> self.chain_ends(
                opt_view((#[trigger] self.classes@[i]).base_class),
                self.depth_bound(),
            )
    }

    /// Register a class under its name, replacing a class of the same name.
    pub fn insert_class(&mut self, ci: ClassInfo)
        ensures
            final(self).interfaces@ == old(self).interfaces@,
            match old(self).lookup_class(ci.name@) {
                Some(_) => exists|k: int|
                    0 <= k < old(self).classes@.len() && old(self).classes@[k].name@ == ci.name@
                        && final(self).classes@ == old(self).classes@.update(k, ci),
                None => final(self).classes@ == old(self).classes@.push(ci),
            },
            final(self).lookup_class(ci.name@) == Some(ci),
            old(self).class_names_unique() ==> final(self).class_names_unique(),
    {
        let ghost name = ci.name@;
        match self.class_position(ci.name.as_str()) {
            Some(k) => {
                let ghost before = self.classes@;
                self.classes.set(k, ci);
                proof {
                    if old(self).class_names_unique() {
                        assert(self.class_names_unique());
                    }
                    assert forall|j: int| 0 <= j < k implies (#[trigger] self.classes@[j]).name@ != name by {
                        assert(self.classes@[j] == before[j]);
                    }
                    lemma_find_class_first(self.classes@, k as int, name);
                }
            },
            None => {
                let ghost before = self.classes@;
                self.classes.push(ci);
                proof {
                    lemma_find_class_in(before, name);
                    if old(self).class_names_unique() {
                        assert forall|i: int, j: int|
                            0 <= i < j < self.classes@.len() implies (
                            #[trigger] self.classes@[i]).name@ != (
                            #[trigger] self.classes@[j]).name@ by {
                            if j == self.classes@.len() - 1 {
                                assert(before[i] == self.classes@[i]);
                            }
                        }
                    }
                    lemma_find_class_first(self.classes@, (self.classes@.len() - 1) as int, name);
                }
            },
        }
    }

    /// Register an interface under its name, replacing one of the same name.
    pub fn insert_interface(&mut self, ii: InterfaceInfo)
        ensures
            final(self).classes@ == old(self).classes@,
            match old(self).lookup_interface(ii.name@) {
                Some(_) => exists|k: int|
                    0 <= k < old(self).interfaces@.len() && old(self).interfaces@[k].name@
                        == ii.name@ && final(self).interfaces@ == old(self).interfaces@.update(
                        k,
                        ii,
                    ),
                None => final(self).interfaces@ == old(self).interfaces@.push(ii),
            },
            old(self).interface_names_unique() ==> final(self).interface_names_unique(),
    {
        match self.interface_position(ii.name.as_str()) {
            Some(k) => {
                self.interfaces.set(k, ii);
            },
            None => {
                let ghost before = self.interfaces@;
                let ghost name = ii.name@;
                self.interfaces.push(ii);
                proof {
                    lemma_find_interface_in(before, name);
                    if old(self).interface_names_unique() {
                        assert forall|i: int, j: int|
                            0 <= i < j < self.interfaces@.len() implies (
                            #[trigger] self.interfaces@[i]).name@ != (
                            #[trigger] self.interfaces@[j]).name@ by {
                            if j == self.interfaces@.len() - 1 {
                                assert(before[i] == self.interfaces@[i]);
                            }
                        }
                    }
                }
            },
        }
    }

    /// Populate method file paths after parsing: every method without a
    /// file gets `file`.
    pub fn annotate_method_files(&mut self, file: &str)
        ensures
            final(self).classes@.len() == old(self).classes@.len(),
            final(self).interfaces@.len() == old(self).interfaces@.len(),
            forall|i: int|
                0 <= i < old(self).classes@.len() ==> same_class_shape(
                    #[trigger] old(self).classes@[i],
                    final(self).classes@[i],
                ) && annotated_all(
                    old(self).classes@[i].methods@,
                    final(self).classes@[i].methods@,
                    file@,
                ),
            forall|i: int|
                0 <= i < old(self).interfaces@.len() ==> (#[trigger] old(self).interfaces@[i]).name
                    == final(self).interfaces@[i].name && annotated_all(
                    old(self).interfaces@[i].methods@,
                    final(self).interfaces@[i].methods@,
                    file@,
                ),
    {
        let mut classes: Vec<ClassInfo> = Vec::new();
        let mut i: usize = 0;
        while i < self.classes.len()
            invariant
                i <= self.classes@.len(),
                self.classes@ == old(self).classes@,
                classes@.len() == i,
                forall|k: int|
                    0 <= k < i ==> same_class_shape(#[trigger] self.classes@[k], classes@[k])
                        && annotated_all(self.classes@[k].methods@, classes@[k].methods@, file@),
            decreases self.classes.len() - i,
        {
            let c = &self.classes[i];
            let nc = ClassInfo {
                name: c.name.clone(),
                base_class: match &c.base_class {
                    Some(b) => Some(b.clone()),
                    None => None,
                },
                interfaces: clone_vec(&c.interfaces),
                methods: annotate_methods(&c.methods, file),
                fields: clone_vec(&c.fields),
                is_abstract: c.is_abstract,
                is_sealed: c.is_sealed,
                is_static: c.is_static,
            };
            classes.push(nc);
            i = i + 1;
        }
        let mut interfaces: Vec<InterfaceInfo> = Vec::new();
        let mut j: usize = 0;
        while j < self.interfaces.len()
            invariant
                j <= self.interfaces@.len(),
                self.interfaces@ == old(self).interfaces@,
                interfaces@.len() == j,
                forall|k: int|
                    0 <= k < j ==> (#[trigger] self.interfaces@[k]).name == interfaces@[k].name
                        && annotated_all(self.interfaces@[k].methods@, interfaces@[k].methods@, file@),
            decreases self.interfaces.len() - j,
        {
            let ii = &self.interfaces[j];
            let ni = InterfaceInfo { name: ii.name.clone(), methods: annotate_methods(&ii.methods, file) };
            interfaces.push(ni);
            j = j + 1;
        }
        self.classes = classes;
        self.interfaces = interfaces;
    }

    /// Whether the base chain from `start` ends within the depth bound.
    fn chain_ends_from(&self, start: Option<&String>) -> (r: bool)
        requires
            self.classes@.len() < usize::MAX,
        ensures
            r == self.chain_ends(opt_ref_view(start), self.depth_bound()),
    {
        let mut cur = start;
        let mut taken: usize = 0;
        loop
            invariant
                self.classes@.len() < usize::MAX,
                taken <= self.classes@.len() + 1,
                self.chain_ends(opt_ref_view(start), self.depth_bound()) == self.chain_ends(
                    opt_ref_view(cur),
                    (self.depth_bound() - taken) as nat,
                ),
            decreases self.classes@.len() + 1 - taken,
        {
            match cur {
                None => {
                    return true;
                },
                Some(b) => {
                    if taken > self.classes.len() {
                        return false;
                    }
                    cur = match self.get_class(b.as_str()) {
                        Some(c) => match &c.base_class {
                            Some(bb) => Some(bb),
                            None => None,
                        },
                        None => None,
                    };
                    taken = taken + 1;
                },
            }
        }
    }

    /// Checks the well-formedness that the queries on the graph rely on.
    pub fn is_well_formed(&self) -> (r: bool)
        requires
            self.classes@.len() < usize::MAX,
        ensures
            r == self.wf(),
    {
        let n = self.classes.len();
        let mut i: usize = 0;
        while i < n
            invariant
                n == self.classes@.len(),
                i <= n,
                forall|a: int, b: int|
                    0 <= a < b < n && a < i ==> (#[trigger] self.classes@[a]).name@
                        != (#[trigger] self.classes@[b]).name@,
            decreases n - i,
        {
            let mut j: usize = i + 1;
            while j < n
                invariant
                    n == self.classes@.len(),
                    i < j <= n,
                    forall|a: int, b: int|
                        0 <= a < b < n && a < i ==> (#[trigger] self.classes@[a]).name@
                            != (#[trigger] self.classes@[b]).name@,
                    forall|b: int| i < b < j ==> self.classes@[i as int].name@ != (
                    #[trigger] self.classes@[b]).name@,
                decreases n - j,
            {
                if str_eq(self.classes[i].name.as_str(), self.classes[j].name.as_str()) {
                    return false;
                }
                j = j + 1;
            }
            i = i + 1;
        }
        let m = self.interfaces.len();
        let mut i: usize = 0;
        while i < m
            invariant
                m == self.interfaces@.len(),
                i <= m,
                self.class_names_unique(),
                forall|a: int, b: int|
                    0 <= a < b < m && a < i ==> (#[trigger] self.interfaces@[a]).name@
                        != (#[trigger] self.interfaces@[b]).name@,
            decreases m - i,
        {
            let mut j: usize = i + 1;
            while j < m
                invariant
                    m == self.interfaces@.len(),
                    i < j <= m,
                    forall|a: int, b: int|
                        0 <= a < b < m && a < i ==> (#[trigger] self.interfaces@[a]).name@
                            != (#[trigger] self.interfaces@[b]).name@,
                    forall|b: int| i < b < j ==> self.interfaces@[i as int].name@ != (
                    #[trigger] self.interfaces@[b]).name@,
                decreases m - j,
            {
                if str_eq(self.interfaces[i].name.as_str(), self.interfaces[j].name.as_str()) {
                    return false;
                }
                j = j + 1;
            }
            i = i + 1;
        }
        let mut i: usize = 0;
        while i < n
            invariant
                n == self.classes@.len(),
                n < usize::MAX,
                i <= n,
                self.class_names_unique(),
                self.interface_names_unique(),
                forall|a: int|
                    0 <= a < i ==> self.chain_ends(
                        opt_view((#[trigger] self.classes@[a]).base_class),
                        self.depth_bound(),
                    ),
            decreases n - i,
        {
            let start = match &self.classes[i].base_class {
                Some(b) => Some(b),
                None => None,
            };
            if !self.chain_ends_from(start) {
                return false;
            }
            i = i + 1;
        }
        true
    }

    /// Position of the class registered under `name`.
    pub fn class_position(&self, name: &str) -> (r: Option<usize>)
        ensures
            match r {
                Some(i) => i < self.classes@.len() && self.classes@[i as int].name@ == name@
                    && self.lookup_class(name@) == Some(self.classes@[i as int])
                    && forall|j: int| 0 <= j < i ==> (#[trigger] self.classes@[j]).name@ != name@,
                None => self.lookup_class(name@) is None,
            },
    {
        let mut i: usize = 0;
        assert(self.classes@.subrange(0, self.classes@.len() as int) =~= self.classes@);
        while i < self.classes.len()
            invariant
                i <= self.classes@.len(),
                forall|j: int| 0 <= j < i ==> (#[trigger] self.classes@[j]).name@ != name@,
                find_class_in(self.classes@, name@) == find_class_in(
                    self.classes@.subrange(i as int, self.classes@.len() as int),
                    name@,
                ),
            decreases self.classes.len() - i,
        {
            let ghost rest = self.classes@.subrange(i as int, self.classes@.len() as int);
            assert(rest.drop_first() =~= self.classes@.subrange(i + 1, self.classes@.len() as int));
            if str_eq(self.classes[i].name.as_str(), name) {
                return Some(i);
            }
            i = i + 1;
        }
        None
    }

    /// Position of the interface registered under `name`.
    pub fn interface_position(&self, name: &str) -> (r: Option<usize>)
        ensures
            match r {
                Some(i) => i < self.interfaces@.len() && self.interfaces@[i as int].name@ == name@
                    && self.lookup_interface(name@) == Some(self.interfaces@[i as int]),
                None => self.lookup_interface(name@) is None,
            },
    {
        let mut i: usize = 0;
        assert(self.interfaces@.subrange(0, self.interfaces@.len() as int) =~= self.interfaces@);
        while i < self.interfaces.len()
            invariant
                i <= self.interfaces@.len(),
                find_interface_in(self.interfaces@, name@) == find_interface_in(
                    self.interfaces@.subrange(i as int, self.interfaces@.len() as int),
                    name@,
                ),
            decreases self.interfaces.len() - i,
        {
            let ghost rest = self.interfaces@.subrange(i as int, self.interfaces@.len() as int);
            assert(rest.drop_first() =~= self.interfaces@.subrange(i + 1, self.interfaces@.len() as int));
            if str_eq(self.interfaces[i].name.as_str(), name) {
                return Some(i);
            }
            i = i + 1;
        }
        None
    }

    /// The class registered under `name`.
    pub fn get_class(&self, name: &str) -> (r: Option<&ClassInfo>)
        ensures
            match r {
                Some(c) => self.lookup_class(name@) == Some(*c),
                None => self.lookup_class(name@) is None,
            },
    {
        match self.class_position(name) {
            Some(i) => Some(&self.classes[i]),
            None => None,
        }
    }

    /// The interface registered under `name`.
    pub fn get_interface(&self, name: &str) -> (r: Option<&InterfaceInfo>)
        ensures
            match r {
                Some(c) => self.lookup_interface(name@) == Some(*c),
                None => self.lookup_interface(name@) is None,
            },
    {
        match self.interface_position(name) {
            Some(i) => Some(&self.interfaces[i]),
            None => None,
        }
    }

    pub fn contains_class(&self, name: &str) -> (r: bool)
        ensures
            r == self.has_class(name@),
    {
        self.class_position(name).is_some()
    }

    pub fn contains_interface(&self, name: &str) -> (r: bool)
        ensures
            r == self.has_interface(name@),
    {
        self.interface_position(name).is_some()
    }
}


/// `s` with the classes of `o` added in order, each unless a class of its
/// name is already there.
pub open spec fn absorbed_classes(s: Seq<ClassInfo>, o: Seq<ClassInfo>) -> Seq<ClassInfo>
    decreases o.len(),
{
    if o.len() == 0 {
        s
    } else {
        let u = absorbed_classes(s, o.drop_last());
        if find_class_in(u, o.last().name@) is Some {
            u
        } else {
            u.push(o.last())
        }
    }
}

/// `s` with the interfaces of `o` added in order, each unless an interface
/// of its name is already there.
pub open spec fn absorbed_interfaces(s: Seq<InterfaceInfo>, o: Seq<InterfaceInfo>) -> Seq<InterfaceInfo>
    decreases o.len(),
{
    if o.len() == 0 {
        s
    } else {
        let u = absorbed_interfaces(s, o.drop_last());
        if find_interface_in(u, o.last().name@) is Some {
            u
        } else {
            u.push(o.last())
        }
    }
}

impl TypeGraph {
    /// Add the classes and interfaces of `other`, keeping those already
    /// registered under the same name.
    pub fn absorb(&mut self, other: TypeGraph)
        ensures
            final(self).classes@ == absorbed_classes(old(self).classes@, other.classes@),
            final(self).interfaces@ == absorbed_interfaces(old(self).interfaces@, other.interfaces@),
    {
        let ghost s0 = self.classes@;
        let ghost i0 = self.interfaces@;
        let ghost oc = other.classes@;
        let ghost oi = other.interfaces@;
        let mut classes = other.classes;
        let mut interfaces = other.interfaces;
        let n = classes.len();
        let mut done: usize = 0;
        while classes.len() > 0
            invariant
                oc.len() == n,
                done + classes@.len() == oc.len(),
                classes@ == oc.subrange(done as int, oc.len() as int),
                self.classes@ == absorbed_classes(s0, oc.subrange(0, done as int)),
                self.interfaces@ == i0,
            decreases classes.len(),
        {
            let ghost pre = oc.subrange(0, done + 1);
            assert(pre.drop_last() =~= oc.subrange(0, done as int));
            let c = classes.remove(0);
            assert(c == oc[done as int]);
            assert(classes@ =~= oc.subrange(done + 1, oc.len() as int));
            if !self.contains_class(c.name.as_str()) {
                self.classes.push(c);
            }
            done = done + 1;
        }
        assert(oc.subrange(0, oc.len() as int) =~= oc);
        let n = interfaces.len();
        let mut done: usize = 0;
        while interfaces.len() > 0
            invariant
                oi.len() == n,
                done + interfaces@.len() == oi.len(),
                interfaces@ == oi.subrange(done as int, oi.len() as int),
                self.interfaces@ == absorbed_interfaces(i0, oi.subrange(0, done as int)),
                self.classes@ == absorbed_classes(s0, oc),
            decreases interfaces.len(),
        {
            let ghost pre = oi.subrange(0, done + 1);
            assert(pre.drop_last() =~= oi.subrange(0, done as int));
            let it = interfaces.remove(0);
            assert(it == oi[done as int]);
            assert(interfaces@ =~= oi.subrange(done + 1, oi.len() as int));
            if !self.contains_interface(it.name.as_str()) {
                self.interfaces.push(it);
            }
            done = done + 1;
        }
        assert(oi.subrange(0, oi.len() as int) =~= oi);
    }
}

/// The first method of `ms` named `name`.
pub open spec fn first_method_named(ms: Seq<MethodDescriptor>, name: Seq<char>) -> Option<MethodDescriptor>
    decreases ms.len(),
{
    if ms.len() == 0 {
        None
    } else if ms[0].method@ == name {
        Some(ms[0])
    } else {
        first_method_named(ms.drop_first(), name)
    }
}

/// The first method of `ms` named `name`.
pub fn find_method<'a>(ms: &'a Vec<MethodDescriptor>, name: &str) -> (r: Option<&'a MethodDescriptor>)
    ensures
        match r {
            Some(m) => first_method_named(ms@, name@) == Some(*m),
            None => first_method_named(ms@, name@) is None,
        },
{
    let mut i: usize = 0;
    assert(ms@.subrange(0, ms@.len() as int) =~= ms@);
    while i < ms.len()
        invariant
            i <= ms@.len(),
            first_method_named(ms@, name@) == first_method_named(
                ms@.subrange(i as int, ms@.len() as int),
                name@,
            ),
        decreases ms.len() - i,
    {
        let ghost rest = ms@.subrange(i as int, ms@.len() as int);
        assert(rest.drop_first() =~= ms@.subrange(i + 1, ms@.len() as int));
        if str_eq(ms[i].method.as_str(), name) {
            return Some(&ms[i]);
        }
        i = i + 1;
    }
    None
}

/// Whether some method of `ms` is named `name`.
pub open spec fn has_method_named(ms: Seq<MethodDescriptor>, name: Seq<char>) -> bool {
    exists|i: int| 0 <= i < ms.len() && (#[trigger] ms[i]).method@ == name
}

proof fn lemma_first_method_named(ms: Seq<MethodDescriptor>, name: Seq<char>)
    ensures
        first_method_named(ms, name) is Some <==> has_method_named(ms, name),
    decreases ms.len(),
{
    if ms.len() > 0 {
        lemma_first_method_named(ms.drop_first(), name);
        if ms[0].method@ != name {
            if has_method_named(ms, name) {
                let i = choose|i: int| 0 <= i < ms.len() && (#[trigger] ms[i]).method@ == name;
                assert(ms.drop_first()[i - 1] == ms[i]);
            }
            if has_method_named(ms.drop_first(), name) {
                let i = choose|i: int| 0 <= i < ms.drop_first().len() && (#[trigger] ms.drop_first()[i]).method@ == name;
                assert(ms[i + 1] == ms.drop_first()[i]);
            }
        } else {
            assert(ms[0].method@ == name);
        }
    }
}

/// Whether some method of `ms` is named `name`.
pub fn any_method_named(ms: &Vec<MethodDescriptor>, name: &str) -> (r: bool)
    ensures
        r == has_method_named(ms@, name@),
{
    proof {
        lemma_first_method_named(ms@, name@);
    }
    find_method(ms, name).is_some()
}

/// A result vector that is empty when nothing resolved, and otherwise
/// holds the single call site built from the given parts.
pub open spec fn single_site(
    r: Seq<CallSite>,
    caller: Seq<char>,
    target: CallTarget,
    confidence: Confidence,
    resolved: Seq<MethodDescriptor>,
) -> bool {
    &&& r.len() == 1
    &&& r[0].caller@ == caller
    &&& r[0].target == target
    &&& r[0].confidence == confidence
    &&& r[0].resolved@ == resolved
}


proof fn lemma_find_class_push(s: Seq<ClassInfo>, x: ClassInfo, name: Seq<char>)
    ensures
        find_class_in(s.push(x), name) == match find_class_in(s, name) {
            Some(c) => Some(c),
            None => if x.name@ == name {
                Some(x)
            } else {
                None
            },
        },
    decreases s.len(),
{
    if s.len() > 0 {
        assert(s.push(x)[0] == s[0]);
        assert(s.push(x).drop_first() =~= s.drop_first().push(x));
        lemma_find_class_push(s.drop_first(), x, name);
    } else {
        assert(s.push(x)[0] == x);
        assert(s.push(x).drop_first() =~= s);
    }
}

proof fn lemma_find_interface_push(s: Seq<InterfaceInfo>, x: InterfaceInfo, name: Seq<char>)
    ensures
        find_interface_in(s.push(x), name) == match find_interface_in(s, name) {
            Some(c) => Some(c),
            None => if x.name@ == name {
                Some(x)
            } else {
                None
            },
        },
    decreases s.len(),
{
    if s.len() > 0 {
        assert(s.push(x)[0] == s[0]);
        assert(s.push(x).drop_first() =~= s.drop_first().push(x));
        lemma_find_interface_push(s.drop_first(), x, name);
    } else {
        assert(s.push(x)[0] == x);
        assert(s.push(x).drop_first() =~= s);
    }
}

/// Every concrete implementor of an interface is among the concrete
/// subclasses found for it.
pub proof fn law_implementors_are_concrete_subclasses(tg: TypeGraph, iface: Seq<char>, c: ClassInfo)
    requires
        tg.spec_implementors_of(iface).contains(c),
    ensures
        tg.spec_concrete_subclasses(iface).contains(c),
{
    let p = |x: ClassInfo| tg.is_implementor(x, iface);
    let q = |x: ClassInfo| tg.is_concrete_subclass(x, iface);
    let s = tg.classes@;
    #[allow(deprecated)]
    s.filter_lemma(p);
    s.lemma_filter_contains_rev(p, c);
    let j = choose|j: int| 0 <= j < s.filter(p).len() && s.filter(p)[j] == c;
    assert(p(s.filter(p)[j]));
    let i = choose|i: int| 0 <= i < s.len() && s[i] == c;
    s.lemma_filter_contains(q, i);
}

/// After one type graph absorbs another, a class name looks up the
/// receiver's class when the receiver had one, else the other graph's.
pub proof fn law_absorb_class_lookup(s: Seq<ClassInfo>, o: Seq<ClassInfo>, name: Seq<char>)
    ensures
        find_class_in(absorbed_classes(s, o), name) == match find_class_in(s, name) {
            Some(c) => Some(c),
            None => find_class_in(o, name),
        },
    decreases o.len(),
{
    if o.len() > 0 {
        let x = o.last();
        let u = absorbed_classes(s, o.drop_last());
        law_absorb_class_lookup(s, o.drop_last(), name);
        assert(o.drop_last().push(x) =~= o);
        lemma_find_class_push(o.drop_last(), x, name);
        if find_class_in(u, x.name@) is None {
            lemma_find_class_push(u, x, name);
        }
    }
}

/// After one type graph absorbs another, an interface name looks up the
/// receiver's interface when the receiver had one, else the other graph's.
pub proof fn law_absorb_interface_lookup(s: Seq<InterfaceInfo>, o: Seq<InterfaceInfo>, name: Seq<char>)
    ensures
        find_interface_in(absorbed_interfaces(s, o), name) == match find_interface_in(s, name) {
            Some(c) => Some(c),
            None => find_interface_in(o, name),
        },
    decreases o.len(),
{
    if o.len() > 0 {
        let x = o.last();
        let u = absorbed_interfaces(s, o.drop_last());
        law_absorb_interface_lookup(s, o.drop_last(), name);
        assert(o.drop_last().push(x) =~= o);
        lemma_find_interface_push(o.drop_last(), x, name);
        if find_interface_in(u, x.name@) is None {
            lemma_find_interface_push(u, x, name);
        }
    }
}

} // verus!
