//! What the analysis knows of the values of a program.

use vstd::prelude::*;

use crate::context::branches::copy_trace;
use crate::functions::{FunctionModel, FunctionRef};
use crate::labels::backtraces::{combined, folded, listed, realized, refs_to, subtracted,
    substitutions_of, trace_of, trace_of_ref, traces_of, LabelBacktrace, LabelBacktraceKind,
    Substitution, Trace};
use crate::labels::tags::{text_of, SyntheticSlot, TagModel};
use crate::labels::Label;
use crate::locations::{Location, Pinned, PinnedModel};
use crate::ordered::{same_text, Ordered};
use crate::snapshots::SnapshotAware;

pub mod composites;
pub mod expansion;
pub mod laws;
pub mod part_laws;

verus! {

/// What a type is made of, behind all pointers.
#[derive(Clone, Copy, Debug, PartialEq, Eq, Structural)]
pub enum TypeKind {
    Array,
    Channel,
    Function,
    Interface,
    Mapping,
    Slice,
    Struct,
    Other,
}

/// A type, as far as the analysis reads it.
#[derive(Debug)]
pub struct TypeInfo {
    /// How it is written.
    pub name: String,
    /// What it is made of.
    pub kind: TypeKind,
}

/// What a [`TypeInfo`] stands for.
#[verifier::ext_equal]
pub struct TypeModel {
    pub name: Seq<char>,
    pub kind: TypeKind,
}

impl View for TypeInfo {
    type V = TypeModel;

    open spec fn view(&self) -> TypeModel {
        TypeModel { name: self.name@, kind: self.kind }
    }
}

impl Clone for TypeInfo {
    fn clone(&self) -> (r: Self)
        ensures
            r@ == self@,
    {
        TypeInfo { name: self.name.clone(), kind: self.kind }
    }
}

/// What an optional type stands for.
pub open spec fn type_of(t: Option<TypeInfo>) -> Option<TypeModel> {
    match t {
        Some(x) => Some(x@),
        None => None,
    }
}

/// What a list of optional types stands for.
pub open spec fn types_of(s: Seq<Option<TypeInfo>>) -> Seq<Option<TypeModel>> {
    s.map_values(|t: Option<TypeInfo>| type_of(t))
}

/// A copy of an optional type.
pub fn copy_type(t: &Option<TypeInfo>) -> (r: Option<TypeInfo>)
    ensures
        type_of(r) == type_of(*t),
{
    match t {
        Some(x) => Some(x.clone()),
        None => None,
    }
}

fn same_type(a: &Option<TypeInfo>, b: &Option<TypeInfo>) -> (r: bool)
    ensures
        r == (type_of(*a) == type_of(*b)),
{
    match (a, b) {
        (Some(x), Some(y)) => x.kind == y.kind && same_text(x.name.as_str(), y.name.as_str()),
        (None, None) => true,
        _ => false,
    }
}

/// What a value is made of.
#[derive(Debug)]
pub enum ValueForm {
    /// Of nothing that the analysis tells apart.
    Simple,
    /// Of elements at integer positions.
    Array,
    /// Of elements at integer positions, behind a reference.
    Slice,
    /// Of elements at keys, behind a reference.
    Mapping,
    /// Of fields.
    Struct,
    /// Of what was sent into it, behind a reference.
    Channel,
    /// Of one value, or of several where several are expected.
    Expandable,
    /// Of as many values as are expected.
    Mobius,
    /// Of a function, given by its position among all functions.
    Function(usize),
    /// Of what a package exports.
    Package(String),
}

/// What a [`ValueForm`] stands for.
#[verifier::ext_equal]
pub enum FormModel {
    Simple,
    Array,
    Slice,
    Mapping,
    Struct,
    Channel,
    Expandable,
    Mobius,
    Function(usize),
    Package(Seq<char>),
}

impl View for ValueForm {
    type V = FormModel;

    open spec fn view(&self) -> FormModel {
        match self {
            ValueForm::Simple => FormModel::Simple,
            ValueForm::Array => FormModel::Array,
            ValueForm::Slice => FormModel::Slice,
            ValueForm::Mapping => FormModel::Mapping,
            ValueForm::Struct => FormModel::Struct,
            ValueForm::Channel => FormModel::Channel,
            ValueForm::Expandable => FormModel::Expandable,
            ValueForm::Mobius => FormModel::Mobius,
            ValueForm::Function(f) => FormModel::Function(*f),
            ValueForm::Package(p) => FormModel::Package(p@),
        }
    }
}

impl ValueForm {
    /// Whether two forms are the same.
    pub fn same_as(&self, other: &Self) -> (r: bool)
        ensures
            r == (self@ == other@),
    {
        match (self, other) {
            (ValueForm::Simple, ValueForm::Simple) => true,
            (ValueForm::Array, ValueForm::Array) => true,
            (ValueForm::Slice, ValueForm::Slice) => true,
            (ValueForm::Mapping, ValueForm::Mapping) => true,
            (ValueForm::Struct, ValueForm::Struct) => true,
            (ValueForm::Channel, ValueForm::Channel) => true,
            (ValueForm::Expandable, ValueForm::Expandable) => true,
            (ValueForm::Mobius, ValueForm::Mobius) => true,
            (ValueForm::Function(a), ValueForm::Function(b)) => *a == *b,
            (ValueForm::Package(a), ValueForm::Package(b)) => same_text(a.as_str(), b.as_str()),
            _ => false,
        }
    }
}

impl Clone for ValueForm {
    fn clone(&self) -> (r: Self)
        ensures
            r@ == self@,
    {
        match self {
            ValueForm::Simple => ValueForm::Simple,
            ValueForm::Array => ValueForm::Array,
            ValueForm::Slice => ValueForm::Slice,
            ValueForm::Mapping => ValueForm::Mapping,
            ValueForm::Struct => ValueForm::Struct,
            ValueForm::Channel => ValueForm::Channel,
            ValueForm::Expandable => ValueForm::Expandable,
            ValueForm::Mobius => ValueForm::Mobius,
            ValueForm::Function(f) => ValueForm::Function(*f),
            ValueForm::Package(p) => ValueForm::Package(p.clone()),
        }
    }
}

/// Under what a value is found in another one.
#[derive(Debug)]
pub enum PartKey {
    /// Under nothing: it is not a part.
    Whole,
    /// Under the name of a field, or a key as it is written.
    Text(String),
    /// Under a position.
    Index(usize),
    /// Under everything that is not known, or is nowhere else.
    Others,
}

/// What a [`PartKey`] stands for.
#[verifier::ext_equal]
pub enum KeyModel {
    Whole,
    Text(Seq<char>),
    Index(usize),
    Others,
}

impl View for PartKey {
    type V = KeyModel;

    open spec fn view(&self) -> KeyModel {
        match self {
            PartKey::Whole => KeyModel::Whole,
            PartKey::Text(t) => KeyModel::Text(t@),
            PartKey::Index(i) => KeyModel::Index(*i),
            PartKey::Others => KeyModel::Others,
        }
    }
}

impl PartKey {
    /// Whether two keys are the same.
    pub fn same_as(&self, other: &Self) -> (r: bool)
        ensures
            r == (self@ == other@),
    {
        match (self, other) {
            (PartKey::Whole, PartKey::Whole) => true,
            (PartKey::Text(a), PartKey::Text(b)) => same_text(a.as_str(), b.as_str()),
            (PartKey::Index(a), PartKey::Index(b)) => *a == *b,
            (PartKey::Others, PartKey::Others) => true,
            _ => false,
        }
    }
}

impl Clone for PartKey {
    fn clone(&self) -> (r: Self)
        ensures
            r@ == self@,
    {
        match self {
            PartKey::Whole => PartKey::Whole,
            PartKey::Text(t) => PartKey::Text(t.clone()),
            PartKey::Index(i) => PartKey::Index(*i),
            PartKey::Others => PartKey::Others,
        }
    }
}

/// A value of a program.
#[derive(Debug)]
pub struct Value {
    /// Under what it is found in the value of which it is a part.
    pub key: PartKey,
    /// What it is made of.
    pub form: ValueForm,
    /// What it carries as a whole.
    pub own: Option<LabelBacktrace>,
    /// Where it comes from.
    pub location: Pinned<Location>,
    /// The type that it is declared to have.
    pub declared_type: Option<TypeInfo>,
    /// Its parts.
    pub parts: Vec<Value>,
}

/// What a [`Value`] stands for.
#[verifier::ext_equal]
pub struct ValueModel {
    pub key: KeyModel,
    pub form: FormModel,
    pub own: Option<Trace>,
    pub location: PinnedModel<Location>,
    pub declared_type: Option<TypeModel>,
    pub parts: Seq<ValueModel>,
}

impl Value {
    /// What the value stands for.
    pub open spec fn model(self) -> ValueModel
        decreases self,
    {
        ValueModel {
            key: self.key@,
            form: self.form@,
            own: trace_of(self.own),
            location: self.location@,
            declared_type: type_of(self.declared_type),
            parts: Seq::new(
                self.parts@.len(),
                |i: int|
                    if 0 <= i < self.parts@.len() {
                        self.parts@[i].model()
                    } else {
                        arbitrary()
                    },
            ),
        }
    }
}

impl View for Value {
    type V = ValueModel;

    open spec fn view(&self) -> ValueModel {
        self.model()
    }
}

/// What a list of values stands for.
pub open spec fn values_of(s: Seq<Value>) -> Seq<ValueModel> {
    s.map_values(|v: Value| v@)
}

/// What the parts of a value up to a position carry.
pub open spec fn carried_by_parts(v: ValueModel, n: int) -> Seq<Trace>
    decreases v, n,
{
    if n <= 0 || n > v.parts.len() {
        Seq::<Trace>::empty()
    } else {
        carried_by_parts(v, n - 1) + listed(carried(v.parts[n - 1]))
    }
}

/// All that a value carries, as a whole and in its parts.
pub open spec fn carried(v: ValueModel) -> Option<Trace>
    decreases v, v.parts.len() + 1,
{
    if v.parts.len() == 0 {
        v.own
    } else {
        folded(
            listed(v.own) + carried_by_parts(v, v.parts.len() as int),
            LabelBacktraceKind::Expression,
            None,
            v.location,
        )
    }
}

/// A value without the tags of a label.
pub open spec fn relieved(v: ValueModel, label: Set<TagModel>) -> ValueModel
    decreases v,
{
    ValueModel {
        own: match v.own {
            Some(t) => subtracted(t, label),
            None => None,
        },
        parts: Seq::new(
            v.parts.len(),
            |i: int|
                if 0 <= i < v.parts.len() {
                    relieved(v.parts[i], label)
                } else {
                    arbitrary()
                },
        ),
        ..v
    }
}

/// A value with the placeholders of a function substituted.
pub open spec fn value_realized(
    v: ValueModel,
    func: FunctionModel,
    subs: Seq<Substitution>,
) -> ValueModel
    decreases v,
{
    ValueModel {
        own: match v.own {
            Some(t) => realized(t, func, subs, false),
            None => None,
        },
        parts: Seq::new(
            v.parts.len(),
            |i: int|
                if 0 <= i < v.parts.len() {
                    value_realized(v.parts[i], func, subs)
                } else {
                    arbitrary()
                },
        ),
        ..v
    }
}

/// Whether two values differ in nothing but backtraces, and these not in their
/// labels. It may be left open which functions they are.
pub open spec fn values_agree(a: ValueModel, b: ValueModel, exactly: bool) -> bool
    decreases a,
{
    &&& a.key == b.key
    &&& a.form == b.form || !exactly && a.form is Function && b.form is Function
    &&& a.own is Some == b.own is Some
    &&& a.own is Some ==> a.own->0.label == b.own->0.label
    &&& a.declared_type == b.declared_type
    &&& a.parts.len() == b.parts.len()
    &&& forall|i: int|
        0 <= i < a.parts.len() && 0 <= i < b.parts.len() ==> values_agree(
            #[trigger] a.parts[i],
            b.parts[i],
            exactly,
        )
}

/// Whether two values differ in nothing but backtraces, and these not in their
/// labels, and in which functions they are: what is known of a function is
/// compared elsewhere.
pub open spec fn values_alike(a: ValueModel, b: ValueModel) -> bool {
    values_agree(a, b, false)
}

impl ValueModel {
    /// A value of which nothing is known but what it carries.
    pub open spec fn simple(backtrace: Option<Trace>, location: PinnedModel<Location>) -> ValueModel {
        ValueModel {
            key: KeyModel::Whole,
            form: FormModel::Simple,
            own: backtrace,
            location: match backtrace {
                Some(t) => t.location,
                None => location,
            },
            declared_type: None,
            parts: Seq::<ValueModel>::empty(),
        }
    }

    /// The value with something more that it carries as a whole.
    pub open spec fn nesting(
        self,
        kind: LabelBacktraceKind,
        symbol: Option<Seq<char>>,
        location: PinnedModel<Location>,
        more: Seq<Trace>,
    ) -> ValueModel {
        ValueModel { own: folded(listed(self.own) + more, kind, symbol, location), ..self }
    }

    /// The value of which nothing is known any more but what it carries.
    pub open spec fn downgraded(self) -> ValueModel {
        ValueModel {
            form: FormModel::Simple,
            own: carried(self),
            parts: Seq::<ValueModel>::empty(),
            ..self
        }
    }
}

impl Value {
    /// The parts of the value are what its model says.
    pub proof fn lemma_parts(&self)
        ensures
            self@.parts == values_of(self.parts@),
    {
        assert(self@.parts =~= values_of(self.parts@));
    }

    /// A value that carries nothing.
    pub fn new_bottom(location: Pinned<Location>, declared_type: Option<TypeInfo>) -> (r: Self)
        ensures
            r@ == (ValueModel {
                declared_type: type_of(declared_type),
                ..ValueModel::simple(None, location@)
            }),
    {
        let r = Value {
            key: PartKey::Whole,
            form: ValueForm::Simple,
            own: None,
            location,
            declared_type,
            parts: Vec::new(),
        };
        proof {
            r.lemma_parts();
            assert(r@.parts =~= Seq::<ValueModel>::empty());
        }
        r
    }

    /// A value that carries a backtrace, and comes from where that does; or
    /// one that carries nothing and comes from the given place.
    pub fn from_backtrace_or_bottom_at(
        backtrace: Option<LabelBacktrace>,
        location: &Pinned<Location>,
    ) -> (r: Self)
        ensures
            r@ == ValueModel::simple(trace_of(backtrace), location@),
    {
        let at = match &backtrace {
            Some(b) => b.location().duplicate(),
            None => location.duplicate(),
        };
        let r = Value {
            key: PartKey::Whole,
            form: ValueForm::Simple,
            own: backtrace,
            location: at,
            declared_type: None,
            parts: Vec::new(),
        };
        proof {
            r.lemma_parts();
            assert(r@.parts =~= Seq::<ValueModel>::empty());
        }
        r
    }

    /// A value with a form, that carries something as a whole.
    pub fn new(
        form: ValueForm,
        own: Option<LabelBacktrace>,
        location: Pinned<Location>,
        declared_type: Option<TypeInfo>,
        parts: Vec<Value>,
    ) -> (r: Self)
        ensures
            r@ == (ValueModel {
                key: KeyModel::Whole,
                form: form@,
                own: trace_of(own),
                location: location@,
                declared_type: type_of(declared_type),
                parts: values_of(parts@),
            }),
    {
        let r = Value { key: PartKey::Whole, form, own, location, declared_type, parts };
        proof {
            r.lemma_parts();
        }
        r
    }

    /// All that the value carries.
    pub fn backtrace(&self) -> (r: Option<LabelBacktrace>)
        ensures
            trace_of(r) == carried(self@),
        decreases self,
    {
        proof {
            self.lemma_parts();
        }
        if self.parts.len() == 0 {
            return copy_trace(&self.own);
        }
        let mut children: Vec<LabelBacktrace> = Vec::new();
        match &self.own {
            Some(b) => {
                children.push(b.clone());
            },
            None => {},
        }
        let n: usize = self.parts.len();
        let mut i: usize = 0;
        let ghost first = listed(trace_of(self.own));
        proof {
            assert(traces_of(children@) =~= first + carried_by_parts(self@, 0));
        }
        while i < n
            invariant
                i <= n,
                n == self.parts@.len(),
                self@.parts == values_of(self.parts@),
                traces_of(children@) == first + carried_by_parts(self@, i as int),
            decreases n - i,
        {
            let ghost before = traces_of(children@);
            let ghost t = carried(self@.parts[i as int]);
            let part = self.parts[i].backtrace();
            match part {
                Some(b) => {
                    let ghost added = b@;
                    children.push(b);
                    proof {
                        assert(traces_of(children@) =~= before + seq![added]);
                    }
                },
                None => {
                    proof {
                        assert(before + Seq::<Trace>::empty() =~= before);
                    }
                },
            }
            proof {
                assert(traces_of(children@) =~= before + listed(t));
                assert(carried_by_parts(self@, i + 1) == carried_by_parts(self@, i as int)
                    + listed(t));
                assert(first + (carried_by_parts(self@, i as int) + listed(t)) =~= (first
                    + carried_by_parts(self@, i as int)) + listed(t));
            }
            i = i + 1;
        }
        LabelBacktrace::fold(
            &refs_to(&children),
            LabelBacktraceKind::Expression,
            None,
            self.location.duplicate(),
        )
    }

    /// Adds something to what the value carries as a whole.
    pub fn nest_backtrace(
        &mut self,
        kind: LabelBacktraceKind,
        symbol: Option<String>,
        location: Pinned<Location>,
        more: &Vec<LabelBacktrace>,
    )
        ensures
            final(self)@ == old(self)@.nesting(
                kind,
                text_of(symbol),
                location@,
                traces_of(more@),
            ),
    {
        let own = {
            let mut children: Vec<&LabelBacktrace> = Vec::new();
            match &self.own {
                Some(b) => {
                    children.push(b);
                },
                None => {},
            }
            let ghost first = listed(trace_of(self.own));
            proof {
                assert(crate::labels::backtraces::traces_of_refs(children@) =~= first + traces_of(
                    more@,
                ).take(0));
            }
            let n: usize = more.len();
            let mut i: usize = 0;
            while i < n
                invariant
                    i <= n,
                    n == more@.len(),
                    crate::labels::backtraces::traces_of_refs(children@) == first + traces_of(
                        more@,
                    ).take(i as int),
                decreases n - i,
            {
                let ghost before = crate::labels::backtraces::traces_of_refs(children@);
                children.push(&more[i]);
                proof {
                    let t = more@[i as int]@;
                    assert(crate::labels::backtraces::traces_of_refs(children@) =~= before.push(t));
                    assert(traces_of(more@).take(i + 1) =~= traces_of(more@).take(i as int).push(
                        t,
                    ));
                }
                i = i + 1;
            }
            proof {
                assert(traces_of(more@).take(n as int) =~= traces_of(more@));
            }
            LabelBacktrace::fold(&children, kind, symbol, location)
        };
        proof {
            self.lemma_parts();
        }
        self.own = own;
        proof {
            self.lemma_parts();
        }
    }

    /// Says from where the value comes.
    pub fn set_location(&mut self, location: Pinned<Location>)
        ensures
            final(self)@ == (ValueModel { location: location@, ..old(self)@ }),
    {
        proof {
            self.lemma_parts();
        }
        self.location = location;
        proof {
            self.lemma_parts();
        }
    }

    /// Says which type the value is declared to have.
    pub fn set_declared_type(&mut self, declared_type: Option<TypeInfo>)
        ensures
            final(self)@ == (ValueModel {
                declared_type: type_of(declared_type),
                ..old(self)@
            }),
    {
        proof {
            self.lemma_parts();
        }
        self.declared_type = declared_type;
        proof {
            self.lemma_parts();
        }
    }

    /// Forgets all of the value but what it carries.
    pub fn downgrade(&mut self)
        ensures
            final(self)@ == old(self)@.downgraded(),
    {
        let total = self.backtrace();
        self.form = ValueForm::Simple;
        self.own = total;
        self.parts = Vec::new();
        proof {
            self.lemma_parts();
            assert(self@.parts =~= Seq::<ValueModel>::empty());
        }
    }

    /// Takes the tags of a label away from all that the value carries.
    pub fn subtract_label(&mut self, label: &Label)
        requires
            label.wf(),
        ensures
            final(self)@ == relieved(old(self)@, label@),
        decreases *old(self),
    {
        let ghost before = self@;
        proof {
            self.lemma_parts();
        }
        let mut own: Option<LabelBacktrace> = None;
        std::mem::swap(&mut own, &mut self.own);
        let own = match own {
            Some(b) => without_label(b, label),
            None => None,
        };
        let mut parts: Vec<Value> = Vec::new();
        std::mem::swap(&mut parts, &mut self.parts);
        let ghost all = parts@;
        proof {
            assert(decreases_to!(*old(self) => old(self).parts));
            assert(decreases_to!(old(self).parts => old(self).parts@));
        }
        let mut done: Vec<Value> = Vec::new();
        let n: usize = parts.len();
        let mut i: usize = 0;
        while i < n
            invariant
                i <= n,
                n == all.len(),
                label.wf(),
                all == old(self).parts@,
                parts@ == all.skip(i as int),
                done@.len() == i,
                decreases_to!(*old(self) => old(self).parts@),
                forall|k: int|
                    0 <= k < i ==> (#[trigger] done@[k])@ == relieved(all[k]@, label@),
            decreases n - i,
        {
            let mut part = parts.remove(0);
            proof {
                assert(part == all[i as int]);
                assert(decreases_to!(old(self).parts@ => old(self).parts@[i as int]));
            }
            part.subtract_label(label);
            proof {
                assert(parts@ =~= all.skip(i + 1));
            }
            done.push(part);
            i = i + 1;
        }
        self.own = own;
        self.parts = done;
        proof {
            self.lemma_parts();
            assert(self@.parts =~= relieved(before, label@).parts);
        }
    }

    /// The value with the placeholders of a function substituted.
    pub fn realize_all(
        &self,
        from_func: &FunctionRef,
        substitutions: &Vec<(SyntheticSlot, Option<&LabelBacktrace>)>,
    ) -> (r: Self)
        ensures
            r@ == value_realized(self@, from_func@, substitutions_of(substitutions@)),
        decreases self,
    {
        proof {
            self.lemma_parts();
        }
        let ghost goal = value_realized(self@, from_func@, substitutions_of(substitutions@));
        let own = match &self.own {
            Some(b) => b.realize_all(from_func, substitutions),
            None => None,
        };
        let mut parts: Vec<Value> = Vec::new();
        let n: usize = self.parts.len();
        let mut i: usize = 0;
        while i < n
            invariant
                i <= n,
                n == self.parts@.len(),
                parts@.len() == i,
                forall|k: int|
                    0 <= k < i ==> (#[trigger] parts@[k])@ == value_realized(
                        self.parts@[k]@,
                        from_func@,
                        substitutions_of(substitutions@),
                    ),
            decreases n - i,
        {
            parts.push(self.parts[i].realize_all(from_func, substitutions));
            i = i + 1;
        }
        let r = Value {
            key: self.key.clone(),
            form: self.form.clone(),
            own,
            location: self.location.duplicate(),
            declared_type: copy_type(&self.declared_type),
            parts,
        };
        proof {
            r.lemma_parts();
            assert(r@.parts =~= goal.parts);
        }
        r
    }
}

impl Value {
    /// The value with a placeholder substituted.
    pub fn realize(
        &self,
        from_func: &FunctionRef,
        from_slot: SyntheticSlot,
        concrete: Option<&LabelBacktrace>,
    ) -> (r: Self)
        ensures
            r@ == value_realized(self@, from_func@, seq![(from_slot, trace_of_ref(concrete))]),
    {
        let mut subs: Vec<(SyntheticSlot, Option<&LabelBacktrace>)> = Vec::new();
        subs.push((from_slot, concrete));
        proof {
            assert(substitutions_of(subs@) =~= seq![(from_slot, trace_of_ref(concrete))]);
        }
        self.realize_all(from_func, &subs)
    }
}

/// The position of the first part under a key; the number of parts if there is
/// none.
pub open spec fn part_index(parts: Seq<ValueModel>, key: KeyModel) -> int
    decreases parts.len(),
{
    if parts.len() == 0 || parts[0].key == key {
        0
    } else {
        1 + part_index(parts.skip(1), key)
    }
}

/// Nothing before the first part under a key is under the key.
pub proof fn lemma_part_index(parts: Seq<ValueModel>, key: KeyModel)
    ensures
        0 <= part_index(parts, key) <= parts.len(),
        part_index(parts, key) < parts.len() ==> parts[part_index(parts, key)].key == key,
        forall|k: int| 0 <= k < part_index(parts, key) ==> (#[trigger] parts[k]).key != key,
    decreases parts.len(),
{
    if parts.len() > 0 && parts[0].key != key {
        let rest = parts.skip(1);
        lemma_part_index(rest, key);
        assert forall|k: int| 0 <= k < part_index(parts, key) implies (#[trigger] parts[k]).key
            != key by {
            if k > 0 {
                assert(parts[k] == rest[k - 1]);
            }
        }
    }
}

/// What is first is what nothing before is.
pub proof fn lemma_part_index_is(parts: Seq<ValueModel>, key: KeyModel, at: int)
    requires
        0 <= at <= parts.len(),
        at < parts.len() ==> parts[at].key == key,
        forall|k: int| 0 <= k < at ==> (#[trigger] parts[k]).key != key,
    ensures
        part_index(parts, key) == at,
{
    lemma_part_index(parts, key);
    let p = part_index(parts, key);
    if p < at {
        assert(parts[p].key != key);
    }
    if p > at {
        assert(parts[at].key != key);
    }
}

impl ValueModel {
    /// Whether the value stands for one or several, as expected.
    pub open spec fn is_expandable(self) -> bool {
        self.form is Expandable || self.form is Mobius
    }

    /// The value with a part of its own at a position, as far as there is one
    /// there.
    pub open spec fn focused(self, index: usize) -> ValueModel {
        let others = part_index(self.parts, KeyModel::Others);
        if part_index(self.parts, KeyModel::Index(index)) < self.parts.len() || others
            >= self.parts.len() {
            self
        } else {
            ValueModel {
                parts: self.parts.push(
                    ValueModel { key: KeyModel::Index(index), ..self.parts[others] },
                ),
                ..self
            }
        }
    }

    /// The value with something more that it carries at a position.
    pub open spec fn nesting_at(
        self,
        index: usize,
        kind: LabelBacktraceKind,
        location: PinnedModel<Location>,
        more: Seq<Trace>,
    ) -> ValueModel {
        let v = self.focused(index);
        let p = part_index(v.parts, KeyModel::Index(index));
        if p < v.parts.len() {
            ValueModel { parts: v.parts.update(p, v.parts[p].nesting(kind, None, location, more)), ..v }
        } else {
            v
        }
    }

    /// The value without the tags of a label at a position.
    pub open spec fn relieved_at(self, index: usize, label: Set<TagModel>) -> ValueModel {
        let v = self.focused(index);
        let p = part_index(v.parts, KeyModel::Index(index));
        if p < v.parts.len() {
            ValueModel { parts: v.parts.update(p, relieved(v.parts[p], label)), ..v }
        } else {
            v
        }
    }
}

impl Value {
    /// The position of the first part under a key.
    pub fn find_part(&self, key: &PartKey) -> (r: usize)
        ensures
            r == part_index(self@.parts, key@),
            r <= self.parts@.len(),
    {
        let n: usize = self.parts.len();
        let mut i: usize = 0;
        proof {
            self.lemma_parts();
        }
        while i < n && !self.parts[i].key.same_as(key)
            invariant
                i <= n,
                n == self.parts@.len(),
                self@.parts == values_of(self.parts@),
                forall|k: int| 0 <= k < i ==> (#[trigger] self@.parts[k]).key != key@,
            decreases n - i,
        {
            i = i + 1;
        }
        proof {
            lemma_part_index_is(self@.parts, key@, i as int);
        }
        i
    }

    /// Whether the value stands for one or several, as expected.
    pub fn supports_overriding_expand_indices(&self) -> (r: bool)
        ensures
            r == self@.is_expandable(),
    {
        match &self.form {
            ValueForm::Expandable | ValueForm::Mobius => true,
            _ => false,
        }
    }

    fn focus(&mut self, index: usize) -> (r: usize)
        ensures
            final(self)@ == old(self)@.focused(index),
            r == part_index(final(self)@.parts, KeyModel::Index(index)),
            r <= final(self).parts@.len(),
    {
        let key = PartKey::Index(index);
        let at: usize = self.find_part(&key);
        proof {
            self.lemma_parts();
        }
        if at < self.parts.len() {
            return at;
        }
        let others: usize = self.find_part(&PartKey::Others);
        if others < self.parts.len() {
            let ghost before = self@.parts;
            let mut part = self.parts[others].clone();
            proof {
                part.lemma_parts();
            }
            part.key = PartKey::Index(index);
            proof {
                part.lemma_parts();
                lemma_part_index(before, KeyModel::Index(index));
            }
            let ghost m = part@;
            self.parts.push(part);
            proof {
                self.lemma_parts();
                assert(self@.parts =~= before.push(m));
                lemma_part_index_is(self@.parts, KeyModel::Index(index), at as int);
            }
        }
        at
    }

    /// Adds something to what the value carries at a position.
    pub fn nest_backtrace_at(
        &mut self,
        index: usize,
        kind: LabelBacktraceKind,
        location: Pinned<Location>,
        more: &Vec<LabelBacktrace>,
    )
        ensures
            final(self)@ == old(self)@.nesting_at(index, kind, location@, traces_of(more@)),
    {
        let at: usize = self.focus(index);
        proof {
            self.lemma_parts();
        }
        if at < self.parts.len() {
            let ghost v = self@;
            let mut part = self.parts.remove(at);
            part.nest_backtrace(kind, None, location, more);
            let ghost m = part@;
            self.parts.insert(at, part);
            proof {
                self.lemma_parts();
                assert(self@.parts =~= v.parts.update(at as int, m));
            }
        }
    }

    /// Takes the tags of a label away from what the value carries at a
    /// position.
    pub fn subtract_label_at(&mut self, index: usize, label: &Label)
        requires
            label.wf(),
        ensures
            final(self)@ == old(self)@.relieved_at(index, label@),
    {
        let at: usize = self.focus(index);
        proof {
            self.lemma_parts();
        }
        if at < self.parts.len() {
            let ghost v = self@;
            let mut part = self.parts.remove(at);
            part.subtract_label(label);
            let ghost m = part@;
            self.parts.insert(at, part);
            proof {
                self.lemma_parts();
                assert(self@.parts =~= v.parts.update(at as int, m));
            }
        }
    }
}

/// Whether two values are made of parts under the same keys.
pub open spec fn same_shape(a: ValueModel, b: ValueModel) -> bool {
    &&& a.form == b.form
    &&& a.parts.len() == b.parts.len()
    &&& forall|i: int| 0 <= i < a.parts.len() ==> (#[trigger] a.parts[i]).key == b.parts[i].key
}

/// A value that may be one or the other of two. If they are not made of parts
/// under the same keys, nothing is known of it but what it carries.
pub open spec fn merged(
    a: ValueModel,
    b: ValueModel,
    kind: LabelBacktraceKind,
    location: PinnedModel<Location>,
) -> ValueModel
    decreases a,
{
    let declared_type = if a.declared_type == b.declared_type {
        a.declared_type
    } else {
        None
    };
    if same_shape(a, b) {
        ValueModel {
            own: combined(a.own, b.own, kind, location),
            declared_type,
            parts: Seq::new(
                a.parts.len(),
                |i: int|
                    if 0 <= i < a.parts.len() {
                        merged(a.parts[i], b.parts[i], kind, location)
                    } else {
                        arbitrary()
                    },
            ),
            ..a
        }
    } else {
        ValueModel {
            form: FormModel::Simple,
            own: combined(carried(a), carried(b), kind, location),
            declared_type,
            parts: Seq::<ValueModel>::empty(),
            ..a
        }
    }
}

impl Value {
    fn has_shape_of(&self, other: &Self) -> (r: bool)
        ensures
            r == same_shape(self@, other@),
    {
        proof {
            self.lemma_parts();
            other.lemma_parts();
        }
        let n: usize = self.parts.len();
        if !self.form.same_as(&other.form) || n != other.parts.len() {
            return false;
        }
        let mut i: usize = 0;
        while i < n
            invariant
                i <= n,
                n == self.parts@.len(),
                n == other.parts@.len(),
                self@.parts == values_of(self.parts@),
                other@.parts == values_of(other.parts@),
                forall|k: int|
                    0 <= k < i ==> (#[trigger] self@.parts[k]).key == other@.parts[k].key,
            decreases n - i,
        {
            if !self.parts[i].key.same_as(&other.parts[i].key) {
                proof {
                    assert(self@.parts[i as int].key != other@.parts[i as int].key);
                }
                return false;
            }
            i = i + 1;
        }
        true
    }

    /// A value that may be this one or another one.
    pub fn merge_with(
        &self,
        other: &Self,
        kind: LabelBacktraceKind,
        location: &Pinned<Location>,
    ) -> (r: Self)
        ensures
            r@ == merged(self@, other@, kind, location@),
        decreases self,
    {
        proof {
            self.lemma_parts();
            other.lemma_parts();
        }
        let ghost goal = merged(self@, other@, kind, location@);
        let declared_type = if same_type(&self.declared_type, &other.declared_type) {
            copy_type(&self.declared_type)
        } else {
            None
        };
        if self.has_shape_of(other) {
            let own = LabelBacktrace::combine_options(
                copy_trace(&self.own),
                copy_trace(&other.own),
                kind,
                location,
            );
            let mut parts: Vec<Value> = Vec::new();
            let n: usize = self.parts.len();
            let mut i: usize = 0;
            while i < n
                invariant
                    i <= n,
                    n == self.parts@.len(),
                    n == other.parts@.len(),
                    parts@.len() == i,
                    forall|k: int|
                        0 <= k < i ==> (#[trigger] parts@[k])@ == merged(
                            self.parts@[k]@,
                            other.parts@[k]@,
                            kind,
                            location@,
                        ),
                decreases n - i,
            {
                parts.push(self.parts[i].merge_with(&other.parts[i], kind, location));
                i = i + 1;
            }
            let r = Value {
                key: self.key.clone(),
                form: self.form.clone(),
                own,
                location: self.location.duplicate(),
                declared_type,
                parts,
            };
            proof {
                r.lemma_parts();
                assert(r@.parts =~= goal.parts);
            }
            r
        } else {
            let own = LabelBacktrace::combine_options(
                self.backtrace(),
                other.backtrace(),
                kind,
                location,
            );
            let r = Value {
                key: self.key.clone(),
                form: ValueForm::Simple,
                own,
                location: self.location.duplicate(),
                declared_type,
                parts: Vec::new(),
            };
            proof {
                r.lemma_parts();
                assert(r@.parts =~= goal.parts);
            }
            r
        }
    }
}

fn without_label(b: LabelBacktrace, label: &Label) -> (r: Option<LabelBacktrace>)
    requires
        label.wf(),
    ensures
        trace_of(r) == subtracted(b@, label@),
{
    let mut b = b;
    let left = b.subtract_label(label);
    if left {
        Some(b)
    } else {
        None
    }
}

impl Clone for Value {
    fn clone(&self) -> (r: Self)
        ensures
            r@ == self@,
        decreases self,
    {
        proof {
            self.lemma_parts();
        }
        let mut parts: Vec<Value> = Vec::new();
        let n: usize = self.parts.len();
        let mut i: usize = 0;
        while i < n
            invariant
                i <= n,
                n == self.parts@.len(),
                parts@.len() == i,
                forall|k: int| 0 <= k < i ==> (#[trigger] parts@[k])@ == self.parts@[k]@,
            decreases n - i,
        {
            parts.push(self.parts[i].clone());
            i = i + 1;
        }
        let r = Value {
            key: self.key.clone(),
            form: self.form.clone(),
            own: copy_trace(&self.own),
            location: self.location.duplicate(),
            declared_type: copy_type(&self.declared_type),
            parts,
        };
        proof {
            r.lemma_parts();
            assert(r@.parts =~= self@.parts);
        }
        r
    }
}

proof fn lemma_alike_reflexive(a: ValueModel, e: bool)
    ensures
        values_agree(a, a, e),
    decreases a,
{
    assert forall|i: int| 0 <= i < a.parts.len() implies values_agree(
        #[trigger] a.parts[i],
        a.parts[i],
        e,
    ) by {
        lemma_alike_reflexive(a.parts[i], e);
    }
}

proof fn lemma_alike_symmetric(a: ValueModel, b: ValueModel, e: bool)
    requires
        values_agree(a, b, e),
    ensures
        values_agree(b, a, e),
    decreases a,
{
    assert forall|i: int| 0 <= i < b.parts.len() implies values_agree(
        #[trigger] b.parts[i],
        a.parts[i],
        e,
    ) by {
        assert(values_agree(a.parts[i], b.parts[i], e));
        lemma_alike_symmetric(a.parts[i], b.parts[i], e);
    }
}

proof fn lemma_alike_transitive(a: ValueModel, b: ValueModel, c: ValueModel, e: bool)
    requires
        values_agree(a, b, e),
        values_agree(b, c, e),
    ensures
        values_agree(a, c, e),
    decreases a,
{
    assert forall|i: int| 0 <= i < a.parts.len() implies values_agree(
        #[trigger] a.parts[i],
        c.parts[i],
        e,
    ) by {
        assert(values_agree(a.parts[i], b.parts[i], e));
        assert(values_agree(b.parts[i], c.parts[i], e));
        lemma_alike_transitive(a.parts[i], b.parts[i], c.parts[i], e);
    }
}

fn agree(a: &Value, b: &Value, exactly: bool) -> (r: bool)
    ensures
        r == values_agree(a@, b@, exactly),
    decreases a,
{
    proof {
        a.lemma_parts();
        b.lemma_parts();
    }
    let same_form = match (&a.form, &b.form) {
        (ValueForm::Function(x), ValueForm::Function(y)) => !exactly || *x == *y,
        _ => a.form.same_as(&b.form),
    };
    if !a.key.same_as(&b.key) || !same_form || !same_type(&a.declared_type, &b.declared_type) || !a.own.snapshot_aware_eq(&b.own) || a.parts.len() != b.parts.len() {
        return false;
    }
    let n: usize = a.parts.len();
    let mut i: usize = 0;
    while i < n
        invariant
            i <= n,
            n == a.parts@.len(),
            n == b.parts@.len(),
            a@.parts == values_of(a.parts@),
            b@.parts == values_of(b.parts@),
            forall|k: int| 0 <= k < i ==> values_agree(
                #[trigger] a@.parts[k],
                b@.parts[k],
                exactly,
            ),
        decreases n - i,
    {
        if !agree(&a.parts[i], &b.parts[i], exactly) {
            proof {
                if values_agree(a@, b@, exactly) {
                    assert(values_agree(a@.parts[i as int], b@.parts[i as int], exactly));
                }
            }
            return false;
        }
        i = i + 1;
    }
    true
}

impl Value {
    /// Whether two values differ in nothing but backtraces, and these not in
    /// their labels.
    pub fn agrees_with(&self, other: &Self) -> (r: bool)
        ensures
            r == values_agree(self@, other@, true),
    {
        agree(self, other, true)
    }
}

impl SnapshotAware for Value {
    open spec fn alike(&self, other: &Self) -> bool {
        values_alike(self@, other@)
    }

    proof fn alike_reflexive(a: &Self) {
        lemma_alike_reflexive(a@, false);
    }

    proof fn alike_symmetric(a: &Self, b: &Self) {
        lemma_alike_symmetric(a@, b@, false);
    }

    proof fn alike_transitive(a: &Self, b: &Self, c: &Self) {
        lemma_alike_transitive(a@, b@, c@, false);
    }

    fn snapshot_aware_eq(&self, other: &Self) -> (r: bool) {
        agree(self, other, false)
    }
}

} // verus!
