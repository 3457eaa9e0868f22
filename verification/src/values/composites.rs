//! Values made of parts.

use vstd::prelude::*;

use crate::context::branches::copy_trace;
use crate::labels::backtraces::{combined, folded, listed, trace_of, traces_of, LabelBacktrace,
    LabelBacktraceKind, Trace};
use crate::locations::{Location, Pinned, PinnedModel};
use crate::ordered::Ordered;
use crate::values::{carried, lemma_part_index, lemma_part_index_is, part_index, type_of,
    values_of, FormModel, KeyModel, PartKey, TypeInfo, TypeModel, Value, ValueForm, ValueModel};

verus! {

impl ValueForm {
    /// Whether values of this form are made of parts under keys.
    pub fn is_composite(&self) -> (r: bool)
        ensures
            r == self@.is_composite(),
    {
        match self {
            ValueForm::Array | ValueForm::Slice | ValueForm::Mapping | ValueForm::Struct => true,
            _ => false,
        }
    }

    /// Whether values of this form can be taken to be of a given one: they are
    /// of it, or nothing is known of them.
    pub fn can_become(&self, form: &ValueForm) -> (r: bool)
        ensures
            r == self@.can_become(form@),
    {
        match self {
            ValueForm::Simple => true,
            _ => self.same_as(form),
        }
    }
}

impl FormModel {
    /// Whether values of this form are made of parts under keys.
    pub open spec fn is_composite(self) -> bool {
        self is Array || self is Slice || self is Mapping || self is Struct
    }

    /// Whether values of this form can be taken to be of a given one.
    pub open spec fn can_become(self, form: FormModel) -> bool {
        self is Simple || self == form
    }
}

/// Parts with a value under a key, in place of what was there.
pub open spec fn placed(parts: Seq<ValueModel>, key: KeyModel, v: ValueModel) -> Seq<ValueModel> {
    let p = part_index(parts, key);
    if p < parts.len() {
        parts.update(p, ValueModel { key, ..v })
    } else {
        parts.push(ValueModel { key, ..v })
    }
}

impl ValueModel {
    /// Whether nothing is lost if the value is left out.
    pub open spec fn negligible(self) -> bool {
        self.form is Simple && carried(self) is None
    }

    /// What the part under no known key carries.
    pub open spec fn others(self) -> Option<Trace> {
        let p = part_index(self.parts, KeyModel::Others);
        if p < self.parts.len() {
            carried(self.parts[p])
        } else {
            None
        }
    }

    /// The value with something more that it carries under no known key.
    pub open spec fn with_others(
        self,
        flow: Option<Trace>,
        location: PinnedModel<Location>,
    ) -> ValueModel {
        match flow {
            Some(_) => ValueModel {
                parts: placed(
                    self.parts,
                    KeyModel::Others,
                    ValueModel::simple(
                        combined(
                            self.others(),
                            flow,
                            LabelBacktraceKind::Expression,
                            location,
                        ),
                        location,
                    ),
                ),
                ..self
            },
            None => self,
        }
    }

    /// A part as it is when it is read from the value: it also carries what the
    /// value carries as a whole.
    pub open spec fn taken(self, part: ValueModel, location: PinnedModel<Location>) -> ValueModel {
        ValueModel {
            key: KeyModel::Whole,
            own: combined(part.own, self.own, LabelBacktraceKind::Expression, location),
            location,
            ..part
        }
    }

    /// What is read under a key: the part that is there, or else the one under
    /// no known key. Under an unknown key it may be anything.
    pub open spec fn read_at(
        self,
        key: Option<KeyModel>,
        location: PinnedModel<Location>,
    ) -> ValueModel {
        match key {
            Some(k) => {
                let p = part_index(self.parts, k);
                let q = part_index(self.parts, KeyModel::Others);
                if p < self.parts.len() {
                    self.taken(self.parts[p], location)
                } else if q < self.parts.len() {
                    self.taken(self.parts[q], location)
                } else {
                    ValueModel { location, ..ValueModel::simple(self.own, location) }
                }
            },
            None => ValueModel { location, ..ValueModel::simple(carried(self), location) },
        }
    }

    /// The value once something is written under a key. Under an unknown key
    /// nothing is overwritten.
    pub open spec fn written_at(
        self,
        form: FormModel,
        key: Option<KeyModel>,
        v: ValueModel,
        key_flow: Option<Trace>,
        location: PinnedModel<Location>,
    ) -> ValueModel {
        let shaped = ValueModel { form, ..self };
        match key {
            Some(k) => ValueModel {
                parts: placed(
                    self.parts,
                    k,
                    match key_flow {
                        Some(t) => v.nesting(
                            LabelBacktraceKind::Expression,
                            None,
                            location,
                            seq![t],
                        ),
                        None => v,
                    },
                ),
                ..shaped
            },
            None => shaped.with_others(
                folded(
                    listed(carried(v)) + listed(key_flow),
                    LabelBacktraceKind::Expression,
                    None,
                    location,
                ),
                location,
            ),
        }
    }

    /// The value with all that it carries under no known key.
    pub open spec fn blurred(self, form: FormModel, location: PinnedModel<Location>) -> ValueModel {
        (ValueModel { form, own: None, parts: Seq::<ValueModel>::empty(), ..self }).with_others(
            carried(self),
            location,
        )
    }
}

fn no_parts() -> (r: Vec<Value>)
    ensures
        values_of(r@) == Seq::<ValueModel>::empty(),
{
    let r: Vec<Value> = Vec::new();
    proof {
        assert(values_of(r@) =~= Seq::<ValueModel>::empty());
    }
    r
}

impl Value {
    /// Whether nothing is lost if the value is left out.
    pub fn is_negligible(&self) -> (r: bool)
        ensures
            r == self@.negligible(),
    {
        match &self.form {
            ValueForm::Simple => self.backtrace().is_none(),
            _ => false,
        }
    }

    /// Puts a value under a key, in place of what was there.
    pub fn place(&mut self, key: PartKey, value: Value)
        ensures
            final(self)@ == (ValueModel {
                parts: placed(old(self)@.parts, key@, value@),
                ..old(self)@
            }),
    {
        let ghost before = self@;
        let ghost v = value@;
        let ghost k = key@;
        let at: usize = self.find_part(&key);
        proof {
            self.lemma_parts();
            value.lemma_parts();
        }
        let mut part = value;
        part.key = key;
        proof {
            part.lemma_parts();
            assert(part@ =~= (ValueModel { key: k, ..v }));
        }
        if at < self.parts.len() {
            let _ = self.parts.remove(at);
            self.parts.insert(at, part);
            proof {
                self.lemma_parts();
                assert(self@.parts =~= before.parts.update(at as int, ValueModel { key: k, ..v }));
            }
        } else {
            self.parts.push(part);
            proof {
                self.lemma_parts();
                assert(self@.parts =~= before.parts.push(ValueModel { key: k, ..v }));
            }
        }
    }

    /// Adds to what the value carries under no known key.
    pub fn set_dyn(&mut self, flow: Option<LabelBacktrace>, location: &Pinned<Location>)
        ensures
            final(self)@ == old(self)@.with_others(trace_of(flow), location@),
    {
        if flow.is_none() {
            return;
        }
        let at: usize = self.find_part(&PartKey::Others);
        proof {
            self.lemma_parts();
        }
        let there = if at < self.parts.len() {
            self.parts[at].backtrace()
        } else {
            None
        };
        let all = LabelBacktrace::combine_options(
            there,
            flow,
            LabelBacktraceKind::Expression,
            location,
        );
        self.place(PartKey::Others, Value::from_backtrace_or_bottom_at(all, location));
    }

    fn take_part(&self, at: usize, location: &Pinned<Location>) -> (r: Value)
        requires
            at < self.parts@.len(),
        ensures
            r@ == self@.taken(self.parts@[at as int]@, location@),
    {
        proof {
            self.lemma_parts();
        }
        let own = LabelBacktrace::combine_options(
            copy_trace(&self.parts[at].own),
            copy_trace(&self.own),
            LabelBacktraceKind::Expression,
            location,
        );
        let mut r = self.parts[at].clone();
        proof {
            r.lemma_parts();
        }
        r.key = PartKey::Whole;
        r.own = own;
        r.location = location.duplicate();
        proof {
            r.lemma_parts();
        }
        r
    }

    /// What is read under a key, which may be unknown.
    pub fn get_at_key(&self, key: Option<&PartKey>, location: &Pinned<Location>) -> (r: Value)
        ensures
            r@ == self@.read_at(
                match key {
                    Some(k) => Some(k@),
                    None => None,
                },
                location@,
            ),
    {
        proof {
            self.lemma_parts();
        }
        match key {
            Some(k) => {
                let at: usize = self.find_part(k);
                if at < self.parts.len() {
                    return self.take_part(at, location);
                }
                let others: usize = self.find_part(&PartKey::Others);
                if others < self.parts.len() {
                    return self.take_part(others, location);
                }
                let mut r = Value::from_backtrace_or_bottom_at(copy_trace(&self.own), location);
                r.set_location(location.duplicate());
                r
            },
            None => {
                let mut r = Value::from_backtrace_or_bottom_at(self.backtrace(), location);
                r.set_location(location.duplicate());
                r
            },
        }
    }

    /// Writes something under a key, which may be unknown.
    pub fn set_at_key(
        &mut self,
        form: ValueForm,
        key: Option<PartKey>,
        value: Value,
        key_backtrace: Option<LabelBacktrace>,
        location: &Pinned<Location>,
    )
        ensures
            final(self)@ == old(self)@.written_at(
                form@,
                match key {
                    Some(k) => Some(k@),
                    None => None,
                },
                value@,
                trace_of(key_backtrace),
                location@,
            ),
    {
        proof {
            self.lemma_parts();
        }
        self.form = form;
        proof {
            self.lemma_parts();
        }
        match key {
            Some(k) => {
                let mut written = value;
                if let Some(b) = key_backtrace {
                    let mut more: Vec<LabelBacktrace> = Vec::new();
                    more.push(b);
                    proof {
                        assert(traces_of(more@) =~= seq![b@]);
                    }
                    written.nest_backtrace(
                        LabelBacktraceKind::Expression,
                        None,
                        location.duplicate(),
                        &more,
                    );
                }
                self.place(k, written);
            },
            None => {
                let flow = value.backtrace();
                let mut children: Vec<&LabelBacktrace> = Vec::new();
                if let Some(b) = &flow {
                    children.push(b);
                }
                if let Some(b) = &key_backtrace {
                    children.push(b);
                }
                proof {
                    assert(crate::labels::backtraces::traces_of_refs(children@) =~= listed(
                        trace_of(flow),
                    ) + listed(trace_of(key_backtrace)));
                }
                let all = LabelBacktrace::fold(
                    &children,
                    LabelBacktraceKind::Expression,
                    None,
                    location.duplicate(),
                );
                self.set_dyn(all, location);
            },
        }
    }

    /// Forgets under which keys the value carries what it does.
    pub fn blur(&mut self, form: ValueForm, location: &Pinned<Location>)
        ensures
            final(self)@ == old(self)@.blurred(form@, location@),
    {
        let all = self.backtrace();
        self.form = form;
        self.own = None;
        self.parts = no_parts();
        proof {
            self.lemma_parts();
        }
        self.set_dyn(all, location);
    }
}

/// Parts with the first of some values under keys. Of values under one key the
/// last stays.
pub open spec fn keyed(entries: Seq<(KeyModel, ValueModel)>, n: int) -> Seq<ValueModel>
    decreases n,
{
    if n <= 0 {
        Seq::<ValueModel>::empty()
    } else {
        placed(keyed(entries, n - 1), entries[n - 1].0, entries[n - 1].1)
    }
}

/// What some of several values carry.
pub open spec fn carried_by(values: Seq<ValueModel>, n: int) -> Seq<Trace>
    decreases n,
{
    if n <= 0 {
        Seq::<Trace>::empty()
    } else {
        carried_by(values, n - 1) + listed(carried(values[n - 1]))
    }
}

impl ValueModel {
    /// A value made of parts under keys, and of some under no known key.
    pub open spec fn composed(
        form: FormModel,
        entries: Seq<(KeyModel, ValueModel)>,
        others: Seq<ValueModel>,
        location: PinnedModel<Location>,
        declared_type: Option<TypeModel>,
    ) -> ValueModel {
        (ValueModel {
            key: KeyModel::Whole,
            form,
            own: None,
            location,
            declared_type,
            parts: keyed(entries, entries.len() as int),
        }).with_others(
            folded(
                carried_by(others, others.len() as int),
                LabelBacktraceKind::Expression,
                None,
                location,
            ),
            location,
        )
    }
}

/// What a list of values under keys stands for.
pub open spec fn entries_of(s: Seq<(PartKey, Value)>) -> Seq<(KeyModel, ValueModel)> {
    s.map_values(|e: (PartKey, Value)| (e.0@, e.1@))
}

/// What several values carry, all together.
pub fn fold_values(values: &Vec<Value>, location: &Pinned<Location>) -> (r: Option<LabelBacktrace>)
    ensures
        trace_of(r) == folded(
            carried_by(values_of(values@), values@.len() as int),
            LabelBacktraceKind::Expression,
            None,
            location@,
        ),
{
    let ghost vs = values_of(values@);
    let mut flows: Vec<LabelBacktrace> = Vec::new();
    let n: usize = values.len();
    let mut i: usize = 0;
    proof {
        assert(traces_of(flows@) =~= Seq::<Trace>::empty());
    }
    while i < n
        invariant
            i <= n,
            n == values@.len(),
            vs == values_of(values@),
            traces_of(flows@) == carried_by(vs, i as int),
        decreases n - i,
    {
        let ghost before = flows@;
        let flow = values[i].backtrace();
        let ghost t = trace_of(flow);
        if let Some(b) = flow {
            flows.push(b);
        }
        proof {
            assert(vs[i as int] == values@[i as int]@);
            assert(traces_of(flows@) =~= traces_of(before) + listed(t));
        }
        i = i + 1;
    }
    LabelBacktrace::fold(
        &crate::labels::backtraces::refs_to(&flows),
        LabelBacktraceKind::Expression,
        None,
        location.duplicate(),
    )
}

impl Value {
    /// A value made of parts under keys, and of some under no known key.
    pub fn compose(
        form: ValueForm,
        entries: Vec<(PartKey, Value)>,
        others: &Vec<Value>,
        location: Pinned<Location>,
        declared_type: Option<TypeInfo>,
    ) -> (r: Value)
        ensures
            r@ == ValueModel::composed(
                form@,
                entries_of(entries@),
                values_of(others@),
                location@,
                type_of(declared_type),
            ),
    {
        let ghost es = entries_of(entries@);
        let ghost all = entries@;
        let at = location.duplicate();
        let ghost first = ValueModel {
            key: KeyModel::Whole,
            form: form@,
            own: None,
            location: location@,
            declared_type: type_of(declared_type),
            parts: Seq::<ValueModel>::empty(),
        };
        let mut r = Value::new(form, None, location, declared_type, no_parts());
        let mut left = entries;
        let n: usize = left.len();
        let mut i: usize = 0;
        proof {
            assert(all.skip(0) =~= all);
            assert(r@ =~= first);
        }
        while i < n
            invariant
                i <= n,
                n == all.len(),
                es == entries_of(all),
                left@ == all.skip(i as int),
                r@ == (ValueModel { parts: keyed(es, i as int), ..first }),
            decreases n - i,
        {
            let (key, value) = left.remove(0);
            proof {
                assert((key, value) == all[i as int]);
                assert(left@ =~= all.skip(i + 1));
                assert(es[i as int] == (key@, value@));
            }
            r.place(key, value);
            i = i + 1;
        }
        let flow = fold_values(others, &at);
        r.set_dyn(flow, &at);
        r
    }
}

/// What was written under a known key is read back from it, with what the value
/// carries as a whole.
pub proof fn law_writes_are_read_back(
    c: ValueModel,
    form: FormModel,
    k: KeyModel,
    v: ValueModel,
    location: PinnedModel<Location>,
)
    ensures
        c.written_at(form, Some(k), v, None, location).read_at(Some(k), location) == c.taken(
            v,
            location,
        ),
{
    let w = c.written_at(form, Some(k), v, None, location);
    let p = part_index(c.parts, k);
    lemma_part_index(c.parts, k);
    lemma_part_index_is(w.parts, k, p);
    assert(w.read_at(Some(k), location) =~= c.taken(v, location));
}

/// A write under a known key leaves what is read under others alone.
pub proof fn law_writes_stay_apart(
    c: ValueModel,
    form: FormModel,
    k: KeyModel,
    other: KeyModel,
    v: ValueModel,
    location: PinnedModel<Location>,
)
    requires
        k != other,
        k != KeyModel::Others,
    ensures
        c.written_at(form, Some(k), v, None, location).read_at(Some(other), location) == c.read_at(
            Some(other),
            location,
        ),
{
    let w = c.written_at(form, Some(k), v, None, location);
    lemma_placed_apart(c.parts, k, v, other);
    lemma_placed_apart(c.parts, k, v, KeyModel::Others);
    assert(w.parts == placed(c.parts, k, v));
    lemma_part_index(c.parts, k);
    lemma_part_index(c.parts, other);
    lemma_part_index(c.parts, KeyModel::Others);
    assert(w.parts.len() >= c.parts.len());
    assert forall|p: ValueModel| #[trigger] w.taken(p, location) == c.taken(p, location) by {
    }
    assert(w.read_at(Some(other), location) =~= c.read_at(Some(other), location));
}

proof fn lemma_placed_apart(
    parts: Seq<ValueModel>,
    k: KeyModel,
    v: ValueModel,
    other: KeyModel,
)
    requires
        k != other,
    ensures
        ({
            let q = part_index(parts, other);
            let now = placed(parts, k, v);
            if q < parts.len() {
                part_index(now, other) == q && now[q] == parts[q]
            } else {
                part_index(now, other) == now.len()
            }
        }),
{
    let q = part_index(parts, other);
    let now = placed(parts, k, v);
    lemma_part_index(parts, other);
    lemma_part_index(parts, k);
    let at = if q < parts.len() {
        q
    } else {
        now.len() as int
    };
    assert forall|i: int| 0 <= i < at implies (#[trigger] now[i]).key != other by {
        if i < parts.len() {
            assert(i < q);
            assert(parts[i].key != other);
        }
    }
    lemma_part_index_is(now, other, at);
}

} // verus!
