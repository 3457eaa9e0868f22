//! Literals.

use vstd::prelude::*;

use crate::context::reports::{ErrorLog, LogModel};
use crate::errors::{AnalysisErrorKind, ErrorModel};
use crate::labels::backtraces::{folded, LabelBacktraceKind};
use crate::locations::{Location, Pinned, PinnedModel, Span, SpanModel};
use crate::ordered::{same_text, Ordered, OrderedMap};
use crate::values::composites::{carried_by, entries_of, fold_values};
use crate::values::{type_of, values_of, FormModel, KeyModel, PartKey, TypeInfo, TypeKind, TypeModel,
    Value, ValueForm, ValueModel};

verus! {

/// The first of several values without those that nothing is lost without.
pub open spec fn relevant(values: Seq<ValueModel>, n: int) -> Seq<ValueModel>
    decreases n,
{
    if n <= 0 {
        Seq::<ValueModel>::empty()
    } else {
        let before = relevant(values, n - 1);
        if values[n - 1].negligible() {
            before
        } else {
            before.push(values[n - 1])
        }
    }
}

/// The value of a list of elements without a type of its own: the only one that
/// matters, or what all of them carry.
pub open spec fn nested_value(values: Seq<ValueModel>, at: PinnedModel<Location>) -> ValueModel {
    let kept = relevant(values, values.len() as int);
    if kept.len() == 1 {
        kept[0]
    } else {
        ValueModel::simple(
            folded(
                carried_by(kept, kept.len() as int),
                LabelBacktraceKind::Expression,
                None,
                at,
            ),
            at,
        )
    }
}

/// The value of a list of elements without a type of its own.
pub fn visit_nested_elements(values: Vec<Value>, at: &Pinned<Location>) -> (r: Value)
    ensures
        r@ == nested_value(values_of(values@), at@),
{
    let ghost all = values@;
    let ghost models = values_of(all);
    let mut left = values;
    let mut kept: Vec<Value> = Vec::new();
    let n: usize = left.len();
    let mut i: usize = 0;
    proof {
        assert(all.skip(0) =~= all);
        assert(values_of(kept@) =~= Seq::<ValueModel>::empty());
    }
    while i < n
        invariant
            i <= n,
            n == all.len(),
            models == values_of(all),
            left@ == all.skip(i as int),
            values_of(kept@) == relevant(models, i as int),
        decreases n - i,
    {
        let value = left.remove(0);
        let ghost before = values_of(kept@);
        proof {
            assert(value == all[i as int]);
            assert(left@ =~= all.skip(i + 1));
            assert(models[i as int] == value@);
        }
        if !value.is_negligible() {
            let ghost m = value@;
            kept.push(value);
            proof {
                assert(values_of(kept@) =~= before.push(m));
            }
        }
        i = i + 1;
    }
    let ghost ks = values_of(kept@);
    if kept.len() == 1 {
        let value = kept.remove(0);
        proof {
            assert(ks[0] == value@);
        }
        return value;
    }
    let flow = fold_values(&kept, at);
    Value::from_backtrace_or_bottom_at(flow, at)
}

/// Where an element of an array or slice stands.
#[derive(Clone, Copy, Debug, PartialEq, Eq, Structural)]
pub enum ElementKey {
    /// Behind the one before it.
    Default,
    /// At a known position.
    Known(usize),
    /// At a position that is not known.
    Unknown,
}

/// Elements, as far as they have been told apart.
#[verifier::ext_equal]
pub struct ElementsModel {
    /// Those under known keys.
    pub entries: Seq<(KeyModel, ValueModel)>,
    /// Those under no known key.
    pub others: Seq<ValueModel>,
    /// Where the next one stands.
    pub next: nat,
}

/// The first elements of an array or slice. What nothing is lost without is
/// left out.
pub open spec fn integer_elements(elements: Seq<(ElementKey, ValueModel)>, n: int) -> ElementsModel
    decreases n,
{
    if n <= 0 {
        ElementsModel {
            entries: Seq::<(KeyModel, ValueModel)>::empty(),
            others: Seq::<ValueModel>::empty(),
            next: 0,
        }
    } else {
        let before = integer_elements(elements, n - 1);
        let (key, value) = elements[n - 1];
        if value.negligible() {
            ElementsModel { next: before.next + 1, ..before }
        } else {
            match key {
                ElementKey::Default => ElementsModel {
                    entries: before.entries.push((KeyModel::Index(before.next as usize), value)),
                    next: before.next + 1,
                    ..before
                },
                ElementKey::Known(k) => ElementsModel {
                    entries: before.entries.push((KeyModel::Index(k), value)),
                    next: k as nat + 1,
                    ..before
                },
                ElementKey::Unknown => ElementsModel {
                    others: before.others.push(value),
                    next: before.next + 1,
                    ..before
                },
            }
        }
    }
}

/// What a list of elements stands for.
pub open spec fn elements_of(s: Seq<(ElementKey, Value)>) -> Seq<(ElementKey, ValueModel)> {
    s.map_values(|e: (ElementKey, Value)| (e.0, e.1@))
}

/// Whether the positions that are given leave room for all elements.
pub open spec fn positions_fit(elements: Seq<(ElementKey, Value)>) -> bool {
    forall|i: int|
        0 <= i < elements.len() ==> ((#[trigger] elements[i]).0 matches ElementKey::Known(k) ==> k
            + elements.len() < usize::MAX)
}

/// The value of a literal of an array or slice.
pub fn visit_integer_keyed_composite_literal(
    form: ValueForm,
    elements: Vec<(ElementKey, Value)>,
    location: Pinned<Location>,
    declared_type: Option<TypeInfo>,
) -> (r: Value)
    requires
        positions_fit(elements@),
    ensures
        ({
            let es = integer_elements(elements_of(elements@), elements@.len() as int);
            r@ == ValueModel::composed(
                form@,
                es.entries,
                es.others,
                location@,
                type_of(declared_type),
            )
        }),
{
    let ghost all = elements@;
    let ghost models = elements_of(all);
    let mut left = elements;
    let mut entries: Vec<(PartKey, Value)> = Vec::new();
    let mut others: Vec<Value> = Vec::new();
    let mut next: usize = 0;
    let n: usize = left.len();
    let mut i: usize = 0;
    proof {
        assert(all.skip(0) =~= all);
        assert(entries_of(entries@) =~= Seq::<(KeyModel, ValueModel)>::empty());
        assert(values_of(others@) =~= Seq::<ValueModel>::empty());
    }
    while i < n
        invariant
            i <= n,
            n == all.len(),
            models == elements_of(all),
            left@ == all.skip(i as int),
            forall|i: int|
                0 <= i < all.len() ==> ((#[trigger] all[i]).0 matches ElementKey::Known(k) ==> k
                    + all.len() < usize::MAX),
            next + (n - i) <= usize::MAX,
            entries_of(entries@) == integer_elements(models, i as int).entries,
            values_of(others@) == integer_elements(models, i as int).others,
            next == integer_elements(models, i as int).next,
        decreases n - i,
    {
        let (key, value) = left.remove(0);
        let ghost es = entries_of(entries@);
        let ghost os = values_of(others@);
        proof {
            assert((key, value) == all[i as int]);
            assert(left@ =~= all.skip(i + 1));
            assert(models[i as int] == (key, value@));
        }
        if value.is_negligible() {
            next = next + 1;
        } else {
            let ghost m = value@;
            match key {
                ElementKey::Default => {
                    entries.push((PartKey::Index(next), value));
                    proof {
                        assert(entries_of(entries@) =~= es.push((KeyModel::Index(next), m)));
                    }
                    next = next + 1;
                },
                ElementKey::Known(k) => {
                    entries.push((PartKey::Index(k), value));
                    proof {
                        assert(entries_of(entries@) =~= es.push((KeyModel::Index(k), m)));
                    }
                    next = k + 1;
                },
                ElementKey::Unknown => {
                    others.push(value);
                    proof {
                        assert(values_of(others@) =~= os.push(m));
                    }
                    next = next + 1;
                },
            }
        }
        i = i + 1;
    }
    Value::compose(form, entries, &others, location, declared_type)
}

/// An element of a map.
#[derive(Debug)]
pub struct MapElement {
    /// The key, if it is known.
    pub key_const: Option<String>,
    /// The value of the key, if there is one and it is not known.
    pub key_value: Option<Value>,
    /// The element.
    pub value: Value,
}

/// What a [`MapElement`] stands for.
pub struct MapElementModel {
    pub key_const: Option<Seq<char>>,
    pub key_value: Option<ValueModel>,
    pub value: ValueModel,
}

impl View for MapElement {
    type V = MapElementModel;

    open spec fn view(&self) -> MapElementModel {
        MapElementModel {
            key_const: crate::labels::tags::text_of(self.key_const),
            key_value: match self.key_value {
                Some(v) => Some(v@),
                None => None,
            },
            value: self.value@,
        }
    }
}

/// What a list of elements of a map stands for.
pub open spec fn map_elements_of(s: Seq<MapElement>) -> Seq<MapElementModel> {
    s.map_values(|e: MapElement| e@)
}

/// The first elements of a map: those under known keys, and the keys and
/// elements of the others. What nothing is lost without is left out.
pub open spec fn map_entries(elements: Seq<MapElementModel>, n: int) -> (
    Seq<(KeyModel, ValueModel)>,
    Seq<ValueModel>,
)
    decreases n,
{
    if n <= 0 {
        (Seq::<(KeyModel, ValueModel)>::empty(), Seq::<ValueModel>::empty())
    } else {
        let (entries, others) = map_entries(elements, n - 1);
        let e = elements[n - 1];
        if e.value.negligible() {
            (entries, others)
        } else {
            match e.key_const {
                Some(k) => (entries.push((KeyModel::Text(k), e.value)), others),
                None => match e.key_value {
                    Some(kv) => (entries, others.push(kv).push(e.value)),
                    None => (entries, others.push(e.value)),
                },
            }
        }
    }
}

/// The value of a literal of a map.
pub fn visit_map_composite_literal(
    elements: Vec<MapElement>,
    location: Pinned<Location>,
    declared_type: Option<TypeInfo>,
) -> (r: Value)
    ensures
        ({
            let (entries, others) = map_entries(
                map_elements_of(elements@),
                elements@.len() as int,
            );
            r@ == ValueModel::composed(
                FormModel::Mapping,
                entries,
                others,
                location@,
                type_of(declared_type),
            )
        }),
{
    let ghost all = elements@;
    let ghost models = map_elements_of(all);
    let mut left = elements;
    let mut entries: Vec<(PartKey, Value)> = Vec::new();
    let mut others: Vec<Value> = Vec::new();
    let n: usize = left.len();
    let mut i: usize = 0;
    proof {
        assert(all.skip(0) =~= all);
        assert(entries_of(entries@) =~= Seq::<(KeyModel, ValueModel)>::empty());
        assert(values_of(others@) =~= Seq::<ValueModel>::empty());
    }
    while i < n
        invariant
            i <= n,
            n == all.len(),
            models == map_elements_of(all),
            left@ == all.skip(i as int),
            (entries_of(entries@), values_of(others@)) == map_entries(models, i as int),
        decreases n - i,
    {
        let element = left.remove(0);
        let ghost es = entries_of(entries@);
        let ghost os = values_of(others@);
        proof {
            assert(element == all[i as int]);
            assert(left@ =~= all.skip(i + 1));
            assert(models[i as int] == element@);
        }
        let MapElement { key_const, key_value, value } = element;
        if !value.is_negligible() {
            let ghost m = value@;
            match key_const {
                Some(k) => {
                    let ghost km = k@;
                    entries.push((PartKey::Text(k), value));
                    proof {
                        assert(entries_of(entries@) =~= es.push((KeyModel::Text(km), m)));
                    }
                },
                None => match key_value {
                    Some(kv) => {
                        let ghost km = kv@;
                        others.push(kv);
                        others.push(value);
                        proof {
                            assert(values_of(others@) =~= os.push(km).push(m));
                        }
                    },
                    None => {
                        others.push(value);
                        proof {
                            assert(values_of(others@) =~= os.push(m));
                        }
                    },
                },
            }
        }
        i = i + 1;
    }
    Value::compose(ValueForm::Mapping, entries, &others, location, declared_type)
}

/// Whether one of some entries is under a name.
pub open spec fn has_name(entries: Seq<(KeyModel, ValueModel)>, name: Seq<char>) -> bool {
    exists|i: int| 0 <= i < entries.len() && (#[trigger] entries[i]).0 == KeyModel::Text(name)
}

/// The first fields of a struct, and the log once they are given. A field that
/// is given twice is reported. Some that nothing is lost without may be left
/// out; so are those without a name, which cannot be read.
pub open spec fn struct_entries(
    log: LogModel,
    fields: Seq<(Option<SpanModel>, ValueModel)>,
    leave_out: bool,
    n: int,
) -> (LogModel, Seq<(KeyModel, ValueModel)>)
    decreases n,
{
    if n <= 0 {
        (log, Seq::<(KeyModel, ValueModel)>::empty())
    } else {
        let (before, entries) = struct_entries(log, fields, leave_out, n - 1);
        let (name, value) = fields[n - 1];
        match name {
            Some(id) => if leave_out && value.negligible() {
                (before, entries)
            } else {
                (
                    if has_name(entries, id.content) {
                        before.with_error(ErrorModel::DuplicateStructFieldName { duplicate: id })
                    } else {
                        before
                    },
                    entries.push((KeyModel::Text(id.content), value)),
                )
            },
            None => (before, entries),
        }
    }
}

/// What a list of fields stands for.
pub open spec fn fields_of(s: Seq<(Option<Span>, Value)>) -> Seq<(Option<SpanModel>, ValueModel)> {
    s.map_values(
        |f: (Option<Span>, Value)|
            (
                match f.0 {
                    Some(id) => Some(id@),
                    None => None,
                },
                f.1@,
            ),
    )
}

fn is_named(entries: &Vec<(PartKey, Value)>, name: &str) -> (r: bool)
    ensures
        r == has_name(entries_of(entries@), name@),
{
    let ghost es = entries_of(entries@);
    let n: usize = entries.len();
    let mut i: usize = 0;
    while i < n
        invariant
            i <= n,
            n == entries@.len(),
            es == entries_of(entries@),
            forall|k: int| 0 <= k < i ==> (#[trigger] es[k]).0 != KeyModel::Text(name@),
        decreases n - i,
    {
        proof {
            assert(es[i as int].0 == entries@[i as int].0@);
        }
        if let PartKey::Text(t) = &entries[i].0 {
            if same_text(t.as_str(), name) {
                return true;
            }
        }
        i = i + 1;
    }
    false
}

/// The value of a literal of a struct whose fields have names. A field that is
/// given twice is reported.
pub fn visit_struct_composite_literal(
    log: &mut ErrorLog,
    fields: Vec<(Option<Span>, Value)>,
    leave_out: bool,
    location: Pinned<Location>,
    declared_type: Option<TypeInfo>,
) -> (r: Value)
    ensures
        ({
            let (reported, entries) = struct_entries(
                old(log)@,
                fields_of(fields@),
                leave_out,
                fields@.len() as int,
            );
            &&& final(log)@ == reported
            &&& r@ == ValueModel::composed(
                FormModel::Struct,
                entries,
                Seq::<ValueModel>::empty(),
                location@,
                type_of(declared_type),
            )
        }),
{
    let ghost start = log@;
    let ghost all = fields@;
    let ghost models = fields_of(all);
    let mut left = fields;
    let mut entries: Vec<(PartKey, Value)> = Vec::new();
    let n: usize = left.len();
    let mut i: usize = 0;
    proof {
        assert(all.skip(0) =~= all);
        assert(entries_of(entries@) =~= Seq::<(KeyModel, ValueModel)>::empty());
    }
    while i < n
        invariant
            i <= n,
            n == all.len(),
            models == fields_of(all),
            left@ == all.skip(i as int),
            (log@, entries_of(entries@)) == struct_entries(start, models, leave_out, i as int),
        decreases n - i,
    {
        let (name, value) = left.remove(0);
        let ghost es = entries_of(entries@);
        proof {
            assert((name, value) == all[i as int]);
            assert(left@ =~= all.skip(i + 1));
            assert(models[i as int].1 == value@);
        }
        if let Some(id) = name {
            if !(leave_out && value.is_negligible()) {
                let ghost m = value@;
                let key = id.content().to_owned();
                if is_named(&entries, id.content()) {
                    log.report_error(AnalysisErrorKind::DuplicateStructFieldName { duplicate: id });
                }
                let ghost k = key@;
                entries.push((PartKey::Text(key), value));
                proof {
                    assert(entries_of(entries@) =~= es.push((KeyModel::Text(k), m)));
                }
            }
        }
        i = i + 1;
    }
    let others: Vec<Value> = Vec::new();
    proof {
        assert(values_of(others@) =~= Seq::<ValueModel>::empty());
    }
    Value::compose(ValueForm::Struct, entries, &others, location, declared_type)
}

/// The value of a literal of a struct whose fields have no names that are
/// known.
pub fn visit_unnamed_struct_literal(
    values: &Vec<Value>,
    location: Pinned<Location>,
    declared_type: Option<TypeInfo>,
) -> (r: Value)
    ensures
        r@ == ValueModel::composed(
            FormModel::Struct,
            Seq::<(KeyModel, ValueModel)>::empty(),
            values_of(values@),
            location@,
            type_of(declared_type),
        ),
{
    let entries: Vec<(PartKey, Value)> = Vec::new();
    proof {
        assert(entries_of(entries@) =~= Seq::<(KeyModel, ValueModel)>::empty());
    }
    Value::compose(ValueForm::Struct, entries, values, location, declared_type)
}

/// The declaration of fields of a struct.
#[derive(Debug)]
pub enum FieldDecl {
    /// Names, or none for those that only fill space.
    Explicit(Vec<Option<Span>>),
    /// A type, whose name is that of the field.
    Embedded,
}

/// What a list of declarations of fields stands for: the names, if all are
/// given.
pub open spec fn declared_names(fields: Seq<FieldDecl>) -> Option<Seq<Option<SpanModel>>>
    decreases fields.len(),
{
    if fields.len() == 0 {
        Some(Seq::<Option<SpanModel>>::empty())
    } else {
        match (declared_names(fields.drop_last()), fields.last()) {
            (Some(before), FieldDecl::Explicit(ids)) => Some(before + names_of(ids@)),
            _ => None,
        }
    }
}

/// What a list of names stands for.
pub open spec fn names_of(s: Seq<Option<Span>>) -> Seq<Option<SpanModel>> {
    s.map_values(
        |x: Option<Span>|
            match x {
                Some(id) => Some(id@),
                None => None,
            },
    )
}

/// The names of the fields of a struct, if all are given and there are as many
/// as values.
pub fn find_field_names(fields: &Vec<FieldDecl>, count: usize) -> (r: Option<Vec<Option<Span>>>)
    ensures
        r is Some <==> declared_names(fields@) is Some && declared_names(fields@)->0.len() == count,
        r matches Some(names) ==> names_of(names@) == declared_names(fields@)->0,
{
    let mut names: Vec<Option<Span>> = Vec::new();
    let n: usize = fields.len();
    let mut i: usize = 0;
    proof {
        assert(names_of(names@) =~= Seq::<Option<SpanModel>>::empty());
        assert(fields@.take(0) =~= Seq::<FieldDecl>::empty());
    }
    while i < n
        invariant
            i <= n,
            n == fields@.len(),
            declared_names(fields@.take(i as int)) == Some(names_of(names@)),
        decreases n - i,
    {
        proof {
            assert(fields@.take(i + 1).drop_last() =~= fields@.take(i as int));
            assert(fields@.take(i + 1).last() == fields@[i as int]);
        }
        match &fields[i] {
            FieldDecl::Explicit(ids) => {
                let ghost before = names_of(names@);
                let m: usize = ids.len();
                let mut j: usize = 0;
                proof {
                    assert(before + names_of(ids@).take(0) =~= before);
                }
                while j < m
                    invariant
                        j <= m,
                        m == ids@.len(),
                        names_of(names@) == before + names_of(ids@).take(j as int),
                    decreases m - j,
                {
                    let ghost now = names_of(names@);
                    let name = match &ids[j] {
                        Some(id) => Some(id.duplicate()),
                        None => None,
                    };
                    names.push(name);
                    proof {
                        assert(names_of(names@) =~= now.push(names_of(ids@)[j as int]));
                        assert(names_of(ids@).take(j + 1) =~= names_of(ids@).take(j as int).push(
                            names_of(ids@)[j as int],
                        ));
                    }
                    j = j + 1;
                }
                proof {
                    assert(names_of(ids@).take(m as int) =~= names_of(ids@));
                }
            },
            FieldDecl::Embedded => {
                proof {
                    lemma_embedded(fields@, i as int, n as int);
                    assert(fields@.take(n as int) =~= fields@);
                }
                return None;
            },
        }
        i = i + 1;
    }
    proof {
        assert(fields@.take(n as int) =~= fields@);
        assert(names_of(names@).len() == names@.len());
    }
    if names.len() == count {
        Some(names)
    } else {
        None
    }
}

proof fn lemma_embedded(fields: Seq<FieldDecl>, i: int, n: int)
    requires
        0 <= i < n <= fields.len(),
        fields[i] is Embedded,
    ensures
        declared_names(fields.take(n)) is None,
    decreases n,
{
    assert(fields.take(n).drop_last() =~= fields.take(n - 1));
    assert(fields.take(n).last() == fields[n - 1]);
    if i < n - 1 {
        lemma_embedded(fields, i, n - 1);
    }
}

/// The key of an element of a literal whose type is not known.
#[derive(Clone, Copy, Debug, PartialEq, Eq, Structural)]
pub enum ListKey {
    /// There is none.
    Absent,
    /// It is a name.
    Name,
    /// It is another expression.
    Other,
}

/// Whether a literal whose type is not known gives fields by name: some keys
/// are given, and all are names.
pub fn gives_fields_by_name(keys: &Vec<ListKey>) -> (r: bool)
    ensures
        r == (keys@.len() > 0 && forall|i: int|
            0 <= i < keys@.len() ==> (#[trigger] keys@[i]) is Name),
{
    let n: usize = keys.len();
    let mut i: usize = 0;
    while i < n
        invariant
            i <= n,
            n == keys@.len(),
            forall|k: int| 0 <= k < i ==> (#[trigger] keys@[k]) is Name,
        decreases n - i,
    {
        match keys[i] {
            ListKey::Name => {},
            _ => {
                proof {
                    assert(!(keys@[i as int] is Name));
                }
                return false;
            },
        }
        i = i + 1;
    }
    n > 0
}

/// What a literal of a type is made of. One whose type is not known is taken to
/// be a struct.
pub open spec fn literal_form(kind: Option<TypeKind>) -> FormModel {
    match kind {
        Some(TypeKind::Array) => FormModel::Array,
        Some(TypeKind::Slice) => FormModel::Slice,
        Some(TypeKind::Mapping) => FormModel::Mapping,
        _ => FormModel::Struct,
    }
}

/// What a literal of a type is made of.
pub fn choose_literal_form(kind: Option<TypeKind>) -> (r: ValueForm)
    ensures
        r@ == literal_form(kind),
{
    match kind {
        Some(TypeKind::Array) => ValueForm::Array,
        Some(TypeKind::Slice) => ValueForm::Slice,
        Some(TypeKind::Mapping) => ValueForm::Mapping,
        _ => ValueForm::Struct,
    }
}

/// What a named type is defined as.
#[derive(Debug)]
pub enum NamedUnderlying {
    /// As another named type.
    Name(String),
    /// As something of a kind.
    Kind(TypeKind),
}

/// The kind of a named type, after so many steps from one to another.
pub open spec fn underlying_kind(
    types: Map<Seq<char>, NamedUnderlying>,
    name: Seq<char>,
    steps: nat,
) -> Option<TypeKind>
    decreases steps,
{
    if steps == 0 || !types.dom().contains(name) {
        None
    } else {
        match types[name] {
            NamedUnderlying::Kind(k) => Some(k),
            NamedUnderlying::Name(next) => underlying_kind(types, next@, (steps - 1) as nat),
        }
    }
}

/// The kind of a named type, if it is known. As no type is defined in terms of
/// itself, there are no more steps from one to another than there are types.
pub fn try_resolve_named_type_underlying(
    types: &OrderedMap<String, NamedUnderlying>,
    name: &str,
) -> (r: Option<TypeKind>)
    ensures
        r == underlying_kind(types@, name@, types.listing().len()),
{
    let n: usize = types.len();
    let mut current = name.to_owned();
    let mut i: usize = 0;
    while i < n
        invariant
            i <= n,
            n == types.listing().len(),
            underlying_kind(types@, name@, n as nat) == underlying_kind(
                types@,
                current@,
                (n - i) as nat,
            ),
        decreases n - i,
    {
        match types.get(&current) {
            Some(NamedUnderlying::Kind(k)) => {
                return Some(*k);
            },
            Some(NamedUnderlying::Name(next)) => {
                current = next.clone();
            },
            None => {
                return None;
            },
        }
        i = i + 1;
    }
    None
}

proof fn lemma_more_steps(
    types: Map<Seq<char>, NamedUnderlying>,
    name: Seq<char>,
    steps: nat,
    more: nat,
)
    requires
        steps <= more,
        underlying_kind(types, name, steps) is Some,
    ensures
        underlying_kind(types, name, more) == underlying_kind(types, name, steps),
    decreases steps,
{
    if let NamedUnderlying::Name(next) = types[name] {
        lemma_more_steps(types, next@, (steps - 1) as nat, (more - 1) as nat);
    }
}

proof fn lemma_avoided(
    types: Map<Seq<char>, NamedUnderlying>,
    avoided: Seq<char>,
    name: Seq<char>,
    steps: nat,
)
    requires
        underlying_kind(types, name, steps) is Some,
        underlying_kind(types, avoided, steps) is None,
    ensures
        underlying_kind(types.remove(avoided), name, steps) == underlying_kind(types, name, steps),
    decreases steps,
{
    if let NamedUnderlying::Name(next) = types[name] {
        if underlying_kind(types, avoided, (steps - 1) as nat) is Some {
            lemma_more_steps(types, avoided, (steps - 1) as nat, steps);
        }
        lemma_avoided(types, avoided, next@, (steps - 1) as nat);
    }
}

proof fn lemma_restored(
    types: Map<Seq<char>, NamedUnderlying>,
    removed: Seq<char>,
    name: Seq<char>,
    steps: nat,
)
    requires
        underlying_kind(types.remove(removed), name, steps) is Some,
    ensures
        underlying_kind(types, name, steps) == underlying_kind(types.remove(removed), name, steps),
    decreases steps,
{
    if let NamedUnderlying::Name(next) = types[name] {
        lemma_restored(types, removed, next@, (steps - 1) as nat);
    }
}

/// A named type whose kind can be found in any number of steps is found in as
/// many as there are types.
pub proof fn law_named_types_are_found(
    types: Map<Seq<char>, NamedUnderlying>,
    name: Seq<char>,
    steps: nat,
)
    requires
        types.dom().finite(),
        underlying_kind(types, name, steps) is Some,
    ensures
        underlying_kind(types, name, types.dom().len()) == underlying_kind(types, name, steps),
    decreases types.dom().len(), steps,
{
    let n = types.dom().len();
    if underlying_kind(types, name, (steps - 1) as nat) is Some {
        lemma_more_steps(types, name, (steps - 1) as nat, steps);
        law_named_types_are_found(types, name, (steps - 1) as nat);
    } else {
        match types[name] {
            NamedUnderlying::Kind(_) => {
                vstd::set_lib::lemma_set_empty_equivalency_len(types.dom());
                assert(n > 0);
            },
            NamedUnderlying::Name(next) => {
                let rest = types.remove(name);
                lemma_avoided(types, name, next@, (steps - 1) as nat);
                assert(rest.dom() =~= types.dom().remove(name));
                law_named_types_are_found(rest, next@, (steps - 1) as nat);
                lemma_restored(types, name, next@, (n - 1) as nat);
            },
        }
    }
}

/// The names of the fields of a struct to which a list of values belongs, if they
/// are known.
pub open spec fn names_for(decls: Option<Seq<FieldDecl>>, count: nat) -> Option<
    Seq<Option<SpanModel>>,
> {
    match decls {
        Some(fields) => match declared_names(fields) {
            Some(names) => if names.len() == count {
                Some(names)
            } else {
                None
            },
            None => None,
        },
        None => None,
    }
}

/// The value of a literal of a struct that lists the values of its fields, and
/// the log once it is visited.
pub open spec fn listed_struct(
    log: LogModel,
    decls: Option<Seq<FieldDecl>>,
    values: Seq<ValueModel>,
    at: PinnedModel<Location>,
    declared_type: Option<TypeModel>,
) -> (LogModel, ValueModel) {
    match names_for(decls, values.len()) {
        Some(names) => {
            let fields = Seq::new(values.len(), |i: int| (names[i], values[i]));
            let (reported, entries) = struct_entries(log, fields, false, values.len() as int);
            (
                reported,
                ValueModel::composed(
                    FormModel::Struct,
                    entries,
                    Seq::<ValueModel>::empty(),
                    at,
                    declared_type,
                ),
            )
        },
        None => (
            log,
            ValueModel::composed(
                FormModel::Struct,
                Seq::<(KeyModel, ValueModel)>::empty(),
                values,
                at,
                declared_type,
            ),
        ),
    }
}

/// The value of a literal of a struct that lists the values of its fields. Where
/// the names of these are not known, nothing tells the fields apart.
pub fn visit_listed_struct_literal(
    log: &mut ErrorLog,
    decls: Option<&Vec<FieldDecl>>,
    values: Vec<Value>,
    location: Pinned<Location>,
    declared_type: Option<TypeInfo>,
) -> (r: Value)
    ensures
        (final(log)@, r@) == listed_struct(
            old(log)@,
            match decls {
                Some(fields) => Some(fields@),
                None => None,
            },
            values_of(values@),
            location@,
            type_of(declared_type),
        ),
{
    let names = match decls {
        Some(fields) => find_field_names(fields, values.len()),
        None => None,
    };
    match names {
        Some(names) => {
            let ghost all = values@;
            let ghost known = names_of(names@);
            let ghost goal = Seq::new(
                values_of(all).len(),
                |i: int| (known[i], values_of(all)[i]),
            );
            let n: usize = values.len();
            let mut left = values;
            let mut names = names;
            let ghost ids = names@;
            let mut fields: Vec<(Option<Span>, Value)> = Vec::new();
            let mut i: usize = 0;
            proof {
                assert(all.skip(0) =~= all);
                assert(ids.skip(0) =~= ids);
                assert(fields_of(fields@) =~= goal.take(0));
            }
            while i < n
                invariant
                    i <= n,
                    n == all.len(),
                    n == ids.len(),
                    known == names_of(ids),
                    goal == Seq::new(
                        values_of(all).len(),
                        |i: int| (known[i], values_of(all)[i]),
                    ),
                    left@ == all.skip(i as int),
                    names@ == ids.skip(i as int),
                    fields_of(fields@) == goal.take(i as int),
                decreases n - i,
            {
                let value = left.remove(0);
                let name = names.remove(0);
                proof {
                    assert(value == all[i as int]);
                    assert(name == ids[i as int]);
                    assert(left@ =~= all.skip(i + 1));
                    assert(names@ =~= ids.skip(i + 1));
                }
                let ghost before = fields_of(fields@);
                fields.push((name, value));
                proof {
                    assert(fields_of(fields@) =~= before.push(goal[i as int]));
                    assert(goal.take(i + 1) =~= goal.take(i as int).push(goal[i as int]));
                }
                i = i + 1;
            }
            proof {
                assert(goal.take(n as int) =~= goal);
                assert(fields@.len() == fields_of(fields@).len());
            }
            visit_struct_composite_literal(log, fields, false, location, declared_type)
        },
        None => visit_unnamed_struct_literal(&values, location, declared_type),
    }
}

/// A literal whose elements have been evaluated.
#[derive(Debug)]
pub enum LiteralNode {
    /// A number, a character or a text.
    Basic,
    /// An array.
    Array(Vec<(ElementKey, Value)>),
    /// A slice.
    Slice(Vec<(ElementKey, Value)>),
    /// A map.
    Mapping(Vec<MapElement>),
    /// A struct whose fields are given by name.
    KeyedStruct(Vec<(Option<Span>, Value)>),
    /// A struct whose fields are listed, with their declarations, if these are
    /// known.
    ListedStruct(Option<Vec<FieldDecl>>, Vec<Value>),
}

/// Whether the positions that a literal gives leave room for all its elements.
pub open spec fn literal_fits(node: LiteralNode) -> bool {
    match node {
        LiteralNode::Array(elements) => positions_fit(elements@),
        LiteralNode::Slice(elements) => positions_fit(elements@),
        _ => true,
    }
}

/// The value of a literal, and the log once it is visited.
pub open spec fn literal_visited(
    log: LogModel,
    node: LiteralNode,
    at: PinnedModel<Location>,
    declared_type: Option<TypeModel>,
) -> (LogModel, ValueModel) {
    match node {
        LiteralNode::Basic => (log, ValueModel { declared_type, ..ValueModel::simple(None, at) }),
        LiteralNode::Array(elements) => {
            let es = integer_elements(elements_of(elements@), elements@.len() as int);
            (
                log,
                ValueModel::composed(FormModel::Array, es.entries, es.others, at, declared_type),
            )
        },
        LiteralNode::Slice(elements) => {
            let es = integer_elements(elements_of(elements@), elements@.len() as int);
            (
                log,
                ValueModel::composed(FormModel::Slice, es.entries, es.others, at, declared_type),
            )
        },
        LiteralNode::Mapping(elements) => {
            let (entries, others) = map_entries(
                map_elements_of(elements@),
                elements@.len() as int,
            );
            (log, ValueModel::composed(FormModel::Mapping, entries, others, at, declared_type))
        },
        LiteralNode::KeyedStruct(fields) => {
            let (reported, entries) = struct_entries(
                log,
                fields_of(fields@),
                true,
                fields@.len() as int,
            );
            (
                reported,
                ValueModel::composed(
                    FormModel::Struct,
                    entries,
                    Seq::<ValueModel>::empty(),
                    at,
                    declared_type,
                ),
            )
        },
        LiteralNode::ListedStruct(decls, values) => listed_struct(
            log,
            match decls {
                Some(fields) => Some(fields@),
                None => None,
            },
            values_of(values@),
            at,
            declared_type,
        ),
    }
}

/// The value of a literal.
pub fn visit_literal(
    log: &mut ErrorLog,
    node: LiteralNode,
    location: Pinned<Location>,
    declared_type: Option<TypeInfo>,
) -> (r: Value)
    requires
        literal_fits(node),
    ensures
        (final(log)@, r@) == literal_visited(
            old(log)@,
            node,
            location@,
            type_of(declared_type),
        ),
{
    match node {
        LiteralNode::Basic => Value::new_bottom(location, declared_type),
        LiteralNode::Array(elements) => visit_integer_keyed_composite_literal(
            ValueForm::Array,
            elements,
            location,
            declared_type,
        ),
        LiteralNode::Slice(elements) => visit_integer_keyed_composite_literal(
            ValueForm::Slice,
            elements,
            location,
            declared_type,
        ),
        LiteralNode::Mapping(elements) => visit_map_composite_literal(
            elements,
            location,
            declared_type,
        ),
        LiteralNode::KeyedStruct(fields) => visit_struct_composite_literal(
            log,
            fields,
            true,
            location,
            declared_type,
        ),
        LiteralNode::ListedStruct(decls, values) => visit_listed_struct_literal(
            log,
            decls.as_ref(),
            values,
            location,
            declared_type,
        ),
    }
}

} // verus!
