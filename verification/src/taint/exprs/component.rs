//! Parts of values in expressions.

use vstd::prelude::*;

use crate::context::branches::copy_trace;
use crate::context::reports::{ErrorLog, LogModel};
use crate::errors::{AnalysisErrorKind, ErrorModel};
use crate::functions::{FunctionModel, FunctionRef};
use crate::labels::backtraces::{combined, folded, listed, trace_of, traces_of, traces_of_refs,
    LabelBacktrace, LabelBacktraceKind, Trace};
use crate::locations::{Location, Pinned, PinnedModel, Span, SpanModel};
use crate::ordered::Ordered;
use crate::policy::blanket_directives::{directives_of, BlanketDirective, BlanketDirectiveKind,
    DirectiveModel};
use crate::policy::targets::{parse_position, position, SimpleConstValue};
use crate::symbols::table::packages::lemma_unique_method;
use crate::symbols::table::{SymbolTable, TableModel};
use crate::taint::exprs::names::{blanket_source, build_blanket_source_backtrace, operand_visited,
    visit_operand_name};
use crate::taint::funcs::call_checks::flows_of;
use crate::taint::funcs::call_results::{carrying, carrying_refs};
use crate::taint::funcs::summaries::{function_value, make_function_value};
use crate::taint::funcs::{bound_to_receiver, nest_receiver_backtrace, unknown_function,
    FunctionSummary};
use crate::values::{carried, copy_type, type_of, values_of, FormModel, KeyModel, PartKey, TypeInfo,
    TypeKind, TypeModel, Value, ValueForm, ValueModel};

verus! {

/// A field of a type.
#[derive(Debug)]
pub struct FieldInfo {
    /// Its type, if that is known.
    pub declared_type: Option<TypeInfo>,
    /// What its declaration says that it carries.
    pub tag_backtrace: Option<LabelBacktrace>,
}

/// What is known of a name behind a value.
#[derive(Debug)]
pub struct Member {
    /// What the policy says of the member of the type of the value.
    pub directives: Vec<BlanketDirective>,
    /// The position of the symbol of the method of that name that the type has.
    pub method: Option<usize>,
    /// The field of that name that the type has.
    pub field: Option<FieldInfo>,
    /// Whether any type has a method of that name.
    pub any_method_named: bool,
    /// Whether the declaration of the type is not available.
    pub base_is_external: bool,
}

/// What a [`Member`] stands for.
pub struct MemberModel {
    pub directives: Seq<DirectiveModel>,
    pub method: Option<usize>,
    pub field: Option<(Option<TypeModel>, Option<Trace>)>,
    pub any_method_named: bool,
    pub base_is_external: bool,
}

impl View for Member {
    type V = MemberModel;

    open spec fn view(&self) -> MemberModel {
        MemberModel {
            directives: directives_of(self.directives@),
            method: self.method,
            field: match self.field {
                Some(f) => Some((type_of(f.declared_type), trace_of(f.tag_backtrace))),
                None => None,
            },
            any_method_named: self.any_method_named,
            base_is_external: self.base_is_external,
        }
    }
}

/// Whether directives make sinks of their target.
pub open spec fn any_sink(directives: Seq<DirectiveModel>) -> bool {
    exists|i: int| 0 <= i < directives.len() && (#[trigger] directives[i]).kind.is_sink()
}

fn has_sink(directives: &Vec<BlanketDirective>) -> (r: bool)
    ensures
        r == any_sink(directives_of(directives@)),
{
    let n: usize = directives.len();
    let mut i: usize = 0;
    while i < n
        invariant
            i <= n,
            n == directives@.len(),
            forall|k: int| 0 <= k < i ==> !(#[trigger] directives@[k])@.kind.is_sink(),
        decreases n - i,
    {
        match directives[i].kind() {
            BlanketDirectiveKind::AllowSink | BlanketDirectiveKind::DenySink => {
                proof {
                    assert(directives_of(directives@)[i as int].kind.is_sink());
                }
                return true;
            },
            _ => {},
        }
        i = i + 1;
    }
    false
}

/// A value that also carries what some others do.
pub open spec fn also_carrying(
    v: ValueModel,
    more: Seq<Trace>,
    at: PinnedModel<Location>,
) -> ValueModel {
    if more.len() == 0 {
        v
    } else {
        v.nesting(LabelBacktraceKind::Expression, None, at, more)
    }
}

/// A value that also carries what some others do.
pub fn nest_field_backtraces(
    value: Value,
    extras: &Vec<LabelBacktrace>,
    at: &Pinned<Location>,
) -> (r: Value)
    ensures
        r@ == also_carrying(value@, traces_of(extras@), at@),
{
    if extras.len() == 0 {
        return value;
    }
    let mut r = value;
    r.nest_backtrace(LabelBacktraceKind::Expression, None, at.duplicate(), extras);
    r
}

impl MemberModel {
    /// Whether the value may have fields: that is not ruled out by its type.
    pub open spec fn may_have_fields(self, base: ValueModel) -> bool {
        match base.declared_type {
            Some(t) => self.base_is_external || t.kind is Struct,
            None => true,
        }
    }

    /// What the policy says that the member yields.
    pub open spec fn yields(self, at: PinnedModel<Location>) -> Option<Trace> {
        blanket_source(self.directives, true, at)
    }

    /// A method of the value.
    pub open spec fn method_of(
        self,
        t: TableModel,
        method: usize,
        base: ValueModel,
        at: PinnedModel<Location>,
    ) -> ValueModel {
        also_carrying(
            bound_to_receiver(t.symbols[method as int].value, base, at),
            listed(self.yields(at)),
            at,
        )
    }

    /// What a selection gives, if anything, with the table after it: a method of the type; a field of
    /// the type; the only method of that name in the package; a field of a
    /// value that may have some, unless the policy makes sinks of the member;
    /// or a method of which nothing is known, if there may be one.
    pub open spec fn selected(
        self,
        t: TableModel,
        base: ValueModel,
        selector: Seq<char>,
        at: PinnedModel<Location>,
    ) -> Option<(TableModel, ValueModel)> {
        let field = base.read_at(Some(KeyModel::Text(selector)), at);
        if base.declared_type is Some && self.method is Some {
            Some((t, self.method_of(t, self.method->0, base, at)))
        } else if base.declared_type is Some && self.field is Some && base.form.can_become(
            FormModel::Struct,
        ) {
            let (declared_type, tag) = self.field->0;
            Some(
                (
                    t,
                    also_carrying(
                        ValueModel { declared_type, ..field },
                        listed(self.yields(at)) + listed(tag),
                        at,
                    ),
                ),
            )
        } else {
            match t.unique_method(selector) {
                Some(m) => Some((t, self.method_of(t, m, base, at))),
                None => if self.may_have_fields(base) && !any_sink(self.directives)
                    && base.form.can_become(FormModel::Struct) {
                    Some((t, also_carrying(field, listed(self.yields(at)), at)))
                } else if self.directives.len() > 0 || self.any_method_named || (
                self.base_is_external && base.declared_type is Some) {
                    let own = combined(
                        carried(base),
                        self.yields(at),
                        LabelBacktraceKind::Expression,
                        at,
                    );
                    let method = unknown_function(
                        FunctionModel::BlackboxInference(at),
                        own,
                        true,
                    ).absorbing_sinks(self.directives);
                    Some(
                        (
                            TableModel { functions: t.functions.push(method), ..t },
                            function_value(t.functions.len() as usize, own, at),
                        ),
                    )
                } else {
                    None
                },
            }
        }
    }
}

fn bind_method(
    table: &SymbolTable,
    method: usize,
    base: &Value,
    blanket: Option<LabelBacktrace>,
    at: &Pinned<Location>,
) -> (r: Value)
    requires
        method < table@.symbols.len(),
    ensures
        r@ == also_carrying(
            bound_to_receiver(table@.symbols[method as int].value, base@, at@),
            listed(trace_of(blanket)),
            at@,
        ),
{
    let ghost t = trace_of(blanket);
    let value = nest_receiver_backtrace(
        table.symbol(method).value.clone(),
        base,
        at.duplicate(),
    );
    let mut extras: Vec<LabelBacktrace> = Vec::new();
    if let Some(b) = blanket {
        extras.push(b);
    }
    proof {
        assert(traces_of(extras@) =~= listed(t));
    }
    nest_field_backtraces(value, &extras, at)
}

/// The qualifier that a package is known by where it is selected from.
pub open spec fn qualifier_span(package: Seq<char>, base: ValueModel) -> SpanModel {
    SpanModel { content: package, location: base.location.inner }
}

/// What a selection from a value gives, with the log and the table after it. A
/// package is no value: a name behind it is a qualified operand.
pub open spec fn selection_visited(
    log: LogModel,
    t: TableModel,
    base: ValueModel,
    selector: SpanModel,
    member: MemberModel,
    location: Location,
) -> (LogModel, TableModel, ValueModel) {
    let at = PinnedModel { file: log.file->0, inner: location };
    match base.form {
        FormModel::Package(p) => {
            let q = Some(qualifier_span(p, base));
            let (table, value) = operand_visited(
                t,
                selector,
                q,
                member.directives,
                PinnedModel { file: log.file->0, inner: selector.location },
            );
            (t.operand_reported(log, selector, q), table, value)
        },
        _ => match member.selected(t, base, selector.content, at) {
            Some(s) => (log, s.0, s.1),
            None => (
                log.with_error(ErrorModel::InvalidSelectionBase { location }),
                t,
                ValueModel::simple(None, at),
            ),
        },
    }
}

/// Visits a selection from a value, or a name behind a package. A selection
/// that can give nothing is reported.
pub fn visit_selection_with_base(
    log: &mut ErrorLog,
    table: &mut SymbolTable,
    base: &Value,
    selector: &Span,
    member: &Member,
    location: Location,
) -> (r: Value)
    requires
        old(table)@.wf(),
        old(log)@.file is Some,
        member.method matches Some(m) ==> m < old(table)@.symbols.len(),
    ensures
        final(table)@.wf(),
        (final(log)@, final(table)@, r@) == selection_visited(
            old(log)@,
            old(table)@,
            base@,
            selector@,
            member@,
            location,
        ),
{
    if let ValueForm::Package(p) = &base.form {
        let qualifier = Span { content: p.clone(), location: *base.location.inner() };
        proof {
            assert(qualifier@ =~= qualifier_span(p@, base@));
        }
        return visit_operand_name(log, table, selector, Some(&qualifier), &member.directives);
    }
    visit_member(log, table, base, selector.content(), member, location)
}

fn visit_member(
    log: &mut ErrorLog,
    table: &mut SymbolTable,
    base: &Value,
    selector: &str,
    member: &Member,
    location: Location,
) -> (r: Value)
    requires
        old(table)@.wf(),
        old(log)@.file is Some,
        member.method matches Some(m) ==> m < old(table)@.symbols.len(),
    ensures
        final(table)@.wf(),
        ({
            let at = PinnedModel { file: old(log)@.file->0, inner: location };
            match member@.selected(old(table)@, base@, selector@, at) {
                Some(s) => {
                    &&& (final(table)@, r@) == s
                    &&& final(log)@ == old(log)@
                },
                None => {
                    &&& r@ == ValueModel::simple(None, at)
                    &&& final(table)@ == old(table)@
                    &&& final(log)@ == old(log)@.with_error(
                        ErrorModel::InvalidSelectionBase { location },
                    )
                },
            }
        }),
{
    let at = log.pin(location);
    let blanket = build_blanket_source_backtrace(&member.directives, true, &at);
    let typed = base.declared_type.is_some();
    if typed {
        if let Some(m) = member.method {
            return bind_method(table, m, base, blanket, &at);
        }
    }
    let structural = base.form.can_become(&ValueForm::Struct);
    let key = PartKey::Text(selector.to_owned());
    if typed && structural {
        if let Some(field) = &member.field {
            let ghost t = trace_of(blanket);
            let mut value = base.get_at_key(Some(&key), &at);
            value.set_declared_type(copy_type(&field.declared_type));
            let mut extras: Vec<LabelBacktrace> = Vec::new();
            if let Some(b) = blanket {
                extras.push(b);
            }
            if let Some(b) = &field.tag_backtrace {
                extras.push(b.clone());
            }
            proof {
                assert(traces_of(extras@) =~= listed(t) + listed(trace_of(field.tag_backtrace)));
            }
            return nest_field_backtraces(value, &extras, &at);
        }
    }
    if let Some(m) = table.lookup_unique_method_in_current_package(selector) {
        proof {
            let ty = choose|ty: Seq<char>| #[trigger]
                table@.is_unique_method(ty, selector@) && table@.method(ty, selector@) == m;
            lemma_unique_method(table@, ty, selector@);
        }
        return bind_method(table, m, base, blanket, &at);
    }
    let plausible = match &base.declared_type {
        Some(t) => member.base_is_external || match t.kind {
            TypeKind::Struct => true,
            _ => false,
        },
        None => true,
    };
    if plausible && !has_sink(&member.directives) && structural {
        let ghost t = trace_of(blanket);
        let value = base.get_at_key(Some(&key), &at);
        let mut extras: Vec<LabelBacktrace> = Vec::new();
        if let Some(b) = blanket {
            extras.push(b);
        }
        proof {
            assert(traces_of(extras@) =~= listed(t));
        }
        return nest_field_backtraces(value, &extras, &at);
    }
    if member.directives.len() > 0 || member.any_method_named || (member.base_is_external
        && typed) {
        let own = LabelBacktrace::combine_options(
            base.backtrace(),
            blanket,
            LabelBacktraceKind::Expression,
            &at,
        );
        let function: usize = table.function_count();
        let value = make_function_value(function, copy_trace(&own), &at);
        let mut method = FunctionSummary::new_unknown(
            FunctionRef::BlackboxInference(at),
            own,
            true,
        );
        method.absorb_blanket_sinks(&member.directives);
        table.add_function(method);
        return value;
    }
    log.report_error(AnalysisErrorKind::InvalidSelectionBase { location });
    Value::new_bottom(at, None)
}

impl FormModel {
    /// Whether elements of values of this form can be read.
    pub open spec fn is_indexable(self) -> bool {
        self is Simple || self is Array || self is Slice || self is Mapping
    }
}

/// The key that an index stands for in values of a form, if it is known.
pub open spec fn key_of_index(form: FormModel, index: Option<Seq<char>>) -> Option<KeyModel> {
    match index {
        Some(text) => if form is Mapping {
            Some(KeyModel::Text(text))
        } else {
            match position(text) {
                Some(i) => Some(KeyModel::Index(i)),
                None => None,
            }
        },
        None => None,
    }
}

/// The key that an index stands for in values of a form, if it is known.
pub fn find_key(form: &ValueForm, index: &Option<SimpleConstValue>) -> (r: Option<PartKey>)
    ensures
        (match r {
            Some(k) => Some(k@),
            None => None,
        }) == key_of_index(form@, crate::symbols::const_of(*index)),
{
    match index {
        Some(c) => match form {
            ValueForm::Mapping => Some(PartKey::Text(c.text.clone())),
            _ => match parse_position(c.text.as_str()) {
                Some(i) => Some(PartKey::Index(i)),
                None => None,
            },
        },
        None => None,
    }
}

/// An element of a value. One of a map also tells, where two values are
/// expected, whether it is there.
pub open spec fn indexed(
    base: ValueModel,
    index: Option<Seq<char>>,
    at: PinnedModel<Location>,
) -> ValueModel {
    let element = base.read_at(key_of_index(base.form, index), at);
    if base.form is Mapping {
        ValueModel::paired(element, element.downgraded(), at)
    } else {
        element
    }
}

/// Visits an access to an element of a value. One that has none is reported.
pub fn visit_indexing_with(
    log: &mut ErrorLog,
    base: &Value,
    index: &Option<SimpleConstValue>,
    location: Location,
) -> (r: Value)
    requires
        old(log)@.file is Some,
    ensures
        ({
            let at = PinnedModel { file: old(log)@.file->0, inner: location };
            if base@.form.is_indexable() {
                r@ == indexed(base@, crate::symbols::const_of(*index), at) && final(log)@ == old(
                    log,
                )@
            } else {
                r@ == ValueModel::simple(None, at) && final(log)@ == old(log)@.with_error(
                    ErrorModel::InvalidIndexingBase { location },
                )
            }
        }),
{
    let at = log.pin(location);
    let indexable = match &base.form {
        ValueForm::Simple | ValueForm::Array | ValueForm::Slice | ValueForm::Mapping => true,
        _ => false,
    };
    if !indexable {
        log.report_error(AnalysisErrorKind::InvalidIndexingBase { location });
        return Value::new_bottom(at, None);
    }
    let key = find_key(&base.form, index);
    let element = base.get_at_key(key.as_ref(), &at);
    match &base.form {
        ValueForm::Mapping => {
            let mut presence = element.clone();
            presence.downgrade();
            Value::pair(element, presence, at)
        },
        _ => element,
    }
}

/// A bound of a slice.
#[derive(Clone, Copy, Debug, PartialEq, Eq, Structural)]
pub enum SliceBound {
    /// It is not given.
    Omitted,
    /// It is known.
    Known(usize),
    /// It is given, but not known.
    Unknown,
}

/// Whether a position lies between two bounds.
pub open spec fn lies_between(i: usize, low: SliceBound, high: SliceBound) -> bool {
    (low matches SliceBound::Known(l) ==> l <= i) && (high matches SliceBound::Known(h) ==> i < h)
}

/// Whether a part may belong to a slice.
pub open spec fn in_slice(key: KeyModel, low: SliceBound, high: SliceBound) -> bool {
    match key {
        KeyModel::Index(i) => lies_between(i, low, high),
        _ => true,
    }
}

/// What the first parts of a value that may belong to a slice carry.
pub open spec fn carried_in_slice(
    v: ValueModel,
    low: SliceBound,
    high: SliceBound,
    n: int,
) -> Seq<Trace>
    decreases n,
{
    if n <= 0 {
        Seq::<Trace>::empty()
    } else {
        let before = carried_in_slice(v, low, high, n - 1);
        if in_slice(v.parts[n - 1].key, low, high) {
            before + listed(carried(v.parts[n - 1]))
        } else {
            before
        }
    }
}

/// What a slice of a value carries, before what its bounds do: the elements
/// between the bounds if these are known, or else everything.
pub open spec fn sliced(
    v: ValueModel,
    low: SliceBound,
    high: SliceBound,
    at: PinnedModel<Location>,
) -> Option<Trace> {
    if low is Unknown || high is Unknown {
        carried(v)
    } else {
        folded(
            listed(v.own) + carried_in_slice(v, low, high, v.parts.len() as int),
            LabelBacktraceKind::Expression,
            None,
            at,
        )
    }
}

fn belongs_to_slice(key: &PartKey, low: SliceBound, high: SliceBound) -> (r: bool)
    ensures
        r == in_slice(key@, low, high),
{
    match key {
        PartKey::Index(i) => {
            let above = match low {
                SliceBound::Known(l) => l <= *i,
                _ => true,
            };
            let below = match high {
                SliceBound::Known(h) => *i < h,
                _ => true,
            };
            above && below
        },
        _ => true,
    }
}

fn slice_backtrace(
    v: &Value,
    low: SliceBound,
    high: SliceBound,
    at: &Pinned<Location>,
) -> (r: Option<LabelBacktrace>)
    ensures
        trace_of(r) == sliced(v@, low, high, at@),
{
    match (low, high) {
        (SliceBound::Unknown, _) | (_, SliceBound::Unknown) => {
            return v.backtrace();
        },
        _ => {},
    }
    proof {
        v.lemma_parts();
    }
    let ghost own = listed(v@.own);
    let mut flows: Vec<LabelBacktrace> = Vec::new();
    if let Some(b) = &v.own {
        flows.push(b.clone());
    }
    let n: usize = v.parts.len();
    let mut i: usize = 0;
    proof {
        assert(traces_of(flows@) =~= own + Seq::<Trace>::empty());
    }
    while i < n
        invariant
            i <= n,
            n == v.parts@.len(),
            v@.parts == values_of(v.parts@),
            traces_of(flows@) == own + carried_in_slice(v@, low, high, i as int),
        decreases n - i,
    {
        let ghost before = flows@;
        proof {
            assert(v@.parts[i as int] == v.parts@[i as int]@);
        }
        if belongs_to_slice(&v.parts[i].key, low, high) {
            let flow = v.parts[i].backtrace();
            let ghost t = trace_of(flow);
            if let Some(b) = flow {
                flows.push(b);
            }
            proof {
                assert(traces_of(flows@) =~= traces_of(before) + listed(t));
                assert(own + (carried_in_slice(v@, low, high, i as int) + listed(t)) =~= (own
                    + carried_in_slice(v@, low, high, i as int)) + listed(t));
            }
        }
        i = i + 1;
    }
    LabelBacktrace::fold(
        &crate::labels::backtraces::refs_to(&flows),
        LabelBacktraceKind::Expression,
        None,
        at.duplicate(),
    )
}

impl FormModel {
    /// Whether slices of values of this form can be taken.
    pub open spec fn is_sliceable(self) -> bool {
        self is Simple || self is Array || self is Slice
    }
}

/// A slice of a value. It also carries what its bounds do, and keeps the type
/// if that is one of slices.
pub open spec fn slice_value(
    base: ValueModel,
    low: SliceBound,
    high: SliceBound,
    bounds: Seq<Option<Trace>>,
    has_max: bool,
    at: PinnedModel<Location>,
) -> ValueModel {
    let inner = if !base.form.is_sliceable() {
        None
    } else if !has_max && base.form is Simple {
        carried(base)
    } else {
        sliced(base, low, high, at)
    };
    ValueModel {
        declared_type: match base.declared_type {
            Some(t) => if t.kind is Slice {
                Some(t)
            } else {
                None
            },
            None => None,
        },
        ..ValueModel::simple(
            folded(
                listed(inner) + carrying(bounds),
                LabelBacktraceKind::Expression,
                None,
                at,
            ),
            at,
        )
    }
}

/// Visits the taking of a slice of a value. One of which none can be taken is
/// reported. `bound_backtraces` holds what the bounds carry.
pub fn visit_slicing_with_base(
    log: &mut ErrorLog,
    base: &Value,
    low: SliceBound,
    high: SliceBound,
    has_max: bool,
    bound_backtraces: &Vec<Option<LabelBacktrace>>,
    location: Location,
) -> (r: Value)
    requires
        old(log)@.file is Some,
    ensures
        r@ == slice_value(
            base@,
            low,
            high,
            flows_of(bound_backtraces@),
            has_max,
            PinnedModel { file: old(log)@.file->0, inner: location },
        ),
        final(log)@ == if base@.form.is_sliceable() {
            old(log)@
        } else {
            old(log)@.with_error(ErrorModel::InvalidSlicingBase { location })
        },
{
    let at = log.pin(location);
    let inner = match &base.form {
        ValueForm::Simple => {
            if has_max {
                slice_backtrace(base, low, high, &at)
            } else {
                base.backtrace()
            }
        },
        ValueForm::Array | ValueForm::Slice => slice_backtrace(base, low, high, &at),
        _ => {
            log.report_error(AnalysisErrorKind::InvalidSlicingBase { location });
            None
        },
    };
    let ghost t = trace_of(inner);
    let bounds = carrying_refs(bound_backtraces, 0);
    let mut children: Vec<&LabelBacktrace> = Vec::new();
    if let Some(b) = &inner {
        children.push(b);
    }
    let n: usize = bounds.len();
    let mut i: usize = 0;
    let ghost bs = traces_of_refs(bounds@);
    proof {
        assert(flows_of(bound_backtraces@).skip(0) =~= flows_of(bound_backtraces@));
        assert(traces_of_refs(children@) =~= listed(t) + bs.take(0));
    }
    while i < n
        invariant
            i <= n,
            n == bounds@.len(),
            bs == traces_of_refs(bounds@),
            traces_of_refs(children@) == listed(t) + bs.take(i as int),
        decreases n - i,
    {
        let ghost before = traces_of_refs(children@);
        children.push(bounds[i]);
        proof {
            assert(traces_of_refs(children@) =~= before.push(bs[i as int]));
            assert(bs.take(i + 1) =~= bs.take(i as int).push(bs[i as int]));
        }
        i = i + 1;
    }
    proof {
        assert(bs.take(n as int) =~= bs);
    }
    let all = LabelBacktrace::fold(
        &children,
        LabelBacktraceKind::Expression,
        None,
        at.duplicate(),
    );
    let mut r = Value::from_backtrace_or_bottom_at(all, &at);
    let declared_type = match &base.declared_type {
        Some(ty) => match ty.kind {
            TypeKind::Slice => Some(ty.clone()),
            _ => None,
        },
        None => None,
    };
    r.set_declared_type(declared_type);
    r
}

/// The value of an expression that may be an access to an element, or a function
/// with the types that it is used with: it is the latter if what stands in the
/// brackets is known to be a type, or a function stands before them.
pub open spec fn bracketed(
    base: ValueModel,
    is_type_known: bool,
    index: Option<Seq<char>>,
    at: PinnedModel<Location>,
) -> ValueModel {
    if is_type_known || base.form is Function {
        ValueModel { location: at, ..base }
    } else if base.form.is_indexable() {
        indexed(base, index, at)
    } else {
        ValueModel::simple(None, at)
    }
}

/// Evaluates an expression that may be an access to an element, or a function
/// with the types that it is used with.
pub fn visit_ambiguous_bracket_access(
    log: &mut ErrorLog,
    base: Value,
    is_type_known: bool,
    index: &Option<SimpleConstValue>,
    location: Location,
) -> (r: Value)
    requires
        old(log)@.file is Some,
    ensures
        r@ == bracketed(
            base@,
            is_type_known,
            crate::symbols::const_of(*index),
            PinnedModel { file: old(log)@.file->0, inner: location },
        ),
        final(log)@ == if is_type_known || base@.form is Function || base@.form.is_indexable() {
            old(log)@
        } else {
            old(log)@.with_error(ErrorModel::InvalidIndexingBase { location })
        },
{
    let is_function = match &base.form {
        ValueForm::Function(_) => true,
        _ => false,
    };
    if is_type_known || is_function {
        let mut r = base;
        r.set_location(log.pin(location));
        return r;
    }
    visit_indexing_with(log, &base, index, location)
}

} // verus!
