//! Copies of what is known of functions, with what the policy adds to them.

use vstd::prelude::*;

use crate::context::branches::copy_trace;
use crate::context::deferred_checks::{checks_alike, checks_of, checks_wf, DeferredEnforcementCheck};
use crate::labels::backtraces::{trace_of, LabelBacktrace, Trace};
use crate::locations::{Location, Pinned, PinnedModel, Span};
use crate::ordered::{same, Ordered};
use crate::policy::blanket_directives::{directives_of, BlanketDirective, BlanketDirectiveKind,
    DirectiveModel};
use crate::snapshots::SnapshotAware;
use crate::symbols::table::{SymbolTable, TableModel};
use crate::taint::funcs::captures::{captures_of, CaptureBinding, CaptureModel};
use crate::taint::funcs::{params_of, FunctionSummary, ParamDecl, Signature, SummaryModel};
use crate::values::{copy_type, type_of, types_of, values_alike, values_of, FormModel, TypeInfo,
    Value, ValueForm, ValueModel};

verus! {

fn copy_spans(spans: &Vec<Span>) -> (r: Vec<Span>)
    ensures
        r@.map_values(|s: Span| s@) == spans@.map_values(|s: Span| s@),
{
    let mut r: Vec<Span> = Vec::new();
    let n: usize = spans.len();
    let mut i: usize = 0;
    while i < n
        invariant
            i <= n,
            n == spans@.len(),
            r@.len() == i,
            forall|k: int| 0 <= k < i ==> (#[trigger] r@[k])@ == spans@[k]@,
        decreases n - i,
    {
        r.push(spans[i].clone());
        i = i + 1;
    }
    proof {
        assert(r@.map_values(|s: Span| s@) =~= spans@.map_values(|s: Span| s@));
    }
    r
}

pub fn copy_signature(signature: &Signature) -> (r: Signature)
    ensures
        r@ == signature@,
{
    let mut params: Vec<ParamDecl> = Vec::new();
    let n: usize = signature.params.len();
    let mut i: usize = 0;
    while i < n
        invariant
            i <= n,
            n == signature.params@.len(),
            params@.len() == i,
            forall|k: int| 0 <= k < i ==> (#[trigger] params@[k])@ == signature.params@[k]@,
        decreases n - i,
    {
        let p = &signature.params[i];
        params.push(
            ParamDecl {
                ids: copy_spans(&p.ids),
                variadic: p.variadic,
                is_function: p.is_function,
            },
        );
        i = i + 1;
    }
    proof {
        assert(params_of(params@) =~= params_of(signature.params@));
    }
    Signature { params, result_count: signature.result_count }
}

pub fn copy_directives(directives: &Vec<BlanketDirective>) -> (r: Vec<BlanketDirective>)
    ensures
        directives_of(r@) == directives_of(directives@),
{
    let mut r: Vec<BlanketDirective> = Vec::new();
    let n: usize = directives.len();
    let mut i: usize = 0;
    while i < n
        invariant
            i <= n,
            n == directives@.len(),
            r@.len() == i,
            forall|k: int| 0 <= k < i ==> (#[trigger] r@[k])@ == directives@[k]@,
        decreases n - i,
    {
        r.push(directives[i].duplicate());
        i = i + 1;
    }
    proof {
        assert(directives_of(r@) =~= directives_of(directives@));
    }
    r
}

fn copy_checks(checks: &Vec<DeferredEnforcementCheck>) -> (r: Vec<DeferredEnforcementCheck>)
    ensures
        checks_of(r@) == checks_of(checks@),
        checks_wf(checks@) ==> checks_wf(r@),
{
    let mut r: Vec<DeferredEnforcementCheck> = Vec::new();
    let n: usize = checks.len();
    let mut i: usize = 0;
    while i < n
        invariant
            i <= n,
            n == checks@.len(),
            r@.len() == i,
            forall|k: int|
                0 <= k < i ==> (#[trigger] r@[k])@ == checks@[k]@ && (checks@[k].wf() ==> r@[k].wf()),
        decreases n - i,
    {
        r.push(checks[i].clone());
        i = i + 1;
    }
    proof {
        assert(checks_of(r@) =~= checks_of(checks@));
    }
    r
}

fn copy_values(values: &Vec<Value>) -> (r: Vec<Value>)
    ensures
        values_of(r@) == values_of(values@),
{
    let mut r: Vec<Value> = Vec::new();
    let n: usize = values.len();
    let mut i: usize = 0;
    while i < n
        invariant
            i <= n,
            n == values@.len(),
            r@.len() == i,
            forall|k: int| 0 <= k < i ==> (#[trigger] r@[k])@ == values@[k]@,
        decreases n - i,
    {
        r.push(values[i].clone());
        i = i + 1;
    }
    proof {
        assert(values_of(r@) =~= values_of(values@));
    }
    r
}

pub fn copy_types(types: &Vec<Option<TypeInfo>>) -> (r: Vec<Option<TypeInfo>>)
    ensures
        types_of(r@) == types_of(types@),
{
    let mut r: Vec<Option<TypeInfo>> = Vec::new();
    let n: usize = types.len();
    let mut i: usize = 0;
    while i < n
        invariant
            i <= n,
            n == types@.len(),
            r@.len() == i,
            forall|k: int|
                0 <= k < i ==> type_of(#[trigger] r@[k]) == type_of(
                    types@[k],
                ),
        decreases n - i,
    {
        r.push(copy_type(&types[i]));
        i = i + 1;
    }
    proof {
        assert(types_of(r@) =~= types_of(types@));
    }
    r
}

fn copy_captures(captures: &Vec<CaptureBinding>) -> (r: Vec<CaptureBinding>)
    ensures
        captures_of(r@) == captures_of(captures@),
{
    let mut r: Vec<CaptureBinding> = Vec::new();
    let n: usize = captures.len();
    let mut i: usize = 0;
    while i < n
        invariant
            i <= n,
            n == captures@.len(),
            r@.len() == i,
            forall|k: int| 0 <= k < i ==> (#[trigger] r@[k])@ == captures@[k]@,
        decreases n - i,
    {
        let c = &captures[i];
        r.push(
            CaptureBinding {
                declaration: c.declaration.duplicate(),
                index: c.index,
                local_symbol: c.local_symbol,
                iteration_cell: c.iteration_cell,
                hybrid_fallback: match &c.hybrid_fallback {
                    Some(b) => Some(copy_trace(b)),
                    None => None,
                },
                mutation_backtrace: copy_trace(&c.mutation_backtrace),
            },
        );
        i = i + 1;
    }
    proof {
        assert(captures_of(r@) =~= captures_of(captures@));
    }
    r
}

impl FunctionSummary {
    /// A copy.
    pub fn duplicate(&self) -> (r: Self)
        ensures
            r@ == self@,
            self.wf() ==> r.wf(),
    {
        let r = FunctionSummary {
            func: self.func.duplicate(),
            own: copy_trace(&self.own),
            signature: match &self.signature {
                Some(s) => Some(copy_signature(s)),
                None => None,
            },
            has_receiver: self.has_receiver,
            is_type_constructor: self.is_type_constructor,
            directives: copy_directives(&self.directives),
            deferred_checks: copy_checks(&self.deferred_checks),
            outcome: match &self.outcome {
                Some(values) => Some(copy_values(values)),
                None => None,
            },
            call_count: self.call_count,
            declared_result_types: copy_types(&self.declared_result_types),
            captures: copy_captures(&self.captures),
            yielding: match &self.yielding {
                Some(y) => Some(y.duplicate()),
                None => None,
            },
        };
        proof {
            assert(r@ =~= self@);
        }
        r
    }
}

/// The value of a function, which carries what an access to it does.
pub open spec fn function_value(
    function: usize,
    own: Option<Trace>,
    at: PinnedModel<Location>,
) -> ValueModel {
    ValueModel { form: FormModel::Function(function), own, ..ValueModel::simple(None, at) }
}

/// The value of a function, which carries what an access to it does.
pub fn make_function_value(
    function: usize,
    own: Option<LabelBacktrace>,
    at: &Pinned<Location>,
) -> (r: Value)
    ensures
        r@ == function_value(function, trace_of(own), at@),
{
    let ghost t = trace_of(own);
    let r = Value::new(ValueForm::Function(function), own, at.duplicate(), None, Vec::new());
    proof {
        assert(r@.parts =~= Seq::<ValueModel>::empty());
        assert(r@ =~= function_value(function, t, at@));
    }
    r
}

/// Whether two optional backtraces differ in nothing but how they came about.
pub open spec fn traces_alike(a: Option<Trace>, b: Option<Trace>) -> bool {
    a is Some == b is Some && (a is Some ==> a->0.label == b->0.label)
}

/// Whether two captures differ in nothing but how their backtraces came about,
/// and in where the symbols stand that they use.
pub open spec fn captures_alike(a: CaptureModel, b: CaptureModel) -> bool {
    &&& a.declaration == b.declaration
    &&& a.index == b.index
    &&& a.hybrid_fallback is Some == b.hybrid_fallback is Some
    &&& a.hybrid_fallback is Some ==> traces_alike(a.hybrid_fallback->0, b.hybrid_fallback->0)
    &&& traces_alike(a.mutation, b.mutation)
}

/// Whether what is known of two functions differs in nothing that matters:
/// which functions they are, what they carry, return and capture, and what is
/// checked at their calls.
pub open spec fn summaries_alike(a: SummaryModel, b: SummaryModel) -> bool {
    &&& a.func == b.func
    &&& traces_alike(a.own, b.own)
    &&& a.outcome is Some == b.outcome is Some
    &&& a.outcome is Some ==> a.outcome->0.len() == b.outcome->0.len() && forall|i: int|
        0 <= i < a.outcome->0.len() ==> values_alike(#[trigger] a.outcome->0[i], b.outcome->0[i])
    &&& a.deferred_checks.len() == b.deferred_checks.len()
    &&& forall|i: int|
        0 <= i < a.deferred_checks.len() ==> checks_alike(
            #[trigger] a.deferred_checks[i],
            b.deferred_checks[i],
        )
    &&& a.captures.len() == b.captures.len()
    &&& forall|i: int|
        0 <= i < a.captures.len() ==> captures_alike(#[trigger] a.captures[i], b.captures[i])
}

impl SnapshotAware for CaptureBinding {
    open spec fn alike(&self, other: &Self) -> bool {
        captures_alike(self@, other@)
    }

    proof fn alike_reflexive(a: &Self) {
    }

    proof fn alike_symmetric(a: &Self, b: &Self) {
    }

    proof fn alike_transitive(a: &Self, b: &Self, c: &Self) {
    }

    fn snapshot_aware_eq(&self, other: &Self) -> (r: bool) {
        same(&self.declaration, &other.declaration) && self.index == other.index
            && self.hybrid_fallback.snapshot_aware_eq(&other.hybrid_fallback)
            && self.mutation_backtrace.snapshot_aware_eq(&other.mutation_backtrace)
    }
}

/// What is known of two functions is alike if and only if their parts are.
proof fn lemma_alike_by_parts(a: &FunctionSummary, b: &FunctionSummary)
    ensures
        summaries_alike(a@, b@) == (a.func@ == b.func@ && a.own.alike(&b.own) && a.outcome.alike(
            &b.outcome,
        ) && a.deferred_checks.alike(&b.deferred_checks) && a.captures.alike(&b.captures)),
{
    assert(a.own.alike(&b.own) == traces_alike(a@.own, b@.own));
    if a.outcome is Some && b.outcome is Some {
        let x = a.outcome->0;
        let y = b.outcome->0;
        assert(a@.outcome->0.len() == x@.len() && b@.outcome->0.len() == y@.len());
        if x.alike(&y) {
            assert forall|i: int| 0 <= i < x@.len() implies values_alike(
                #[trigger] a@.outcome->0[i],
                b@.outcome->0[i],
            ) by {
                assert(x@[i].alike(&y@[i]));
            }
        }
        if summaries_alike(a@, b@) {
            assert forall|i: int| 0 <= i < x@.len() implies (#[trigger] x@[i]).alike(&y@[i]) by {
                assert(values_alike(a@.outcome->0[i], b@.outcome->0[i]));
            }
        }
    }
    let x = a.deferred_checks;
    let y = b.deferred_checks;
    if x.alike(&y) {
        assert forall|i: int| 0 <= i < x@.len() implies checks_alike(
            #[trigger] a@.deferred_checks[i],
            b@.deferred_checks[i],
        ) by {
            assert(x@[i].alike(&y@[i]));
        }
    }
    if summaries_alike(a@, b@) {
        assert forall|i: int| 0 <= i < x@.len() implies (#[trigger] x@[i]).alike(&y@[i]) by {
            assert(checks_alike(a@.deferred_checks[i], b@.deferred_checks[i]));
        }
    }
    let x = a.captures;
    let y = b.captures;
    if x.alike(&y) {
        assert forall|i: int| 0 <= i < x@.len() implies captures_alike(
            #[trigger] a@.captures[i],
            b@.captures[i],
        ) by {
            assert(x@[i].alike(&y@[i]));
        }
    }
    if summaries_alike(a@, b@) {
        assert forall|i: int| 0 <= i < x@.len() implies (#[trigger] x@[i]).alike(&y@[i]) by {
            assert(captures_alike(a@.captures[i], b@.captures[i]));
        }
    }
}

impl SnapshotAware for FunctionSummary {
    open spec fn alike(&self, other: &Self) -> bool {
        summaries_alike(self@, other@)
    }

    proof fn alike_reflexive(a: &Self) {
        Option::<Vec<Value>>::alike_reflexive(&a.outcome);
        Vec::<DeferredEnforcementCheck>::alike_reflexive(&a.deferred_checks);
        Vec::<CaptureBinding>::alike_reflexive(&a.captures);
        Option::<LabelBacktrace>::alike_reflexive(&a.own);
        lemma_alike_by_parts(a, a);
    }

    proof fn alike_symmetric(a: &Self, b: &Self) {
        lemma_alike_by_parts(a, b);
        Option::<Vec<Value>>::alike_symmetric(&a.outcome, &b.outcome);
        Vec::<DeferredEnforcementCheck>::alike_symmetric(&a.deferred_checks, &b.deferred_checks);
        Vec::<CaptureBinding>::alike_symmetric(&a.captures, &b.captures);
        Option::<LabelBacktrace>::alike_symmetric(&a.own, &b.own);
        lemma_alike_by_parts(b, a);
    }

    proof fn alike_transitive(a: &Self, b: &Self, c: &Self) {
        lemma_alike_by_parts(a, b);
        lemma_alike_by_parts(b, c);
        Option::<Vec<Value>>::alike_transitive(&a.outcome, &b.outcome, &c.outcome);
        Vec::<DeferredEnforcementCheck>::alike_transitive(
            &a.deferred_checks,
            &b.deferred_checks,
            &c.deferred_checks,
        );
        Vec::<CaptureBinding>::alike_transitive(&a.captures, &b.captures, &c.captures);
        Option::<LabelBacktrace>::alike_transitive(&a.own, &b.own, &c.own);
        lemma_alike_by_parts(a, c);
    }

    fn snapshot_aware_eq(&self, other: &Self) -> (r: bool) {
        proof {
            lemma_alike_by_parts(self, other);
        }
        same(&self.func, &other.func) && self.own.snapshot_aware_eq(&other.own)
            && self.outcome.snapshot_aware_eq(&other.outcome)
            && self.deferred_checks.snapshot_aware_eq(&other.deferred_checks)
            && self.captures.snapshot_aware_eq(&other.captures)
    }
}

/// Whether directives have one among them.
pub open spec fn has_directive(directives: Seq<DirectiveModel>, d: DirectiveModel) -> bool {
    exists|i: int| 0 <= i < directives.len() && #[trigger] directives[i] == d
}

/// Directives along with the first of some others, each of them once. Only
/// those that make sinks may be wanted.
pub open spec fn absorbed(
    directives: Seq<DirectiveModel>,
    more: Seq<DirectiveModel>,
    only_sinks: bool,
    n: int,
) -> Seq<DirectiveModel>
    decreases n,
{
    if n <= 0 {
        directives
    } else {
        let before = absorbed(directives, more, only_sinks, n - 1);
        let d = more[n - 1];
        if has_directive(before, d) || only_sinks && !d.kind.is_sink() {
            before
        } else {
            before.push(d)
        }
    }
}

impl SummaryModel {
    /// The function with what the policy says of it.
    pub open spec fn absorbing(self, more: Seq<DirectiveModel>) -> SummaryModel {
        SummaryModel {
            directives: absorbed(self.directives, more, false, more.len() as int),
            ..self
        }
    }

    /// The function with the sinks that the policy makes of it.
    pub open spec fn absorbing_sinks(self, more: Seq<DirectiveModel>) -> SummaryModel {
        SummaryModel {
            directives: absorbed(self.directives, more, true, more.len() as int),
            ..self
        }
    }
}

fn contains_directive(directives: &Vec<BlanketDirective>, d: &BlanketDirective) -> (r: bool)
    ensures
        r == has_directive(directives_of(directives@), d@),
{
    let n: usize = directives.len();
    let mut i: usize = 0;
    while i < n
        invariant
            i <= n,
            n == directives@.len(),
            forall|k: int| 0 <= k < i ==> (#[trigger] directives_of(directives@)[k]) != d@,
        decreases n - i,
    {
        if directives[i].same_as(d) {
            proof {
                assert(directives_of(directives@)[i as int] == d@);
            }
            return true;
        }
        i = i + 1;
    }
    false
}

impl FunctionSummary {
    fn absorb(&mut self, more: &Vec<BlanketDirective>, only_sinks: bool)
        ensures
            old(self).wf() ==> final(self).wf(),
            final(self)@ == (SummaryModel {
                directives: absorbed(
                    old(self)@.directives,
                    directives_of(more@),
                    only_sinks,
                    more@.len() as int,
                ),
                ..old(self)@
            }),
    {
        let ghost start = self@;
        let ghost ds = directives_of(more@);
        let mut directives: Vec<BlanketDirective> = Vec::new();
        std::mem::swap(&mut directives, &mut self.directives);
        let n: usize = more.len();
        let mut i: usize = 0;
        while i < n
            invariant
                i <= n,
                n == more@.len(),
                ds == directives_of(more@),
                directives_of(directives@) == absorbed(start.directives, ds, only_sinks, i as int),
            decreases n - i,
        {
            let is_sink = match more[i].kind() {
                BlanketDirectiveKind::AllowSink | BlanketDirectiveKind::DenySink => true,
                _ => false,
            };
            if (is_sink || !only_sinks) && !contains_directive(&directives, &more[i]) {
                let ghost before = directives_of(directives@);
                directives.push(more[i].duplicate());
                proof {
                    assert(directives_of(directives@) =~= before.push(ds[i as int]));
                }
            }
            i = i + 1;
        }
        self.directives = directives;
        proof {
            assert(self@ =~= SummaryModel {
                directives: absorbed(start.directives, ds, only_sinks, n as int),
                ..start
            });
        }
    }

    /// Adds what the policy says of the function, each directive once.
    pub fn absorb_blanket_directives(&mut self, directives: &Vec<BlanketDirective>)
        ensures
            old(self).wf() ==> final(self).wf(),
            final(self)@ == old(self)@.absorbing(directives_of(directives@)),
    {
        self.absorb(directives, false);
    }

    /// Adds the sinks that the policy makes of the function, each directive
    /// once.
    pub fn absorb_blanket_sinks(&mut self, directives: &Vec<BlanketDirective>)
        ensures
            old(self).wf() ==> final(self).wf(),
            final(self)@ == old(self)@.absorbing_sinks(directives_of(directives@)),
    {
        self.absorb(directives, true);
    }
}

/// What the policy says of a function is not lost, and to say it again changes
/// nothing.
pub proof fn law_absorbing_directives(f: SummaryModel, more: Seq<DirectiveModel>)
    ensures
        f.absorbing(more).absorbing(more) == f.absorbing(more),
        forall|d: DirectiveModel| #[trigger]
            has_directive(f.absorbing(more).directives, d) == (has_directive(f.directives, d)
                || has_directive(more, d)),
{
    let n = more.len() as int;
    lemma_absorbed(f.directives, more, n);
    let once = absorbed(f.directives, more, false, n);
    assert forall|i: int| 0 <= i < n implies has_directive(once, #[trigger] more[i]) by {
        assert(has_directive(more.take(n), more[i])) by {
            assert(more.take(n)[i] == more[i]);
        }
    }
    lemma_nothing_new(once, more, n);
    assert(more.take(n) =~= more);
}

proof fn lemma_absorbed(directives: Seq<DirectiveModel>, more: Seq<DirectiveModel>, n: int)
    requires
        0 <= n <= more.len(),
    ensures
        forall|d: DirectiveModel| #[trigger]
            has_directive(absorbed(directives, more, false, n), d) == (has_directive(directives, d)
                || has_directive(more.take(n), d)),
    decreases n,
{
    if n > 0 {
        lemma_absorbed(directives, more, n - 1);
        let before = absorbed(directives, more, false, n - 1);
        let after = absorbed(directives, more, false, n);
        let last = more[n - 1];
        assert forall|d: DirectiveModel| #[trigger] has_directive(after, d) == (has_directive(
            directives,
            d,
        ) || has_directive(more.take(n), d)) by {
            if has_directive(more.take(n - 1), d) {
                let i = choose|i: int| 0 <= i < n - 1 && #[trigger] more.take(n - 1)[i] == d;
                assert(more.take(n)[i] == d);
            }
            if has_directive(more.take(n), d) {
                let i = choose|i: int| 0 <= i < n && #[trigger] more.take(n)[i] == d;
                if i < n - 1 {
                    assert(more.take(n - 1)[i] == d);
                } else {
                    assert(d == last);
                    if !has_directive(before, last) {
                        assert(after[before.len() as int] == last);
                    }
                }
            }
            if has_directive(before, d) {
                let i = choose|i: int| 0 <= i < before.len() && #[trigger] before[i] == d;
                assert(after[i] == d);
            }
            if has_directive(after, d) {
                let i = choose|i: int| 0 <= i < after.len() && #[trigger] after[i] == d;
                if i < before.len() {
                    assert(before[i] == d);
                } else {
                    assert(more.take(n)[n - 1] == d);
                }
            }
        }
    } else {
        assert forall|d: DirectiveModel| #[trigger] has_directive(
            absorbed(directives, more, false, n),
            d,
        ) == (has_directive(directives, d) || has_directive(more.take(n), d)) by {
            assert(more.take(n).len() == 0);
        }
    }
}

proof fn lemma_nothing_new(directives: Seq<DirectiveModel>, more: Seq<DirectiveModel>, n: int)
    requires
        0 <= n <= more.len(),
        forall|i: int| 0 <= i < more.len() ==> has_directive(directives, #[trigger] more[i]),
    ensures
        absorbed(directives, more, false, n) == directives,
    decreases n,
{
    if n > 0 {
        lemma_nothing_new(directives, more, n - 1);
        assert(has_directive(directives, more[n - 1]));
    }
}

impl TableModel {
    /// The function that a value is, if it is one, which carries what the value
    /// does.
    pub open spec fn callee(self, v: ValueModel) -> Option<SummaryModel> {
        match v.form {
            FormModel::Function(f) => if f < self.functions.len() {
                Some(SummaryModel { own: v.own, ..self.functions[f as int] })
            } else {
                None
            },
            _ => None,
        }
    }
}

impl SymbolTable {
    /// The function that a value is, if it is one, which carries what the value
    /// does.
    pub fn callee(&self, value: &Value) -> (r: Option<FunctionSummary>)
        ensures
            match self@.callee(value@) {
                Some(f) => r is Some && r->0@ == f,
                None => r is None,
            },
    {
        match &value.form {
            ValueForm::Function(f) => {
                if *f < self.function_count() {
                    let mut r = self.function(*f).duplicate();
                    r.own = copy_trace(&value.own);
                    Some(r)
                } else {
                    None
                }
            },
            _ => None,
        }
    }
}

} // verus!
