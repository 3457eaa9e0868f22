//! Statements whose operands have been evaluated.

use vstd::prelude::*;

use crate::ast::Annotation;
use crate::context::ContextModel;
use crate::errors::ErrorModel;
use crate::labels::backtraces::{trace_of, LabelBacktrace, LabelBacktraceKind};
use crate::locations::{Location, PinnedModel, Span, SpanModel};
use crate::ordered::{same_text, Ordered};
use crate::policy::targets::SimpleConstValue;
use crate::policy::SinkKind;
use crate::symbols::const_of;
use crate::symbols::table::TableModel;
use crate::taint::annotations::AnnotationSite;
use crate::taint::channels::{send_through_channel_with, sent_value};
use crate::taint::explicit::{all_assigned, annotated, can_judge_all, expand_rhs_values,
    expanded_values, explicit_of, flows_of_values, known_of, lefts_of, spans_of, subtract_of, typed,
    visit_assignment_with, visit_binding_decl_spec, visit_short_var_decl_with, zero_declared,
    BindingState, KnownModel};
use crate::taint::funcs::call_checks::{are_judgeable, can_judge, flows_of};
use crate::taint::funcs::outcomes::{all_returned, handed_on, outcome_after, return_visited,
    visit_return};
use crate::taint::funcs::SummaryModel;
use crate::taint::implicit::{Place, PlaceModel};
use crate::taint::mutation::{LeftModel, LeftValue};
use crate::taint::statements::{evaluation_checked, visit_evaluation};
use crate::taint::visits::calls::values_carry;
use crate::values::{carried, carried_by_parts, type_of, values_of, FormModel, TypeInfo, TypeModel, Value, ValueModel};

verus! {

/// Whether left values are ones of a table.
pub open spec fn lefts_fit(t: TableModel, lefts: Seq<LeftModel>) -> bool {
    forall|i: int| 0 <= i < lefts.len() ==> (#[trigger] lefts[i]).symbol < t.symbols.len()
}

impl PlaceModel {
    /// The place once what an expression statement comes to is checked.
    #[verifier::opaque]
    pub open spec fn evaluation_done(
        self,
        values: Seq<ValueModel>,
        annotation: Option<&Annotation>,
        location: Location,
    ) -> PlaceModel {
        let flows = values.map_values(|v: ValueModel| carried(v));
        if can_judge(self.ctx, flows) {
            PlaceModel {
                ctx: evaluation_checked(self.ctx, flows, annotation, location),
                ..self
            }
        } else {
            self.stopped()
        }
    }

    /// The place once values are assigned.
    #[verifier::opaque]
    pub open spec fn assignment_done(
        self,
        simple: bool,
        lefts: Seq<LeftModel>,
        rhs: Seq<KnownModel>,
        annotation: Option<&Annotation>,
        location: Location,
    ) -> PlaceModel {
        let all = expanded_values(rhs, lefts.len());
        if !lefts_fit(self.table, lefts) || !can_judge(self.ctx, flows_of_values(all)) {
            self.stopped()
        } else if !simple && lefts.len() != 1 {
            self.reporting(
                ErrorModel::MultiComplexAssignment { location, num: lefts.len() as usize },
            )
        } else {
            let read = annotated(
                self.ctx,
                annotation,
                AnnotationSite::Assignment,
                SinkKind::Assignment,
                flows_of_values(all),
                location,
            );
            if lefts.len() != all.len() {
                PlaceModel {
                    ctx: ContextModel {
                        log: read.log.with_error(
                            ErrorModel::UnevenAssignment {
                                location,
                                left: lefts.len() as usize,
                                right: all.len() as usize,
                            },
                        ),
                        ..read
                    },
                    ..self
                }
            } else {
                let (ctx, table) = all_assigned(
                    read,
                    self.table,
                    lefts,
                    LabelBacktraceKind::Assignment,
                    all,
                    simple,
                    explicit_of(
                        annotation,
                        AnnotationSite::Assignment,
                        None,
                        self.at(location),
                    ),
                    subtract_of(annotation, AnnotationSite::Assignment),
                    location,
                    self.regions,
                    lefts.len() as int,
                );
                PlaceModel { ctx, table, ..self }
            }
        }
    }

    /// The place once names have values.
    pub open spec fn names_bound(
        self,
        ids: Seq<SpanModel>,
        rhs: Seq<KnownModel>,
        mutable: bool,
        short: bool,
        annotation: Option<&Annotation>,
        declared_type: Option<TypeModel>,
        location: Location,
    ) -> PlaceModel {
        if ids.len() != rhs.len() {
            self.reporting(
                ErrorModel::UnevenBindingDeclSpec {
                    location,
                    left: ids.len() as usize,
                    right: rhs.len() as usize,
                },
            )
        } else {
            let st = (BindingState {
                ctx: self.ctx,
                table: self.table,
                redeclared: Seq::<ErrorModel>::empty(),
                any_new: false,
            }).binding_all(
                ids,
                rhs,
                mutable,
                short,
                location,
                annotation,
                declared_type,
                self.regions,
                ids.len() as int,
            );
            PlaceModel { ctx: st.concluded(), table: st.table, ..self }
        }
    }

    /// The place once a short declaration is made.
    #[verifier::opaque]
    pub open spec fn short_done(
        self,
        ids: Seq<SpanModel>,
        rhs: Seq<KnownModel>,
        annotation: Option<&Annotation>,
        location: Location,
    ) -> PlaceModel {
        let all = expanded_values(rhs, ids.len());
        if !can_judge_all(self.ctx, all) {
            self.stopped()
        } else {
            self.names_bound(ids, all, true, true, annotation, None, location)
        }
    }

    /// The place once constants or variables are declared.
    #[verifier::opaque]
    pub open spec fn binding_done(
        self,
        ids: Seq<SpanModel>,
        rhs: Seq<KnownModel>,
        has_exprs: bool,
        mutable: bool,
        annotation: Option<&Annotation>,
        has_type: bool,
        declared_type: Option<TypeModel>,
        zero: Option<Seq<char>>,
        location: Location,
    ) -> PlaceModel {
        let all = typed(expanded_values(rhs, ids.len()), declared_type);
        if !can_judge_all(self.ctx, all) {
            self.stopped()
        } else if !has_exprs && has_type {
            let (ctx, table) = zero_declared(
                self.ctx,
                self.table,
                ids,
                mutable,
                declared_type,
                zero,
                ids.len() as int,
            );
            PlaceModel { ctx, table, ..self }
        } else {
            self.names_bound(ids, all, mutable, false, annotation, declared_type, location)
        }
    }

    /// The place once the first names of a short declaration are hidden which an
    /// earlier visit left behind.
    pub open spec fn names_hidden(self, ids: Seq<SpanModel>, n: int) -> PlaceModel
        decreases n,
    {
        if n <= 0 {
            self
        } else {
            let before = self.names_hidden(ids, n - 1);
            let id = ids[n - 1];
            if id.content == "_"@ {
                before
            } else {
                PlaceModel {
                    table: before.table.hiding(
                        PinnedModel { file: self.ctx.log.file->0, inner: id },
                    ),
                    ..before
                }
            }
        }
    }

    /// The place behind a return statement.
    #[verifier::opaque]
    pub open spec fn return_done(
        self,
        values: Seq<ValueModel>,
        hands_on: bool,
        location: Location,
    ) -> PlaceModel {
        if self.active.len() == 0 {
            self.reporting(ErrorModel::UnexpectedReturn { location })
        } else if self.active[0] >= self.table.functions.len() {
            self.stopped()
        } else {
            let f = self.active[0] as int;
            let func = self.table.functions[f];
            let at = self.at(location);
            let new = if hands_on {
                handed_on(
                    values,
                    match func.signature {
                        Some(s) => Some(s.result_count),
                        None => None,
                    },
                )
            } else {
                all_returned(values, self.ctx.branches.current(), at)
            };
            PlaceModel {
                ctx: return_visited(self.ctx, func.outcome, new, location),
                table: TableModel {
                    functions: self.table.functions.update(
                        f,
                        SummaryModel {
                            outcome: Some(outcome_after(func.outcome, new, at)),
                            ..func
                        },
                    ),
                    ..self.table
                },
                ..self
            }
        }
    }

    /// The place once a value is sent to a channel, and the channel after that.
    #[verifier::opaque]
    pub open spec fn send_done(
        self,
        channel: ValueModel,
        payload: ValueModel,
        annotation: Option<&Annotation>,
        location: Location,
    ) -> (PlaceModel, ValueModel) {
        if !can_judge(self.ctx, seq![carried(payload)]) {
            (self.stopped(), channel)
        } else {
            let at = self.at(location);
            (
                PlaceModel {
                    ctx: annotated(
                        self.ctx,
                        annotation,
                        AnnotationSite::Send,
                        SinkKind::Send,
                        seq![carried(payload)],
                        location,
                    ),
                    ..self
                },
                if channel.form.can_become(FormModel::Channel) {
                    channel.sent_to(
                        carried(sent_value(payload, annotation, at)),
                        self.ctx.branches.current(),
                        at,
                    )
                } else {
                    channel
                },
            )
        }
    }
}

fn do_lefts_fit(place: &Place, lefts: &Vec<LeftValue>) -> (r: bool)
    ensures
        r == lefts_fit(place@.table, lefts_of(lefts@)),
        r ==> forall|i: int|
            0 <= i < lefts@.len() ==> (#[trigger] lefts@[i]).symbol < place@.table.symbols.len(),
{
    let ghost ls = lefts_of(lefts@);
    let n: usize = lefts.len();
    let mut i: usize = 0;
    while i < n
        invariant
            i <= n,
            n == lefts@.len(),
            ls == lefts_of(lefts@),
            forall|k: int| 0 <= k < i ==> (#[trigger] ls[k]).symbol < place@.table.symbols.len(),
            forall|k: int|
                0 <= k < i ==> (#[trigger] lefts@[k]).symbol < place@.table.symbols.len(),
        decreases n - i,
    {
        proof {
            assert(ls[i as int] == lefts@[i as int]@);
        }
        if lefts[i].symbol >= place.table.symbol_count() {
            return false;
        }
        i = i + 1;
    }
    true
}

fn carry_known(values: &Vec<(Value, Option<SimpleConstValue>)>) -> (r: Vec<Option<LabelBacktrace>>)
    ensures
        flows_of(r@) == flows_of_values(known_of(values@)),
{
    let mut r: Vec<Option<LabelBacktrace>> = Vec::new();
    let n: usize = values.len();
    let mut i: usize = 0;
    while i < n
        invariant
            i <= n,
            n == values@.len(),
            r@.len() == i,
            forall|k: int| 0 <= k < i ==> trace_of(#[trigger] r@[k]) == carried(values@[k].0@),
        decreases n - i,
    {
        r.push(values[i].0.backtrace());
        i = i + 1;
    }
    proof {
        assert(flows_of(r@) =~= flows_of_values(known_of(values@)));
    }
    r
}

fn copy_known(values: &Vec<(Value, Option<SimpleConstValue>)>) -> (r: Vec<
    (Value, Option<SimpleConstValue>),
>)
    ensures
        known_of(r@) == known_of(values@),
{
    let mut r: Vec<(Value, Option<SimpleConstValue>)> = Vec::new();
    let n: usize = values.len();
    let mut i: usize = 0;
    while i < n
        invariant
            i <= n,
            n == values@.len(),
            r@.len() == i,
            forall|k: int|
                0 <= k < i ==> (#[trigger] r@[k]).0@ == values@[k].0@ && const_of(r@[k].1)
                    == const_of(values@[k].1),
        decreases n - i,
    {
        let known = match &values[i].1 {
            Some(c) => Some(SimpleConstValue { text: c.text.clone() }),
            None => None,
        };
        r.push((values[i].0.clone(), known));
        i = i + 1;
    }
    proof {
        assert(known_of(r@) =~= known_of(values@));
    }
    r
}

/// Whether each of some values can be judged, now or later.
fn can_judge_each(place: &Place, values: &Vec<(Value, Option<SimpleConstValue>)>) -> (r: bool)
    ensures
        r == can_judge_all(place@.ctx, known_of(values@)),
{
    let ghost ks = known_of(values@);
    let n: usize = values.len();
    let mut i: usize = 0;
    while i < n
        invariant
            i <= n,
            n == values@.len(),
            ks == known_of(values@),
            forall|k: int|
                0 <= k < i ==> can_judge(place@.ctx, seq![carried((#[trigger] ks[k]).0)]),
        decreases n - i,
    {
        let mut one: Vec<Option<LabelBacktrace>> = Vec::new();
        one.push(values[i].0.backtrace());
        proof {
            assert(ks[i as int].0 == values@[i as int].0@);
            assert(flows_of(one@) =~= seq![carried(ks[i as int].0)]);
        }
        if !are_judgeable(&place.ctx, &one) {
            return false;
        }
        i = i + 1;
    }
    true
}

proof fn lemma_parts_carry_alike(a: ValueModel, b: ValueModel, n: int)
    requires
        a.parts == b.parts,
    ensures
        carried_by_parts(a, n) == carried_by_parts(b, n),
    decreases n,
{
    if n > 0 && n <= a.parts.len() {
        lemma_parts_carry_alike(a, b, n - 1);
    }
}

proof fn lemma_carried_alike(a: ValueModel, b: ValueModel)
    requires
        a.parts == b.parts,
        a.own == b.own,
        a.location == b.location,
    ensures
        carried(a) == carried(b),
{
    lemma_parts_carry_alike(a, b, a.parts.len() as int);
}

proof fn lemma_judged_typed(ctx: ContextModel, rhs: Seq<KnownModel>, ty: Option<TypeModel>)
    ensures
        can_judge_all(ctx, typed(rhs, ty)) == can_judge_all(ctx, rhs),
{
    let all = typed(rhs, ty);
    assert forall|i: int| 0 <= i < rhs.len() implies carried(#[trigger] all[i].0) == carried(
        rhs[i].0,
    ) by {
        lemma_carried_alike(all[i].0, rhs[i].0);
    }
    if can_judge_all(ctx, rhs) {
        assert forall|i: int| 0 <= i < all.len() implies can_judge(
            ctx,
            seq![carried((#[trigger] all[i]).0)],
        ) by {
            assert(can_judge(ctx, seq![carried(rhs[i].0)]));
        }
    }
    if can_judge_all(ctx, all) {
        assert forall|i: int| 0 <= i < rhs.len() implies can_judge(
            ctx,
            seq![carried((#[trigger] rhs[i]).0)],
        ) by {
            assert(can_judge(ctx, seq![carried(all[i].0)]));
        }
    }
}

impl Place {
    fn stop(&mut self)
        requires
            old(self).wf(),
        ensures
            final(self).wf(),
            final(self)@ == old(self)@.stopped(),
    {
        let ghost before = self@;
        self.halted = true;
        proof {
            assert(self@ =~= before.stopped());
        }
    }

    /// Checks what an expression statement comes to.
    pub fn finish_evaluation(
        &mut self,
        values: &Vec<Value>,
        annotation: Option<&Annotation>,
        location: Location,
    )
        requires
            old(self).wf(),
        ensures
            final(self).wf(),
            final(self)@ == old(self)@.evaluation_done(values_of(values@), annotation, location),
    {
        proof {
            reveal(PlaceModel::evaluation_done);
        }
        let ghost before = self@;
        let flows = values_carry(values);
        if !are_judgeable(&self.ctx, &flows) {
            self.stop();
            return;
        }
        visit_evaluation(&mut self.ctx, &flows, annotation, location);
        proof {
            assert(self@ =~= before.evaluation_done(values_of(values@), annotation, location));
        }
    }

    /// Assigns values.
    pub fn finish_assignment(
        &mut self,
        simple: bool,
        lefts: &Vec<LeftValue>,
        rhs: Vec<(Value, Option<SimpleConstValue>)>,
        annotation: Option<&Annotation>,
        location: Location,
    )
        requires
            old(self).wf(),
        ensures
            final(self).wf(),
            final(self)@ == old(self)@.assignment_done(
                simple,
                lefts_of(lefts@),
                known_of(rhs@),
                annotation,
                location,
            ),
    {
        proof {
            reveal(PlaceModel::assignment_done);
        }
        let ghost before = self@;
        let ghost ls = lefts_of(lefts@);
        let ghost given = known_of(rhs@);
        proof {
            assert(ls.len() == lefts@.len());
        }
        let all = expand_rhs_values(copy_known(&rhs), lefts.len());
        let flows = carry_known(&all);
        if !do_lefts_fit(self, lefts) || !are_judgeable(&self.ctx, &flows) {
            self.stop();
            return;
        }
        visit_assignment_with(
            &mut self.ctx,
            &mut self.table,
            simple,
            lefts,
            rhs,
            annotation,
            location,
            &self.regions,
        );
        proof {
            assert(self@ =~= before.assignment_done(simple, ls, given, annotation, location));
        }
    }

    /// Makes a short declaration.
    pub fn finish_short_decl(
        &mut self,
        ids: &Vec<Span>,
        rhs: Vec<(Value, Option<SimpleConstValue>)>,
        annotation: Option<&Annotation>,
        location: Location,
    )
        requires
            old(self).wf(),
        ensures
            final(self).wf(),
            final(self)@ == old(self)@.short_done(
                spans_of(ids@),
                known_of(rhs@),
                annotation,
                location,
            ),
    {
        proof {
            reveal(PlaceModel::short_done);
        }
        let ghost before = self@;
        let ghost names = spans_of(ids@);
        let ghost given = known_of(rhs@);
        proof {
            assert(names.len() == ids@.len());
        }
        let all = expand_rhs_values(copy_known(&rhs), ids.len());
        if !can_judge_each(self, &all) {
            self.stop();
            return;
        }
        visit_short_var_decl_with(
            &mut self.ctx,
            &mut self.table,
            ids,
            rhs,
            location,
            annotation,
            &self.regions,
        );
        proof {
            assert(self@ =~= before.short_done(names, given, annotation, location));
        }
    }

    /// Declares constants or variables.
    pub fn finish_binding(
        &mut self,
        ids: &Vec<Span>,
        rhs: Vec<(Value, Option<SimpleConstValue>)>,
        has_exprs: bool,
        mutable: bool,
        annotation: Option<&Annotation>,
        has_type: bool,
        declared_type: &Option<TypeInfo>,
        zero: &Option<SimpleConstValue>,
        location: Location,
    )
        requires
            old(self).wf(),
        ensures
            final(self).wf(),
            final(self)@ == old(self)@.binding_done(
                spans_of(ids@),
                known_of(rhs@),
                has_exprs,
                mutable,
                annotation,
                has_type,
                type_of(*declared_type),
                const_of(*zero),
                location,
            ),
    {
        proof {
            reveal(PlaceModel::binding_done);
        }
        let ghost before = self@;
        let ghost names = spans_of(ids@);
        let ghost given = known_of(rhs@);
        proof {
            assert(names.len() == ids@.len());
        }
        let all = expand_rhs_values(copy_known(&rhs), ids.len());
        proof {
            lemma_judged_typed(before.ctx, known_of(all@), type_of(*declared_type));
        }
        if !can_judge_each(self, &all) {
            self.stop();
            return;
        }
        visit_binding_decl_spec(
            &mut self.ctx,
            &mut self.table,
            ids,
            rhs,
            has_exprs,
            mutable,
            false,
            location,
            annotation,
            has_type,
            declared_type,
            zero,
            &self.regions,
        );
        proof {
            assert(self@ =~= before.binding_done(
                names,
                given,
                has_exprs,
                mutable,
                annotation,
                has_type,
                type_of(*declared_type),
                const_of(*zero),
                location,
            ));
        }
    }

    /// Hides the names of a short declaration which an earlier visit left
    /// behind.
    pub fn hide_names(&mut self, ids: &Vec<Span>)
        requires
            old(self).wf(),
        ensures
            final(self).wf(),
            final(self)@ == old(self)@.names_hidden(spans_of(ids@), ids@.len() as int),
    {
        let ghost before = self@;
        let ghost names = spans_of(ids@);
        let n: usize = ids.len();
        let mut i: usize = 0;
        while i < n
            invariant
                i <= n,
                n == ids@.len(),
                names == spans_of(ids@),
                self.wf(),
                self@.ctx == before.ctx,
                self@ == before.names_hidden(names, i as int),
            decreases n - i,
        {
            proof {
                assert(names[i as int] == ids@[i as int]@);
            }
            if !same_text(ids[i].content(), "_") {
                let declaration = self.ctx.log.pin(ids[i].duplicate());
                self.table.hide_current_symbol_declared_at(&declaration);
            }
            proof {
                assert(self@ =~= before.names_hidden(names, i + 1));
            }
            i = i + 1;
        }
    }

    /// Leaves a function with values.
    pub fn finish_return(&mut self, values: Vec<Value>, hands_on: bool, location: Location)
        requires
            old(self).wf(),
        ensures
            final(self).wf(),
            final(self)@ == old(self)@.return_done(values_of(values@), hands_on, location),
    {
        proof {
            reveal(PlaceModel::return_done);
        }
        let ghost before = self@;
        let ghost given = values_of(values@);
        let current: Option<usize> = if self.active.len() > 0 {
            Some(self.active[0])
        } else {
            None
        };
        if let Some(f) = current {
            if f >= self.table.function_count() {
                self.stop();
                return;
            }
        }
        visit_return(&mut self.ctx, &mut self.table, current, values, hands_on, location);
        proof {
            assert(self@ =~= before.return_done(given, hands_on, location));
        }
    }

    /// Sends a value to a channel.
    pub fn finish_send(
        &mut self,
        channel: Value,
        payload: &Value,
        annotation: Option<&Annotation>,
        location: Location,
    ) -> (r: Value)
        requires
            old(self).wf(),
        ensures
            final(self).wf(),
            (final(self)@, r@) == old(self)@.send_done(channel@, payload@, annotation, location),
    {
        proof {
            reveal(PlaceModel::send_done);
        }
        let ghost before = self@;
        let ghost target = channel@;
        let mut flows: Vec<Option<LabelBacktrace>> = Vec::new();
        flows.push(payload.backtrace());
        proof {
            assert(flows_of(flows@) =~= seq![carried(payload@)]);
        }
        if !are_judgeable(&self.ctx, &flows) {
            self.stop();
            return channel;
        }
        let r = send_through_channel_with(&mut self.ctx, channel, payload, annotation, location);
        proof {
            assert(self@ =~= before.send_done(target, payload@, annotation, location).0);
        }
        r
    }
}

} // verus!
