//! Channels.

use vstd::prelude::*;

use crate::ast::Annotation;
use crate::context::branches::BranchState;
use crate::context::reports::ErrorLog;
use crate::context::AnalysisContext;
use crate::errors::{AnalysisErrorKind, ErrorModel};
use crate::labels::backtraces::{listed, trace_of, traces_of, LabelBacktrace, LabelBacktraceKind,
    Trace};
use crate::locations::{Location, Pinned, PinnedModel};
use crate::ordered::Ordered;
use crate::policy::SinkKind;
use crate::taint::annotations::AnnotationSite;
use crate::taint::explicit::{annotated, apply_value_annotation, explicit_of, subtract_of};
use crate::taint::funcs::call_checks::{can_judge, flows_of};
use crate::values::{carried, relieved, FormModel, Value, ValueForm, ValueModel};

pub mod selects;

verus! {

impl ValueModel {
    /// A channel that also carries, as a whole, what decides whether it is
    /// used.
    pub open spec fn used_under(
        self,
        branch: Option<Trace>,
        at: PinnedModel<Location>,
    ) -> ValueModel {
        let channel = ValueModel { form: FormModel::Channel, ..self };
        match branch {
            Some(t) => channel.nesting(LabelBacktraceKind::Branch, None, at, seq![t]),
            None => channel,
        }
    }

    /// What is received from a channel: anything that was sent to it. Where two
    /// values are expected, the second one tells whether anything was, which
    /// depends on nothing but how the channel is used.
    pub open spec fn received(self, at: PinnedModel<Location>) -> ValueModel {
        ValueModel::paired(
            ValueModel::simple(carried(self), at),
            ValueModel::simple(self.own, at),
            at,
        )
    }

    /// A channel to which something was sent.
    pub open spec fn sent_to(
        self,
        flow: Option<Trace>,
        branch: Option<Trace>,
        at: PinnedModel<Location>,
    ) -> ValueModel {
        self.used_under(branch, at).with_others(flow, at)
    }
}

fn use_channel(target: Value, branches: &BranchState, at: &Pinned<Location>) -> (r: Value)
    ensures
        r@ == target@.used_under(branches@.current(), at@),
{
    let mut r = target;
    proof {
        r.lemma_parts();
    }
    r.form = ValueForm::Channel;
    proof {
        r.lemma_parts();
    }
    if let Some(b) = branches.branch_backtrace() {
        let mut more: Vec<LabelBacktrace> = Vec::new();
        more.push(b.clone());
        proof {
            assert(traces_of(more@) =~= seq![b@]);
        }
        r.nest_backtrace(LabelBacktraceKind::Branch, None, at.duplicate(), &more);
    }
    r
}

/// Receives from a channel. Returns its new value, and what is received; none
/// if it is not a channel, which is reported. That something is received can be
/// noticed by others who use the channel.
pub fn receive_from_channel(
    log: &mut ErrorLog,
    branches: &BranchState,
    target: Value,
    location: Location,
) -> (r: (Value, Option<Value>))
    requires
        old(log)@.file is Some,
    ensures
        ({
            let at = PinnedModel { file: old(log)@.file->0, inner: location };
            if target@.form.can_become(FormModel::Channel) {
                let channel = target@.used_under(branches@.current(), at);
                &&& r.0@ == channel
                &&& r.1 is Some && r.1->0@ == channel.received(at)
                &&& final(log)@ == old(log)@
            } else {
                &&& r.0@ == target@
                &&& r.1 is None
                &&& final(log)@ == old(log)@.with_error(
                    ErrorModel::InvalidReceiveOperand { location },
                )
            }
        }),
{
    if !target.form.can_become(&ValueForm::Channel) {
        log.report_error(AnalysisErrorKind::InvalidReceiveOperand { location });
        return (target, None);
    }
    let at = log.pin(location);
    let channel = use_channel(target, branches, &at);
    let primary = Value::from_backtrace_or_bottom_at(channel.backtrace(), &at);
    let success = Value::from_backtrace_or_bottom_at(
        crate::context::branches::copy_trace(&channel.own),
        &at,
    );
    (channel, Some(Value::pair(primary, success, at)))
}

/// What a send sends.
pub open spec fn sent_value(
    base: ValueModel,
    annotation: Option<&Annotation>,
    at: PinnedModel<Location>,
) -> ValueModel {
    relieved(
        base.nesting(
            LabelBacktraceKind::Send,
            None,
            at,
            listed(explicit_of(annotation, AnnotationSite::Send, None, at)),
        ),
        subtract_of(annotation, AnnotationSite::Send),
    )
}

/// Sends a value to a channel. Returns the new value of the channel; what is
/// not one stays as it is.
pub fn send_through_channel_with(
    ctx: &mut AnalysisContext,
    target: Value,
    base: &Value,
    annotation: Option<&Annotation>,
    location: Location,
) -> (r: Value)
    requires
        old(ctx).wf(),
        old(ctx)@.log.file is Some,
        can_judge(old(ctx)@, seq![carried(base@)]),
    ensures
        final(ctx)@.log.file is Some,
        final(ctx).wf(),
        final(ctx)@ == annotated(
            old(ctx)@,
            annotation,
            AnnotationSite::Send,
            SinkKind::Send,
            seq![carried(base@)],
            location,
        ),
        ({
            let at = PinnedModel { file: old(ctx)@.log.file->0, inner: location };
            r@ == if target@.form.can_become(FormModel::Channel) {
                target@.sent_to(
                    carried(sent_value(base@, annotation, at)),
                    old(ctx)@.branches.current(),
                    at,
                )
            } else {
                target@
            }
        }),
{
    let mut flows: Vec<Option<LabelBacktrace>> = Vec::new();
    flows.push(base.backtrace());
    proof {
        assert(flows_of(flows@) =~= seq![carried(base@)]);
    }
    let (explicit, subtract) = apply_value_annotation(
        ctx,
        annotation,
        AnnotationSite::Send,
        SinkKind::Send,
        None,
        &flows,
        location,
    );
    let at = ctx.log.pin(location);
    let ghost e = trace_of(explicit);
    let mut more: Vec<LabelBacktrace> = Vec::new();
    if let Some(b) = explicit {
        more.push(b);
    }
    proof {
        assert(traces_of(more@) =~= listed(e));
    }
    let mut sent = base.clone();
    sent.nest_backtrace(LabelBacktraceKind::Send, None, at.duplicate(), &more);
    sent.subtract_label(&subtract);
    if !target.form.can_become(&ValueForm::Channel) {
        return target;
    }
    let mut channel = use_channel(target, &ctx.branches, &at);
    channel.set_dyn(sent.backtrace(), &at);
    channel
}

} // verus!
