use glowy::ast::{Annotation, Node, NodeKind};
use glowy::context::branches::BranchState;
use glowy::context::AnalysisContext;
use glowy::errors::AnalysisErrorKind;
use glowy::functions::FunctionRef;
use glowy::labels::backtraces::{LabelBacktrace, LabelBacktraceKind};
use glowy::labels::tags::{LabelTag, SyntheticSlot};
use glowy::labels::Label;
use glowy::locations::{Location, Pinned, Span};
use glowy::ordered::{OrderedMap, OrderedSet};
use glowy::policy::blanket_directives::{BlanketDirective, BlanketDirectiveKind};
use glowy::policy::targets::{BlanketDirectiveTarget, SimpleConstValue};
use glowy::policy::{SinkDescriptor, SinkKind};
use glowy::symbols::table::SymbolTable;
use glowy::symbols::Symbol;
use glowy::taint::enforcement::trigger_sink;
use glowy::taint::exprs::component::FieldInfo;
use glowy::taint::funcs::builtins::{visit_special_builtin_call, SpecialBuiltin};
use glowy::taint::funcs::call_application::{
    apply_call, apply_resolved_call, CallCaptureConcretes, IterableFunctionCall,
};
use glowy::taint::funcs::call_resolution::{
    is_special_builtin_call, decide_call, resolve_current_yield_owner,
    try_extract_typed_selection_callee, Argument, CallDecision, ResolvedCall,
};
use glowy::taint::funcs::captures::call_site::{
    merge_capture_backtraces, realize_capture_backtraces_for_call_site, CallSiteConcretes,
};
use glowy::taint::funcs::captures::collector::{collect_captured_symbols, root_operand};
use glowy::taint::funcs::captures::realization::has_inactive_synthetics;
use glowy::taint::funcs::captures::{
    gather_captures, record_capture_fallbacks, register_captures, CapturedSymbol,
};
use glowy::taint::funcs::defers::{
    argument_may_share_mutable_state, observe_referent, DeferredCalls,
};
use glowy::taint::funcs::definitions::{
    bind_named_result_locals, build_function_value, declare_parameter, declare_parameters,
    enter_body, leave_body, NamedResults,
};
use glowy::taint::funcs::outcomes::{finalize_named_result_outcome, merge_outcomes, visit_return};
use glowy::taint::funcs::{FunctionSummary, ParamDecl, Signature};
use glowy::values::{PartKey, Value, ValueForm};

fn loc(start: usize) -> Location {
    Location { start, end: start + 1 }
}

fn at(start: usize) -> Pinned<Location> {
    Pinned::new("/main.go", loc(start))
}

fn span(content: &str, start: usize) -> Span {
    Span { content: content.to_owned(), location: loc(start) }
}

fn trace(tag: &str) -> LabelBacktrace {
    LabelBacktrace::new_root(
        LabelBacktraceKind::ExplicitAnnotation,
        Label::from_tags(vec![tag]),
        None,
        at(1),
    )
    .unwrap()
}

fn tainted(tag: &str) -> Value {
    Value::from_backtrace_or_bottom_at(Some(trace(tag)), &at(1))
}

fn clean() -> Value {
    Value::from_backtrace_or_bottom_at(None, &at(1))
}

fn text(v: &Value) -> String {
    match v.backtrace() {
        Some(b) => b.label().to_text(),
        None => "none".to_owned(),
    }
}

fn function(name: &str) -> FunctionRef {
    FunctionRef::Named(Pinned::new("/main.go", span(name, 0)))
}

fn context() -> AnalysisContext {
    let mut ctx = AnalysisContext::new();
    ctx.log.set_current_file("/main.go");
    ctx
}

fn table() -> SymbolTable {
    let mut t = SymbolTable::new();
    t.enter_package(Pinned::new("/main.go", span("app", 0)), "app");
    t
}

fn param(names: Vec<&str>, variadic: bool) -> ParamDecl {
    ParamDecl {
        ids: names.into_iter().map(|n| span(n, 2)).collect(),
        variadic,
        is_function: false,
    }
}

fn placeholder(func: &str, slot: SyntheticSlot) -> LabelBacktrace {
    LabelBacktrace::new_root(
        LabelBacktraceKind::FunctionParameter,
        Label::from_single(LabelTag::Synthetic { func: function(func), slot, identifier: None }),
        None,
        at(1),
    )
    .unwrap()
}

fn identity() -> FunctionSummary {
    let mut f = FunctionSummary::new_unknown(function("id"), None, false);
    f.signature = Some(Signature { params: vec![param(vec!["x"], false)], result_count: 1 });
    let x = Value::from_backtrace_or_bottom_at(
        Some(placeholder("id", SyntheticSlot::Param(0))),
        &at(1),
    );
    f.outcome = Some(vec![x]);
    f
}

fn arguments(values: Vec<Value>) -> Vec<Argument> {
    values
        .into_iter()
        .map(|value| {
            let hybrid = value.backtrace();
            Argument { value, known_const: None, hybrid }
        })
        .collect()
}

fn call(values: Vec<Value>) -> ResolvedCall {
    ResolvedCall { as_blackbox: false, args: arguments(values), method_receiver_value: None }
}

fn no_captures() -> CallCaptureConcretes {
    CallCaptureConcretes { at_entry: OrderedMap::new(), for_outcome: OrderedMap::new() }
}

fn directive(kind: BlanketDirectiveKind, tag: &str) -> BlanketDirective {
    BlanketDirective::new(kind, OrderedSet::new(), None, None, Label::from_tags(vec![tag]))
}

#[test]
fn results_carry_what_is_passed() {
    let mut ctx = context();
    let mut f = identity();
    let results =
        apply_call(&mut ctx, &mut f, &call(vec![tainted("a")]), None, &no_captures(), None, loc(9));
    assert_eq!(results.len(), 1);
    assert_eq!(text(&results[0]), "{a}");
    assert_eq!(f.call_count, 1);
    assert!(ctx.log.take_errors().is_empty());
}

#[test]
fn unknown_functions_hand_on_everything() {
    let mut ctx = context();
    let mut f = FunctionSummary::new_unknown(function("f"), None, false);
    let results = apply_call(
        &mut ctx,
        &mut f,
        &call(vec![tainted("a"), tainted("b")]),
        None,
        &no_captures(),
        None,
        loc(9),
    );
    let two = results[0].try_expand_to(2).unwrap();
    assert_eq!(text(&two[0]), "{a, b}");
    assert_eq!(text(&two[1]), "{a, b}");
}

#[test]
fn checks_of_functions_are_made_at_their_calls() {
    let mut ctx = context();
    ctx.push_function(function("id"));
    let sink = SinkDescriptor::new(SinkKind::Call, false, vec!["secret"], loc(4)).unwrap();
    trigger_sink(&mut ctx, &sink, Some(placeholder("id", SyntheticSlot::Param(0))));
    assert!(ctx.log.take_errors().is_empty());
    let frame = ctx.pop_function().unwrap();
    let mut f = identity();
    f.deferred_checks = frame.checks;
    apply_call(&mut ctx, &mut f, &call(vec![tainted("public")]), None, &no_captures(), None, loc(9));
    assert!(ctx.log.take_errors().is_empty());
    apply_call(&mut ctx, &mut f, &call(vec![tainted("secret")]), None, &no_captures(), None, loc(9));
    let errors = ctx.log.take_errors();
    assert_eq!(errors.len(), 1);
    assert!(matches!(errors[0].kind, AnalysisErrorKind::InsecureFlow { .. }));
}

#[test]
fn annotated_calls_are_sinks() {
    let mut ctx = context();
    let mut f = identity();
    let deny = Annotation {
        directive: "deny".to_owned(),
        tags: vec!["secret".to_owned()],
        location: loc(8),
    };
    apply_call(
        &mut ctx,
        &mut f,
        &call(vec![tainted("secret")]),
        Some(&deny),
        &no_captures(),
        None,
        loc(9),
    );
    assert_eq!(ctx.log.take_errors().len(), 1);
}

#[test]
fn policies_make_functions_sinks_and_sources() {
    let mut ctx = context();
    let mut f = identity();
    f.directives = vec![directive(BlanketDirectiveKind::DenySink, "secret")];
    apply_call(&mut ctx, &mut f, &call(vec![tainted("secret")]), None, &no_captures(), None, loc(9));
    assert_eq!(ctx.log.take_errors().len(), 1);
    let target = BlanketDirectiveTarget::parse("os.Getenv#0~=TOKEN").unwrap();
    let conditional = BlanketDirective::new(
        BlanketDirectiveKind::Source,
        OrderedSet::new(),
        None,
        target.arg_predicate,
        Label::from_tags(vec!["env"]),
    );
    let mut g = FunctionSummary::new_unknown(function("Getenv"), None, false);
    g.directives = vec![conditional];
    let mut args = arguments(vec![clean()]);
    args[0].known_const = Some(SimpleConstValue { text: "API_TOKEN".to_owned() });
    let token = ResolvedCall { as_blackbox: false, args, method_receiver_value: None };
    let results = apply_call(&mut ctx, &mut g, &token, None, &no_captures(), None, loc(9));
    assert_eq!(text(&results[0]), "{env}");
    let mut other = arguments(vec![clean()]);
    other[0].known_const = Some(SimpleConstValue { text: "HOME".to_owned() });
    let home = ResolvedCall { as_blackbox: false, args: other, method_receiver_value: None };
    let results = apply_call(&mut ctx, &mut g, &home, None, &no_captures(), None, loc(9));
    assert_eq!(text(&results[0]), "none");
}

#[test]
fn revocations_clean_results() {
    let mut ctx = context();
    let mut f = identity();
    f.directives = vec![directive(BlanketDirectiveKind::Revocation, "a")];
    let results =
        apply_call(&mut ctx, &mut f, &call(vec![tainted("a")]), None, &no_captures(), None, loc(9));
    assert_eq!(text(&results[0]), "none");
}

#[test]
fn black_boxed_calls_ignore_what_is_known() {
    let mut ctx = context();
    let mut f = identity();
    f.outcome = Some(vec![clean()]);
    let mut c = call(vec![tainted("a"), tainted("b")]);
    c.as_blackbox = true;
    let results = apply_resolved_call(&mut ctx, &mut f, &c, None, &no_captures(), None, loc(9));
    assert_eq!(text(&results[0].try_expand_to(1).unwrap()[0]), "{a, b}");
    assert_eq!(f.call_count, 0);
}

#[test]
fn calls_are_resolved_before_they_are_applied() {
    let mut ctx = context();
    let f = identity();
    let ready = decide_call(&mut ctx.log, Some(&f), false, false, None, 1, loc(9));
    assert!(matches!(ready, CallDecision::Apply { .. }));
    assert!(ctx.log.take_errors().is_empty());
    let wrong = decide_call(&mut ctx.log, Some(&f), false, false, None, 0, loc(9));
    assert!(matches!(wrong, CallDecision::Refused));
    assert!(matches!(
        ctx.log.take_errors()[0].kind,
        AnalysisErrorKind::IncorrectCallCardinality { expected: 1, found: 0, .. }
    ));
    decide_call(&mut ctx.log, None, false, false, None, 0, loc(9));
    assert!(matches!(
        ctx.log.take_errors()[0].kind,
        AnalysisErrorKind::IllegalCallExpression { .. }
    ));
}

#[test]
fn variadic_functions_take_any_number_of_arguments() {
    let s = Signature {
        params: vec![param(vec!["x"], false), param(vec!["rest"], true)],
        result_count: 0,
    };
    assert_eq!(s.count_inputs(), 2);
    assert!(!s.admits(0));
    assert!(s.admits(1));
    assert!(s.admits(5));
    let plain = Signature { params: vec![param(vec!["x", "y"], false)], result_count: 0 };
    assert!(plain.admits(2));
    assert!(!plain.admits(3));
}

#[test]
fn conversions_pass_their_operand_on() {
    let mut ctx = context();
    let mut f = FunctionSummary::new_unknown(function("T"), None, false);
    f.is_type_constructor = true;
    let decision = decide_call(&mut ctx.log, Some(&f), false, false, None, 1, loc(9));
    assert!(matches!(decision, CallDecision::Convert));
    assert!(ctx.log.take_errors().is_empty());
}

#[test]
fn special_functions_are_told_from_others() {
    assert!(is_special_builtin_call("append", true));
    assert!(!is_special_builtin_call("append", false));
    assert!(!is_special_builtin_call("println", true));
}

fn special(
    ctx: &mut AnalysisContext,
    which: SpecialBuiltin,
    args: Vec<Value>,
) -> (Vec<Value>, Option<Value>) {
    let n = args.len();
    let consts = (0..n).map(|_| None).collect();
    visit_special_builtin_call(
        &mut ctx.log,
        &ctx.branches,
        which,
        &args,
        &vec![],
        &consts,
        loc(9),
    )
}

fn empty(form: ValueForm) -> Value {
    Value::new(form, None, at(0), None, vec![])
}

#[test]
fn appending_keeps_what_was_there() {
    let mut ctx = context();
    let mut base = empty(ValueForm::Slice);
    base.set_at_key(ValueForm::Slice, Some(PartKey::Index(0)), tainted("a"), None, &at(2));
    let (results, written) = special(
        &mut ctx,
        SpecialBuiltin::Append { variadic: false },
        vec![base, tainted("b")],
    );
    assert_eq!(text(&results[0]), "{a, b}");
    assert!(written.is_none());
}

#[test]
fn copying_writes_to_the_destination() {
    let mut ctx = context();
    let (results, written) =
        special(&mut ctx, SpecialBuiltin::Copy, vec![empty(ValueForm::Slice), tainted("b")]);
    assert_eq!(text(&results[0]), "{b}");
    assert_eq!(text(&written.unwrap()), "{b}");
    special(&mut ctx, SpecialBuiltin::Copy, vec![empty(ValueForm::Channel), tainted("b")]);
    assert!(matches!(
        ctx.log.take_errors()[0].kind,
        AnalysisErrorKind::UnexpectedBuiltInArgShape { .. }
    ));
}

#[test]
fn clearing_forgets_maps_but_not_lengths() {
    let mut ctx = context();
    let mut map = empty(ValueForm::Mapping);
    let key = PartKey::Text("k".to_owned());
    map.set_at_key(ValueForm::Mapping, Some(key), tainted("a"), None, &at(2));
    let (results, written) = special(&mut ctx, SpecialBuiltin::Clear, vec![map]);
    assert!(results.is_empty());
    assert_eq!(text(&written.unwrap()), "none");
    let mut slice = empty(ValueForm::Slice);
    slice.set_at_key(ValueForm::Slice, Some(PartKey::Index(0)), tainted("a"), None, &at(2));
    let (_, written) = special(&mut ctx, SpecialBuiltin::Clear, vec![slice]);
    assert_eq!(text(&written.unwrap()), "{a}");
}

#[test]
fn closing_shows_under_which_conditions_it_happens() {
    let mut ctx = context();
    ctx.branches.push_branch_backtrace(trace("branch"));
    let (_, written) = special(&mut ctx, SpecialBuiltin::Close, vec![empty(ValueForm::Channel)]);
    assert_eq!(text(&written.unwrap()), "{branch}");
}

#[test]
fn deleting_forgets_one_element() {
    let mut ctx = context();
    let mut map = empty(ValueForm::Mapping);
    let key = PartKey::Text("k".to_owned());
    map.set_at_key(ValueForm::Mapping, Some(key.clone()), tainted("a"), None, &at(2));
    let (_, written) = special(
        &mut ctx,
        SpecialBuiltin::Delete { key: Some(key.clone()) },
        vec![map, clean()],
    );
    assert_eq!(text(&written.unwrap().get_at_key(Some(&key), &at(5))), "none");
}

#[test]
fn lengths_carry_what_values_do() {
    let mut ctx = context();
    let (results, _) = special(&mut ctx, SpecialBuiltin::Len, vec![tainted("a")]);
    assert_eq!(text(&results[0]), "{a}");
    special(&mut ctx, SpecialBuiltin::Len, vec![]);
    assert!(matches!(
        ctx.log.take_errors()[0].kind,
        AnalysisErrorKind::IncorrectCallCardinality { expected: 1, found: 0, .. }
    ));
}

#[test]
fn methods_are_found_by_the_types_of_values() {
    let mut t = table();
    let m = t.add_symbol(Symbol {
        declared_name: Pinned::new("/main.go", span("m", 3)),
        mutable: false,
        value: clean(),
        known_const: None,
    });
    let bound =
        try_extract_typed_selection_callee(&t, &tainted("a"), "m", Some(m), None, false, at(5))
            .unwrap();
    assert_eq!(text(&bound), "{a}");
    let field = FieldInfo { declared_type: None, tag_backtrace: Some(trace("tag")) };
    let read = try_extract_typed_selection_callee(
        &t,
        &empty(ValueForm::Struct),
        "f",
        None,
        Some(&field),
        true,
        at(5),
    )
    .unwrap();
    assert_eq!(text(&read), "{tag}");
    assert!(
        try_extract_typed_selection_callee(&t, &clean(), "f", None, None, true, at(5)).is_none()
    );
}

#[test]
fn iterators_yield_through_their_parameter() {
    let mut t = table();
    let id = t.add_symbol(Symbol {
        declared_name: Pinned::new("/main.go", span("yield", 3)),
        mutable: true,
        value: clean(),
        known_const: None,
    });
    t.declare_new_symbol("yield", id);
    let func = function("seq");
    let own = Pinned::new("/main.go", span("yield", 3));
    let other = Pinned::new("/main.go", span("yield", 40));
    assert_eq!(
        resolve_current_yield_owner(&t, Some((&func, Some(&own))), "yield").unwrap().to_text(),
        "seq"
    );
    assert!(resolve_current_yield_owner(&t, Some((&func, Some(&other))), "yield").is_none());
    assert!(resolve_current_yield_owner(&t, None, "yield").is_none());
}

#[test]
fn iterators_are_called_with_what_loops_feed_back() {
    let mut ctx = context();
    ctx.push_function(function("seq"));
    let sink = SinkDescriptor::new(SinkKind::Call, false, vec!["secret"], loc(4)).unwrap();
    trigger_sink(&mut ctx, &sink, Some(placeholder("seq", SyntheticSlot::YieldFeedback)));
    let checks = ctx.pop_function().unwrap().checks;
    let mut f = FunctionSummary::new_unknown(function("seq"), None, false);
    f.signature = Some(Signature { params: vec![param(vec!["yield"], false)], result_count: 0 });
    f.outcome = Some(vec![]);
    f.deferred_checks = checks;
    IterableFunctionCall::new(&ctx.branches, &f, no_captures(), &at(9)).apply(
        &mut ctx,
        &mut f,
        None,
    );
    assert!(ctx.log.take_errors().is_empty());
    let fed = trace("secret");
    IterableFunctionCall::new(&ctx.branches, &f, no_captures(), &at(9)).apply(
        &mut ctx,
        &mut f,
        Some(&fed),
    );
    assert_eq!(ctx.log.take_errors().len(), 1);
    assert_eq!(f.call_count, 2);
}

fn build(ctx: &mut AnalysisContext, annotation: Option<&Annotation>) -> FunctionSummary {
    build_function_value(
        &mut ctx.log,
        function("f"),
        Signature { params: vec![param(vec!["x"], false)], result_count: 2 },
        false,
        annotation,
        vec![directive(BlanketDirectiveKind::Source, "policy")],
        vec![],
        &at(3),
    )
}

fn annotation(directive: &str, tags: Vec<&str>) -> Annotation {
    Annotation {
        directive: directive.to_owned(),
        tags: tags.into_iter().map(str::to_owned).collect(),
        location: loc(99),
    }
}

#[test]
fn functions_start_with_results_that_carry_nothing() {
    let mut ctx = context();
    let f = build(&mut ctx, None);
    assert_eq!(f.outcome.as_ref().unwrap().len(), 2);
    assert_eq!(text(&f.outcome.as_ref().unwrap()[0]), "none");
    assert_eq!(f.directives.len(), 1);
    assert!(f.own.is_none());
}

#[test]
fn annotations_of_functions_become_directives() {
    let mut ctx = context();
    let labeled = build(&mut ctx, Some(&annotation("label", vec!["a"])));
    assert_eq!(labeled.own.unwrap().label().to_text(), "{a}");
    let revoking = build(&mut ctx, Some(&annotation("revoke", vec!["a"])));
    assert_eq!(revoking.directives.len(), 2);
    assert_eq!(revoking.directives[0].kind(), BlanketDirectiveKind::Revocation);
    assert_eq!(revoking.directives[1].kind(), BlanketDirectiveKind::Source);
    let denying = build(&mut ctx, Some(&annotation("deny", vec!["a"])));
    assert_eq!(denying.directives[0].kind(), BlanketDirectiveKind::DenySink);
    assert!(ctx.log.take_errors().is_empty());
    build(&mut ctx, Some(&annotation("deny", vec![])));
    assert!(matches!(
        ctx.log.take_errors()[0].kind,
        AnalysisErrorKind::InvalidDenySinkSemantics { .. }
    ));
    build(&mut ctx, Some(&annotation("revoke", vec![])));
    assert!(matches!(
        ctx.log.take_errors()[0].kind,
        AnalysisErrorKind::InvalidRevocationSemantics { .. }
    ));
    build(&mut ctx, Some(&annotation("assert", vec!["a"])));
    assert!(matches!(
        ctx.log.take_errors()[0].kind,
        AnalysisErrorKind::UnknownAnnotationDirective { .. }
    ));
}

#[test]
fn parameters_carry_placeholders() {
    let mut ctx = context();
    let mut t = table();
    t.select_next_child_scope();
    let s = Signature {
        params: vec![param(vec!["a", "_"], false), param(vec![], false), param(vec!["d"], true)],
        result_count: 0,
    };
    let receiver = span("self", 4);
    declare_parameter(&mut ctx, &mut t, &function("f"), SyntheticSlot::Receiver, Some(&receiver), &None);
    declare_parameters(&mut ctx, &mut t, &function("f"), &s, &vec![]);
    let value = |t: &SymbolTable, n: &str| text(&t.symbol(t.get_symbol(n).unwrap()).value);
    assert_eq!(value(&t, "self"), "{<f$RECEIVER:self>}");
    assert_eq!(value(&t, "a"), "{<f#0:a>}");
    assert_eq!(value(&t, "d"), "{<f#3:d>}");
    assert!(t.get_symbol("_").is_none());
}

#[test]
fn named_results_are_variables() {
    let mut ctx = context();
    let mut t = table();
    t.select_next_child_scope();
    bind_named_result_locals(
        &mut ctx,
        &mut t,
        &vec![NamedResults { ids: vec![span("n", 2), span("err", 4)], declared_type: None }],
    );
    assert!(t.symbol(t.get_symbol("n").unwrap()).mutable);
    assert!(t.get_symbol("err").is_some());
}

#[test]
fn bodies_depend_on_whether_they_are_called() {
    let mut ctx = context();
    let mut t = table();
    let f = t.add_function(identity());
    enter_body(&mut ctx, &function("id"), &at(3));
    assert_eq!(ctx.branches.branch_backtrace().unwrap().label().to_text(), "{<id$BRANCH>}");
    let sink = SinkDescriptor::new(SinkKind::Call, false, vec!["secret"], loc(4)).unwrap();
    trigger_sink(&mut ctx, &sink, None);
    leave_body(&mut ctx, &mut t, &function("id"), f);
    assert!(ctx.branches.branch_backtrace().is_none());
    assert_eq!(t.function(f).deferred_checks.len(), 1);
    enter_body(&mut ctx, &function("main"), &at(3));
    assert!(ctx.branches.branch_backtrace().is_none());
    leave_body(&mut ctx, &mut t, &function("main"), f);
}

#[test]
fn returned_values_become_the_outcome() {
    let mut ctx = context();
    let mut t = table();
    let mut unknown = identity();
    unknown.outcome = None;
    let f = t.add_function(unknown);
    ctx.branches.push_branch_backtrace(trace("branch"));
    visit_return(&mut ctx, &mut t, Some(f), vec![tainted("a")], false, loc(5));
    assert_eq!(text(&t.function(f).outcome.as_ref().unwrap()[0]), "{a, branch}");
    visit_return(&mut ctx, &mut t, Some(f), vec![tainted("b")], false, loc(6));
    assert_eq!(text(&t.function(f).outcome.as_ref().unwrap()[0]), "{a, b, branch}");
    visit_return(&mut ctx, &mut t, None, vec![], false, loc(7));
    assert!(matches!(ctx.log.take_errors()[0].kind, AnalysisErrorKind::UnexpectedReturn { .. }));
}

#[test]
fn returns_must_agree_on_how_many_values_there_are() {
    let mut ctx = context();
    merge_outcomes(&mut ctx.log, &vec![clean()], &vec![clean(), clean()], loc(5));
    assert!(matches!(
        ctx.log.take_errors()[0].kind,
        AnalysisErrorKind::MismatchingReturnCardinality { expected: 1, found: 2, .. }
    ));
}

#[test]
fn named_results_replace_what_was_returned() {
    let branches = BranchState::new();
    let r = finalize_named_result_outcome(
        &branches,
        &vec![tainted("a"), tainted("b")],
        &vec![Some(tainted("c")), None],
        &at(5),
    );
    assert_eq!(text(&r[0]), "{c}");
    assert_eq!(text(&r[1]), "{b}");
}

#[test]
fn deferred_calls_are_made_in_reverse() {
    let mut branches = BranchState::new();
    let mut d = DeferredCalls::new();
    d.push_frame();
    d.register_deferred_call(&branches, 1);
    branches.push_branch_backtrace(trace("branch"));
    d.register_deferred_call(&branches, 2);
    let calls = d.take_deferred_calls();
    assert_eq!(calls.len(), 2);
    assert_eq!(calls[0].call, 2);
    assert!(calls[0].captured_branch_backtrace.is_some());
    assert_eq!(calls[1].call, 1);
    assert!(calls[1].captured_branch_backtrace.is_none());
    assert!(d.take_deferred_calls().is_empty());
    d.pop_frame();
}

#[test]
fn deferred_arguments_may_change_behind_references() {
    assert!(argument_may_share_mutable_state(&clean(), true, false, false));
    assert!(!argument_may_share_mutable_state(&clean(), false, false, false));
    let now = observe_referent(&empty(ValueForm::Slice), &tainted("a"));
    assert_eq!(text(&now), "{a}");
}

fn leaf(kind: NodeKind, name: &str) -> Node {
    Node::plain(kind, vec![span(name, 3)], vec![], loc(3))
}

fn node(kind: NodeKind, names: Vec<&str>, children: Vec<Node>) -> Node {
    Node::plain(kind, names.into_iter().map(|n| span(n, 3)).collect(), children, loc(3))
}

#[test]
fn functions_capture_what_they_do_not_declare() {
    let body = node(
        NodeKind::Block,
        vec![],
        vec![
            node(NodeKind::ShortDecl, vec!["y"], vec![leaf(NodeKind::Name, "x")]),
            node(NodeKind::Evaluation, vec![], vec![leaf(NodeKind::Name, "y")]),
        ],
    );
    let captured = collect_captured_symbols(&vec![span("p", 1)], &body);
    assert!(captured.contains(&"x".to_owned()));
    assert!(!captured.contains(&"y".to_owned()));
    assert_eq!(captured.len(), 1);
}

#[test]
fn parts_belong_to_their_root() {
    let part = node(
        NodeKind::Indexing,
        vec![],
        vec![leaf(NodeKind::Name, "xs"), leaf(NodeKind::Name, "i")],
    );
    assert_eq!(root_operand(&part).unwrap().content(), "xs");
    assert!(root_operand(&node(NodeKind::Literal, vec![], vec![])).is_none());
}

#[test]
fn captured_variables_are_registered_with_placeholders() {
    let mut t = table();
    let declaration = Pinned::new("/main.go", span("counter", 30));
    let counter = t.add_symbol(Symbol {
        declared_name: Pinned::new("/main.go", span("counter", 30)),
        mutable: true,
        value: tainted("a"),
        known_const: None,
    });
    t.declare_new_symbol("counter", counter);
    let mut definitions: OrderedMap<Pinned<Span>, usize> = OrderedMap::new();
    definitions.insert(declaration, counter);
    t.select_next_child_scope();
    let gathered = gather_captures(
        &t,
        &OrderedMap::new(),
        &definitions,
        &function("f"),
        &vec![],
        &vec![CapturedSymbol::Unqualified("counter".to_owned())],
    );
    assert_eq!(gathered.len(), 1);
    let bindings =
        register_captures(&mut t, &function("f"), &at(5), &gathered, &OrderedMap::new());
    assert_eq!(bindings.len(), 1);
    let local = t.get_symbol("counter").unwrap();
    assert_eq!(local, bindings[0].local_symbol);
    assert_eq!(text(&t.symbol(local).value), "{<f$CAPTURE#0:counter>}");
    t.select_parent_scope();
    assert_eq!(t.get_symbol("counter"), Some(counter));
    let known = record_capture_fallbacks(&t, &definitions, bindings);
    let fallback = known[0].hybrid_fallback.as_ref().unwrap().as_ref();
    assert_eq!(fallback.as_ref().unwrap().label().to_text(), "{a}");
}

#[test]
fn the_first_function_of_a_program_captures_nothing() {
    let t = table();
    let gathered = gather_captures(
        &t,
        &OrderedMap::new(),
        &OrderedMap::new(),
        &function("main"),
        &vec![],
        &vec![CapturedSymbol::Unqualified("len".to_owned())],
    );
    assert_eq!(gathered.len(), 0);
}

#[test]
fn captured_flows_are_realized_where_functions_are_called() {
    let site = CallSiteConcretes {
        params: vec![Some(trace("secret"))],
        branch: None,
    };
    let mut concretes: OrderedMap<usize, Option<LabelBacktrace>> = OrderedMap::new();
    concretes.insert(0, Some(placeholder("f", SyntheticSlot::Param(0))));
    let r = realize_capture_backtraces_for_call_site(concretes, &function("f"), &site);
    assert_eq!(r.get(&0).unwrap().as_ref().unwrap().label().to_text(), "{secret}");
    let both = merge_capture_backtraces(Some(trace("a")), Some(trace("b")), &at(3)).unwrap();
    assert_eq!(both.label().to_text(), "{a, b}");
}

#[test]
fn placeholders_of_other_functions_are_inactive() {
    let own = Label::from_single(LabelTag::Synthetic {
        func: function("f"),
        slot: SyntheticSlot::Param(0),
        identifier: None,
    });
    assert!(!has_inactive_synthetics(&own, &function("f"), &vec![]));
    assert!(has_inactive_synthetics(&own, &function("g"), &vec![]));
    assert!(!has_inactive_synthetics(&own, &function("g"), &vec![function("f")]));
}
