use glowy::ast::Annotation;
use glowy::context::declarations::SplitRegions;
use glowy::context::AnalysisContext;
use glowy::errors::AnalysisErrorKind;
use glowy::labels::backtraces::{LabelBacktrace, LabelBacktraceKind};
use glowy::labels::Label;
use glowy::locations::{Location, Pinned, Span};
use glowy::policy::targets::SimpleConstValue;
use glowy::policy::{SinkDescriptor, SinkKind};
use glowy::symbols::table::SymbolTable;
use glowy::taint::annotations::{AnnotationDirective, AnnotationSite};
use glowy::taint::channels::{receive_from_channel, send_through_channel_with};
use glowy::taint::enforcement::{trigger_assertion, trigger_sink};
use glowy::taint::explicit::{
    visit_assignment_with, visit_binding_decl_spec, visit_incdec, visit_short_var_decl_with,
};
use glowy::taint::mutation::{LeftValue, PathStep};
use glowy::values::{PartKey, Value, ValueForm};

fn loc(start: usize) -> Location {
    Location { start, end: start + 1 }
}

fn at(start: usize) -> Pinned<Location> {
    Pinned::new("/main.go", loc(start))
}

fn span(content: &str, start: usize) -> Span {
    Span { content: content.to_owned(), location: loc(start) }
}

fn trace(tag: &str) -> LabelBacktrace {
    LabelBacktrace::new_root(
        LabelBacktraceKind::ExplicitAnnotation,
        Label::from_tags(vec![tag]),
        None,
        at(1),
    )
    .unwrap()
}

fn tainted(tag: &str) -> Value {
    Value::from_backtrace_or_bottom_at(Some(trace(tag)), &at(1))
}

fn clean() -> Value {
    Value::from_backtrace_or_bottom_at(None, &at(1))
}

fn text(v: &Value) -> String {
    match v.backtrace() {
        Some(b) => b.label().to_text(),
        None => "none".to_owned(),
    }
}

fn annotation(directive: &str, tags: Vec<&str>) -> Annotation {
    Annotation {
        directive: directive.to_owned(),
        tags: tags.into_iter().map(str::to_owned).collect(),
        location: loc(99),
    }
}

fn setup() -> (AnalysisContext, SymbolTable, SplitRegions) {
    let mut ctx = AnalysisContext::new();
    ctx.log.set_current_file("/main.go");
    let mut table = SymbolTable::new();
    table.enter_package(Pinned::new("/main.go", span("app", 0)), "app");
    (ctx, table, SplitRegions::new())
}

fn value_of(table: &SymbolTable, name: &str) -> String {
    text(&table.symbol(table.get_symbol(name).unwrap()).value)
}

fn left(table: &SymbolTable, name: &str, path: Vec<PathStep>) -> LeftValue {
    LeftValue { symbol: table.get_symbol(name).unwrap(), name: span(name, 60), path }
}

fn declare(
    ctx: &mut AnalysisContext,
    table: &mut SymbolTable,
    regions: &SplitRegions,
    name: &str,
    start: usize,
    value: Value,
) {
    visit_short_var_decl_with(
        ctx,
        table,
        &vec![span(name, start)],
        vec![(value, None)],
        loc(start),
        None,
        regions,
    );
}

#[test]
fn directives_are_read_where_they_have_a_meaning() {
    assert_eq!(AnnotationDirective::parse("label"), Some(AnnotationDirective::Label));
    assert_eq!(AnnotationDirective::parse("revoke"), Some(AnnotationDirective::Revoke));
    assert_eq!(AnnotationDirective::parse("allow"), Some(AnnotationDirective::AllowSink));
    assert_eq!(AnnotationDirective::parse("deny"), Some(AnnotationDirective::DenySink));
    assert_eq!(AnnotationDirective::parse("assert"), Some(AnnotationDirective::Assert));
    assert_eq!(AnnotationDirective::parse("other"), None);
    assert!(AnnotationSite::Decl.admits(AnnotationDirective::Label));
    assert!(!AnnotationSite::Call.admits(AnnotationDirective::Label));
    assert!(AnnotationSite::Expr.admits(AnnotationDirective::Assert));
    assert!(!AnnotationSite::Function.admits(AnnotationDirective::Assert));
}

#[test]
fn declarations_carry_what_they_are_initialized_with() {
    let (mut ctx, mut table, regions) = setup();
    declare(&mut ctx, &mut table, &regions, "x", 10, tainted("a"));
    assert_eq!(value_of(&table, "x"), "{a}");
    assert!(ctx.log.take_errors().is_empty());
}

#[test]
fn annotations_add_and_take_away_labels() {
    let (mut ctx, mut table, regions) = setup();
    visit_short_var_decl_with(
        &mut ctx,
        &mut table,
        &vec![span("password", 10)],
        vec![(clean(), None)],
        loc(10),
        Some(&annotation("label", vec!["secret"])),
        &regions,
    );
    assert_eq!(value_of(&table, "password"), "{secret}");
    visit_short_var_decl_with(
        &mut ctx,
        &mut table,
        &vec![span("public", 20)],
        vec![(tainted("secret"), None)],
        loc(20),
        Some(&annotation("revoke", vec!["secret"])),
        &regions,
    );
    assert_eq!(value_of(&table, "public"), "none");
}

#[test]
fn annotated_declarations_can_be_sinks() {
    let (mut ctx, mut table, regions) = setup();
    visit_short_var_decl_with(
        &mut ctx,
        &mut table,
        &vec![span("x", 10)],
        vec![(tainted("secret"), None)],
        loc(10),
        Some(&annotation("deny", vec!["secret"])),
        &regions,
    );
    let errors = ctx.log.take_errors();
    assert_eq!(errors.len(), 1);
    assert!(matches!(errors[0].kind, AnalysisErrorKind::InsecureFlow { .. }));
}

#[test]
fn annotations_that_say_nothing_are_reported() {
    let (mut ctx, mut table, regions) = setup();
    for (name, start, directive, found) in
        [("a", 10, "revoke", 0), ("b", 20, "deny", 1), ("c", 30, "other", 2)]
    {
        visit_short_var_decl_with(
            &mut ctx,
            &mut table,
            &vec![span(name, start)],
            vec![(clean(), None)],
            loc(start),
            Some(&annotation(directive, vec![])),
            &regions,
        );
        let errors = ctx.log.take_errors();
        assert_eq!(errors.len(), 1);
        let matching = match found {
            0 => matches!(errors[0].kind, AnalysisErrorKind::InvalidRevocationSemantics { .. }),
            1 => matches!(errors[0].kind, AnalysisErrorKind::InvalidDenySinkSemantics { .. }),
            _ => matches!(errors[0].kind, AnalysisErrorKind::UnknownAnnotationDirective { .. }),
        };
        assert!(matching);
    }
}

#[test]
fn declarations_need_as_many_values_as_names() {
    let (mut ctx, mut table, regions) = setup();
    visit_short_var_decl_with(
        &mut ctx,
        &mut table,
        &vec![span("x", 10), span("y", 12)],
        vec![(clean(), None)],
        loc(10),
        None,
        &regions,
    );
    let errors = ctx.log.take_errors();
    assert!(matches!(
        errors[0].kind,
        AnalysisErrorKind::UnevenBindingDeclSpec { left: 2, right: 1, .. }
    ));
}

#[test]
fn one_expandable_value_serves_several_names() {
    let (mut ctx, mut table, regions) = setup();
    let pair = Value::pair(tainted("a"), tainted("b"), at(2));
    visit_short_var_decl_with(
        &mut ctx,
        &mut table,
        &vec![span("v", 10), span("ok", 12)],
        vec![(pair, None)],
        loc(10),
        None,
        &regions,
    );
    assert_eq!(value_of(&table, "v"), "{a}");
    assert_eq!(value_of(&table, "ok"), "{b}");
    assert!(ctx.log.take_errors().is_empty());
}

#[test]
fn the_blank_name_declares_nothing() {
    let (mut ctx, mut table, regions) = setup();
    visit_short_var_decl_with(
        &mut ctx,
        &mut table,
        &vec![span("_", 10), span("y", 12)],
        vec![(tainted("a"), None), (tainted("b"), None)],
        loc(10),
        None,
        &regions,
    );
    assert!(table.get_symbol("_").is_none());
    assert_eq!(value_of(&table, "y"), "{b}");
}

#[test]
fn typed_declarations_without_values_carry_nothing() {
    let (mut ctx, mut table, regions) = setup();
    visit_binding_decl_spec(
        &mut ctx,
        &mut table,
        &vec![span("x", 10)],
        vec![],
        false,
        true,
        false,
        loc(10),
        None,
        true,
        &None,
        &Some(SimpleConstValue { text: "0".to_owned() }),
        &regions,
    );
    assert_eq!(value_of(&table, "x"), "none");
    let x = table.get_symbol("x").unwrap();
    assert_eq!(table.symbol(x).known_const.as_ref().unwrap().text, "0");
}

#[test]
fn declarations_under_a_condition_depend_on_it() {
    let (mut ctx, mut table, regions) = setup();
    ctx.branches.push_branch_backtrace(trace("branch"));
    declare(&mut ctx, &mut table, &regions, "x", 10, tainted("a"));
    ctx.branches.pop_branch_backtrace();
    assert_eq!(value_of(&table, "x"), "{a, branch}");
}

fn assign(
    ctx: &mut AnalysisContext,
    table: &mut SymbolTable,
    regions: &SplitRegions,
    simple: bool,
    lefts: &Vec<LeftValue>,
    values: Vec<(Value, Option<SimpleConstValue>)>,
) {
    visit_assignment_with(ctx, table, simple, lefts, values, None, loc(60), regions);
}

#[test]
fn assignments_replace_values() {
    let (mut ctx, mut table, regions) = setup();
    declare(&mut ctx, &mut table, &regions, "x", 10, tainted("a"));
    let lefts = vec![left(&table, "x", vec![])];
    assign(&mut ctx, &mut table, &regions, true, &lefts, vec![(tainted("b"), None)]);
    assert_eq!(value_of(&table, "x"), "{b}");
    assign(&mut ctx, &mut table, &regions, true, &lefts, vec![(clean(), None)]);
    assert_eq!(value_of(&table, "x"), "none");
}

#[test]
fn compound_assignments_keep_what_was_there() {
    let (mut ctx, mut table, regions) = setup();
    declare(&mut ctx, &mut table, &regions, "x", 10, tainted("a"));
    let lefts = vec![left(&table, "x", vec![])];
    assign(&mut ctx, &mut table, &regions, false, &lefts, vec![(tainted("b"), None)]);
    assert_eq!(value_of(&table, "x"), "{a, b}");
    let operand = left(&table, "x", vec![]);
    visit_incdec(&mut ctx, &mut table, operand, loc(70), &regions);
    assert_eq!(value_of(&table, "x"), "{a, b}");
}

#[test]
fn assignments_under_a_condition_depend_on_it() {
    let (mut ctx, mut table, regions) = setup();
    declare(&mut ctx, &mut table, &regions, "x", 10, clean());
    let lefts = vec![left(&table, "x", vec![])];
    ctx.branches.push_branch_backtrace(trace("branch"));
    assign(&mut ctx, &mut table, &regions, true, &lefts, vec![(clean(), None)]);
    ctx.branches.pop_branch_backtrace();
    assert_eq!(value_of(&table, "x"), "{branch}");
}

#[test]
fn assignments_where_control_flow_splits_may_not_happen() {
    let (mut ctx, mut table, mut regions) = setup();
    declare(&mut ctx, &mut table, &regions, "x", 10, tainted("a"));
    let lefts = vec![left(&table, "x", vec![])];
    regions.push_split_control_flow(Pinned::new("/main.go", Location { start: 50, end: 90 }));
    assign(&mut ctx, &mut table, &regions, true, &lefts, vec![(tainted("b"), None)]);
    regions.pop_split_control_flow();
    assert_eq!(value_of(&table, "x"), "{a, b}");
}

#[test]
fn parts_can_be_assigned_to() {
    let (mut ctx, mut table, regions) = setup();
    let slice = Value::new(ValueForm::Slice, None, at(0), None, vec![]);
    declare(&mut ctx, &mut table, &regions, "xs", 10, slice);
    let step = PathStep {
        form: ValueForm::Slice,
        key: Some(PartKey::Index(2)),
        key_backtrace: None,
    };
    let lefts = vec![left(&table, "xs", vec![step])];
    assign(&mut ctx, &mut table, &regions, true, &lefts, vec![(tainted("a"), None)]);
    let xs = &table.symbol(table.get_symbol("xs").unwrap()).value;
    assert_eq!(text(&xs.get_at_key(Some(&PartKey::Index(2)), &at(5))), "{a}");
    assert_eq!(text(&xs.get_at_key(Some(&PartKey::Index(3)), &at(5))), "none");
}

#[test]
fn illegal_assignments_are_reported() {
    let (mut ctx, mut table, regions) = setup();
    declare(&mut ctx, &mut table, &regions, "x", 10, clean());
    declare(&mut ctx, &mut table, &regions, "y", 20, clean());
    let both = vec![left(&table, "x", vec![]), left(&table, "y", vec![])];
    assign(&mut ctx, &mut table, &regions, true, &both, vec![(clean(), None)]);
    assert!(matches!(
        ctx.log.take_errors()[0].kind,
        AnalysisErrorKind::UnevenAssignment { left: 2, right: 1, .. }
    ));
    assign(&mut ctx, &mut table, &regions, false, &both, vec![(clean(), None), (clean(), None)]);
    assert!(matches!(
        ctx.log.take_errors()[0].kind,
        AnalysisErrorKind::MultiComplexAssignment { num: 2, .. }
    ));
    let channel = Value::new(ValueForm::Channel, None, at(0), None, vec![]);
    declare(&mut ctx, &mut table, &regions, "c", 30, channel);
    let step = PathStep { form: ValueForm::Slice, key: None, key_backtrace: None };
    let part = vec![left(&table, "c", vec![step])];
    assign(&mut ctx, &mut table, &regions, true, &part, vec![(clean(), None)]);
    assert!(matches!(
        ctx.log.take_errors()[0].kind,
        AnalysisErrorKind::InvalidLeftValue { .. }
    ));
    let x = table.get_symbol("x").unwrap();
    table.mark_immutable(x);
    let one = vec![left(&table, "x", vec![])];
    assign(&mut ctx, &mut table, &regions, true, &one, vec![(tainted("a"), None)]);
    assert!(matches!(
        ctx.log.take_errors()[0].kind,
        AnalysisErrorKind::ImmutableLeftValue { .. }
    ));
    assert_eq!(value_of(&table, "x"), "none");
}

#[test]
fn insecure_flows_are_reported() {
    let (mut ctx, _, _) = setup();
    let sink = SinkDescriptor::new(SinkKind::Call, false, vec!["secret"], loc(5)).unwrap();
    trigger_sink(&mut ctx, &sink, Some(trace("public")));
    trigger_sink(&mut ctx, &sink, None);
    assert!(ctx.log.take_errors().is_empty());
    trigger_sink(&mut ctx, &sink, Some(trace("secret")));
    assert_eq!(ctx.log.take_errors().len(), 1);
    ctx.branches.push_branch_backtrace(trace("secret"));
    trigger_sink(&mut ctx, &sink, Some(trace("public")));
    assert_eq!(ctx.log.take_errors().len(), 1);
}

#[test]
fn false_assertions_are_reported() {
    let (mut ctx, _, _) = setup();
    let expected = vec![Label::from_tags(vec!["a"])];
    trigger_assertion(&mut ctx, &expected, Some(trace("a")), loc(5));
    assert!(ctx.log.take_errors().is_empty());
    trigger_assertion(&mut ctx, &expected, Some(trace("b")), loc(5));
    trigger_assertion(&mut ctx, &expected, None, loc(5));
    let errors = ctx.log.take_errors();
    assert_eq!(errors.len(), 2);
    assert!(matches!(errors[0].kind, AnalysisErrorKind::FalseAssertion { .. }));
}

#[test]
fn channels_hand_on_what_is_sent() {
    let (mut ctx, _, _) = setup();
    let channel = Value::new(ValueForm::Channel, None, at(0), None, vec![]);
    let sent = send_through_channel_with(&mut ctx, channel, &tainted("a"), None, loc(5));
    assert_eq!(text(&sent), "{a}");
    let (_, received) = receive_from_channel(&mut ctx.log, &ctx.branches, sent, loc(6));
    let received = received.unwrap();
    assert_eq!(text(&received.extract_collapsed_single()), "{a}");
    assert!(ctx.log.take_errors().is_empty());
}

#[test]
fn use_of_channels_shows_under_which_conditions_it_happens() {
    let (mut ctx, _, _) = setup();
    let channel = Value::new(ValueForm::Channel, None, at(0), None, vec![]);
    ctx.branches.push_branch_backtrace(trace("branch"));
    let (after, _) = receive_from_channel(&mut ctx.log, &ctx.branches, channel, loc(6));
    assert_eq!(text(&after), "{branch}");
}

#[test]
fn only_channels_can_be_received_from() {
    let (mut ctx, _, _) = setup();
    let slice = Value::new(ValueForm::Slice, None, at(0), None, vec![]);
    let (_, received) = receive_from_channel(&mut ctx.log, &ctx.branches, slice, loc(6));
    assert!(received.is_none());
    assert!(matches!(
        ctx.log.take_errors()[0].kind,
        AnalysisErrorKind::InvalidReceiveOperand { .. }
    ));
}
