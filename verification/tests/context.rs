use glowy::context::branches::{BranchState, DeferTarget};
use glowy::context::declarations::SplitRegions;
use glowy::context::deferred_checks::{record_check, DeferredEnforcementCheck};
use glowy::context::loops::{LoopConvergence, LoopStack};
use glowy::context::per_iteration::{PerIterationBinding, PerIterationBindings};
use glowy::context::reports::{AnalysisStage, ErrorLog};
use glowy::context::AnalysisContext;
use glowy::errors::{AnalysisErrorCategory, AnalysisErrorKind};
use glowy::functions::FunctionRef;
use glowy::labels::backtraces::{LabelBacktrace, LabelBacktraceKind};
use glowy::labels::tags::{LabelTag, SyntheticSlot};
use glowy::labels::Label;
use glowy::locations::{Location, Pinned, Span};
use glowy::ordered::Order;
use glowy::policy::{SinkDescriptor, SinkKind};
use glowy::symbols::table::SymbolTable;
use glowy::symbols::Symbol;
use glowy::values::Value;

fn loc(start: usize) -> Location {
    Location { start, end: start + 1 }
}

fn at(start: usize) -> Pinned<Location> {
    Pinned::new("/main.go", loc(start))
}

fn trace(tag: &str, start: usize) -> LabelBacktrace {
    LabelBacktrace::new_root(
        LabelBacktraceKind::ExplicitAnnotation,
        Label::from_tags(vec![tag]),
        None,
        at(start),
    )
    .unwrap()
}

fn current(b: &BranchState) -> String {
    match b.branch_backtrace() {
        Some(t) => t.label().to_text(),
        None => "none".to_owned(),
    }
}

fn function(name: &str) -> FunctionRef {
    FunctionRef::Named(Pinned::new(
        "/main.go",
        Span { content: name.to_owned(), location: loc(0) },
    ))
}

fn parameter(func: &str, index: usize) -> LabelBacktrace {
    LabelBacktrace::new_root(
        LabelBacktraceKind::FunctionParameter,
        Label::from_single(LabelTag::Synthetic {
            func: function(func),
            slot: SyntheticSlot::Param(index),
            identifier: None,
        }),
        None,
        at(1),
    )
    .unwrap()
}

#[test]
fn inner_branches_depend_on_outer_ones() {
    let mut b = BranchState::new();
    assert_eq!(current(&b), "none");
    b.push_branch_backtrace(trace("a", 1));
    b.push_branch_backtrace(trace("b", 2));
    assert_eq!(current(&b), "{a, b}");
    b.pop_branch_backtrace();
    assert_eq!(current(&b), "{a}");
    b.pop_branch_backtrace();
    assert_eq!(current(&b), "none");
}

#[test]
fn deferred_branches_stay_until_their_target_ends() {
    let mut b = BranchState::new();
    b.increase_branch_scope_depth();
    b.increase_branch_scope_depth();
    b.push_branch_backtrace(trace("a", 1));
    b.defer_branch_backtrace(DeferTarget::InnermostLoop, at(2));
    b.pop_branch_backtrace();
    assert_eq!(current(&b), "{a}");
    b.trigger_defer_target(DeferTarget::Function);
    assert_eq!(current(&b), "{a}");
    b.decrease_branch_scope_depth();
    b.trigger_defer_target(DeferTarget::InnermostLoop);
    assert_eq!(current(&b), "none");
}

#[test]
fn deferred_branches_of_outer_loops_survive_inner_ones() {
    let mut b = BranchState::new();
    b.increase_branch_scope_depth();
    b.push_branch_backtrace(trace("a", 1));
    b.defer_branch_backtrace(DeferTarget::InnermostLoop, at(2));
    b.pop_branch_backtrace();
    b.increase_branch_scope_depth();
    b.decrease_branch_scope_depth();
    b.trigger_defer_target(DeferTarget::InnermostLoop);
    assert_eq!(current(&b), "{a}");
}

#[test]
fn labeled_targets_are_told_apart() {
    assert!(DeferTarget::LabeledLoop("a".to_owned())
        .same_as(&DeferTarget::LabeledLoop("a".to_owned())));
    assert!(!DeferTarget::LabeledLoop("a".to_owned())
        .same_as(&DeferTarget::LabeledLoop("b".to_owned())));
    assert!(!DeferTarget::LabeledLoop("a".to_owned())
        .same_as(&DeferTarget::LabeledBreakable("a".to_owned())));
}

#[test]
fn checkpoints_bring_back_deferred_branches() {
    let mut b = BranchState::new();
    let before = b.checkpoint_deferred_state();
    b.push_branch_backtrace(trace("a", 1));
    b.defer_branch_backtrace(DeferTarget::Function, at(2));
    b.pop_branch_backtrace();
    assert_eq!(current(&b), "{a}");
    b.restore_deferred_state(&before);
    assert_eq!(current(&b), "none");
}

fn report(log: &mut ErrorLog) {
    log.report_error(AnalysisErrorKind::UnexpectedReturn { location: loc(1) });
}

#[test]
fn errors_are_only_reported_where_labels_are_known() {
    let mut log = ErrorLog::new();
    log.set_current_file("/main.go");
    assert_eq!(log.current_file(), Some("/main.go"));
    report(&mut log);
    log.set_stage(AnalysisStage::StabilizeLabels);
    report(&mut log);
    log.set_stage(AnalysisStage::EnforceSecurityPolicies);
    report(&mut log);
    assert_eq!(log.take_errors().len(), 2);
    assert!(log.take_errors().is_empty());
}

#[test]
fn suppressed_errors_are_lost() {
    let mut log = ErrorLog::new();
    log.set_current_file("/main.go");
    log.push_error_suppression();
    log.push_error_suppression();
    report(&mut log);
    log.pop_error_suppression();
    report(&mut log);
    log.pop_error_suppression();
    report(&mut log);
    assert_eq!(log.take_errors().len(), 1);
}

#[test]
fn stages_know_what_they_are_for() {
    assert!(AnalysisStage::RecordDeclarations.is_first());
    assert!(AnalysisStage::RecordDeclarations.admits_errors());
    assert!(!AnalysisStage::StabilizeLabels.admits_errors());
    assert!(AnalysisStage::EnforceSecurityPolicies.has_stable_labels());
}

#[test]
fn errors_fall_into_categories() {
    assert!(matches!(
        AnalysisErrorKind::NoSecurityPolicy.category(),
        AnalysisErrorCategory::Suspicious
    ));
    assert!(matches!(
        AnalysisErrorKind::UnexpectedReturn { location: loc(1) }.category(),
        AnalysisErrorCategory::InvalidGo
    ));
    let sink = SinkDescriptor::new(SinkKind::Call, true, vec!["a"], loc(1)).unwrap();
    assert!(matches!(
        AnalysisErrorKind::InsecureFlow { sink, backtrace: trace("b", 1) }.category(),
        AnalysisErrorCategory::SecurityPolicyViolation
    ));
}

#[test]
fn errors_are_the_same_if_all_of_them_is() {
    let a = AnalysisErrorKind::UnexpectedReturn { location: loc(1) };
    let b = AnalysisErrorKind::UnexpectedReturn { location: loc(2) };
    let c = AnalysisErrorKind::Unreachable { location: loc(1) };
    assert!(a.same_as(&AnalysisErrorKind::UnexpectedReturn { location: loc(1) }));
    assert!(!a.same_as(&b));
    assert!(!a.same_as(&c));
}

fn sink_check(location: usize, backtrace: LabelBacktrace) -> DeferredEnforcementCheck {
    DeferredEnforcementCheck::Sink {
        sink: SinkDescriptor::new(SinkKind::Call, false, vec!["secret"], loc(location)).unwrap(),
        found: backtrace,
        file: "/main.go".to_owned(),
    }
}

#[test]
fn checks_at_one_place_are_put_together() {
    let mut checks: Vec<DeferredEnforcementCheck> = Vec::new();
    record_check(&mut checks, sink_check(1, parameter("f", 0)));
    record_check(&mut checks, sink_check(1, parameter("f", 1)));
    assert_eq!(checks.len(), 1);
    record_check(&mut checks, sink_check(5, parameter("f", 0)));
    assert_eq!(checks.len(), 2);
}

#[test]
fn checks_are_realized_with_what_is_passed() {
    let check = sink_check(1, parameter("f", 0));
    let secret = trace("secret", 3);
    let realized = check
        .realize(&function("f"), &vec![(SyntheticSlot::Param(0), Some(&secret))], false)
        .unwrap();
    match realized {
        DeferredEnforcementCheck::Sink { found, .. } => {
            assert_eq!(found.label().to_text(), "{secret}");
        }
        _ => panic!("a sink stays a sink"),
    }
    assert!(check
        .realize(&function("f"), &vec![(SyntheticSlot::Param(0), None)], false)
        .is_none());
}

#[test]
fn functions_under_declaration_are_left_in_turn() {
    let mut ctx = AnalysisContext::new();
    ctx.push_function(function("f"));
    ctx.push_function(function("g"));
    ctx.defer_enforcement_check(sink_check(1, parameter("g", 0)));
    let g = ctx.pop_function().unwrap();
    assert_eq!(g.func.to_text(), "g");
    assert_eq!(g.checks.len(), 1);
    let f = ctx.pop_function().unwrap();
    assert_eq!(f.func.to_text(), "f");
    assert!(f.checks.is_empty());
    assert!(ctx.pop_function().is_none());
}

#[test]
fn regions_tell_what_is_declared_within_them() {
    let mut regions = SplitRegions::new();
    assert_eq!(regions.was_declared_within(&at(5)), None);
    regions.push_split_control_flow(Pinned::new("/main.go", Location { start: 10, end: 20 }));
    assert_eq!(regions.was_declared_within(&at(5)), Some(false));
    assert_eq!(regions.was_declared_within(&at(12)), Some(true));
    regions.pop_split_control_flow();
    assert_eq!(regions.was_declared_within(&at(12)), None);
}

#[test]
fn quiet_loops_are_stable_after_one_visit() {
    let mut l = LoopConvergence::new(None);
    let header = Some(trace("a", 1));
    assert!(!l.is_stable(&header));
    l.advance(Some(trace("a", 1)));
    assert!(l.is_stable(&header));
    assert!(!l.is_stable(&Some(trace("b", 1))));
    assert!(!l.is_stable(&None));
}

#[test]
fn continued_loops_depend_on_why_they_were_continued() {
    let mut branches = BranchState::new();
    let mut loops = LoopStack::new();
    loops.push_loop_convergence_context(Some("outer".to_owned()));
    loops.push_loop_convergence_context(None);
    branches.push_branch_backtrace(trace("a", 1));
    loops.record_continue_branch_backtrace(&branches, Some("outer"), &at(2));
    loops.advance_loop_convergence_iteration(None);
    assert!(loops.loop_iteration_backtrace().is_none());
    loops.pop_loop_convergence_context();
    loops.advance_loop_convergence_iteration(None);
    assert_eq!(loops.loop_iteration_backtrace().unwrap().label().to_text(), "{a}");
    assert!(!loops.is_innermost_stable(&None));
    loops.pop_loop_convergence_context();
    assert!(loops.pop_loop_convergence_context().is_none());
}

fn table_with(name: &str) -> (SymbolTable, usize) {
    let mut t = SymbolTable::new();
    let declared_name =
        Pinned::new("/main.go", Span { content: name.to_owned(), location: loc(3) });
    let value = Value::new_bottom(declared_name.pinned_location(), None);
    let id = t.add_symbol(Symbol { declared_name, mutable: true, value, known_const: None });
    (t, id)
}

#[test]
fn iterations_have_cells_of_their_own() {
    let (mut t, x) = table_with("x");
    let mut binding = PerIterationBinding::new(&mut t, x, vec![]);
    assert!(binding.tracks(x));
    let cell = binding.capture_cell(&mut t, vec![]);
    assert!(cell != x);
    let tainted = Value::from_backtrace_or_bottom_at(Some(trace("a", 1)), &at(1));
    t.set_value(x, tainted, None);
    assert!(t.symbol(cell).value.backtrace().is_none());
    binding.record_value(&mut t, &vec![]);
    assert_eq!(t.symbol(cell).value.backtrace().unwrap().label().to_text(), "{a}");
}

#[test]
fn writes_on_one_arm_do_not_reach_the_other() {
    let (mut t, x) = table_with("x");
    let mut binding = PerIterationBinding::new(&mut t, x, vec![]);
    let left = binding.capture_cell(&mut t, vec![0]);
    let right = binding.capture_cell(&mut t, vec![1]);
    let tainted = Value::from_backtrace_or_bottom_at(Some(trace("a", 1)), &at(1));
    t.set_value(x, tainted, None);
    binding.record_value(&mut t, &vec![0]);
    assert_eq!(t.symbol(left).value.backtrace().unwrap().label().to_text(), "{a}");
    assert!(t.symbol(right).value.backtrace().is_none());
}

#[test]
fn variables_of_iterations_are_registered_once() {
    let (mut t, x) = table_with("x");
    let mut bindings = PerIterationBindings::new();
    assert!(!bindings.contains(&t, x));
    bindings.register(&mut t, x, vec![]);
    bindings.register(&mut t, x, vec![]);
    assert!(bindings.contains(&t, x));
}

#[test]
fn ranges_are_ordered_within_one_file() {
    assert!(matches!(at(1).precedence(&at(5)), Some(Order::Less)));
    assert!(matches!(at(5).precedence(&at(1)), Some(Order::Greater)));
    assert!(matches!(at(5).precedence(&at(5)), Some(Order::Equal)));
    let other = Pinned::new("/other.go", loc(5));
    assert!(at(5).precedence(&other).is_none());
    let wide = Pinned::new("/main.go", Location { start: 0, end: 10 });
    assert!(at(5).precedence(&wide).is_none());
    assert!(at(5).contained_in(&wide));
    assert!(!wide.contained_in(&at(5)));
    assert_eq!(Pinned::<Location>::fake().file(), "/main.go");
}
