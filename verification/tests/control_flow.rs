use glowy::ast::{Annotation, Node, NodeKind};
use glowy::context::branches::{BranchState, DeferTarget};
use glowy::context::declarations::SplitRegions;
use glowy::context::loops::LoopStack;
use glowy::context::reports::AnalysisStage;
use glowy::context::AnalysisContext;
use glowy::errors::AnalysisErrorKind;
use glowy::functions::FunctionRef;
use glowy::labels::backtraces::{LabelBacktrace, LabelBacktraceKind};
use glowy::labels::tags::{LabelTag, SyntheticSlot};
use glowy::labels::Label;
use glowy::locations::{Location, Pinned, Span};
use glowy::ordered::OrderedSet;
use glowy::symbols::table::SymbolTable;
use glowy::taint::channels::selects::{derive_readiness_branch, extract_select_case, SelectCase};
use glowy::taint::funcs::ParamDecl;
use glowy::taint::goto::{block_contains_goto, GotoConvergenceState};
use glowy::taint::implicit::{
    bind_switch_value, clause_body_length, derive_current_for_range_operand, enter_clause,
    extract_iter_yield_count, fold_ranged_channel, get_for_range_values,
    get_iter_function_range_values, is_integer_call, visit_break, visit_continue, Place,
};
use glowy::taint::statements::{
    disallows_subsequent_statements, plan_statements, report_unreachable, visit_evaluation,
    StatementPlan,
};
use glowy::values::{PartKey, Value, ValueForm};

fn loc(start: usize) -> Location {
    Location { start, end: start + 1 }
}

fn at(start: usize) -> Pinned<Location> {
    Pinned::new("/main.go", loc(start))
}

fn span(content: &str, start: usize) -> Span {
    Span { content: content.to_owned(), location: loc(start) }
}

fn trace(tag: &str) -> LabelBacktrace {
    LabelBacktrace::new_root(
        LabelBacktraceKind::ExplicitAnnotation,
        Label::from_tags(vec![tag]),
        None,
        at(1),
    )
    .unwrap()
}

fn tainted(tag: &str) -> Value {
    Value::from_backtrace_or_bottom_at(Some(trace(tag)), &at(1))
}

fn clean() -> Value {
    Value::from_backtrace_or_bottom_at(None, &at(1))
}

fn text(v: &Value) -> String {
    match v.backtrace() {
        Some(b) => b.label().to_text(),
        None => "none".to_owned(),
    }
}

fn current(b: &BranchState) -> String {
    match b.branch_backtrace() {
        Some(t) => t.label().to_text(),
        None => "none".to_owned(),
    }
}

fn empty(form: ValueForm) -> Value {
    Value::new(form, None, at(0), None, vec![])
}

fn place() -> Place {
    let mut ctx = AnalysisContext::new();
    ctx.log.set_current_file("/main.go");
    let mut table = SymbolTable::new();
    table.enter_package(Pinned::new("/main.go", span("app", 0)), "app");
    Place {
        ctx,
        table,
        regions: SplitRegions::new(),
        loops: LoopStack::new(),
        active: vec![],
        halted: false,
    }
}

fn statement(kind: NodeKind, names: Vec<&str>, children: Vec<Node>) -> Node {
    Node::plain(kind, names.into_iter().map(|n| span(n, 3)).collect(), children, loc(3))
}

#[test]
fn both_arms_of_a_condition_depend_on_it() {
    let mut p = place();
    p.begin_if(Location { start: 10, end: 50 });
    let entered = p.decide_if(Some(trace("secret")), loc(12));
    assert!(entered);
    assert_eq!(current(&p.ctx.branches), "{secret}");
    assert_eq!(p.regions.was_declared_within(&at(20)), Some(true));
    p.end_if(entered);
    assert_eq!(current(&p.ctx.branches), "none");
    assert_eq!(p.regions.was_declared_within(&at(20)), None);
}

#[test]
fn conditions_without_taint_enter_no_branch() {
    let mut p = place();
    p.begin_if(loc(10));
    let entered = p.decide_if(None, loc(12));
    assert!(!entered);
    assert_eq!(current(&p.ctx.branches), "none");
    p.end_if(entered);
}

#[test]
fn conditions_have_scopes_of_their_own() {
    let mut p = place();
    p.begin_if(loc(10));
    bind_switch_value(&mut p.ctx, &mut p.table, &span("x", 11), clean());
    assert!(p.table.get_symbol("x").is_some());
    p.end_if(false);
    assert!(p.table.get_symbol("x").is_none());
}

#[test]
fn loops_are_visited_until_nothing_changes() {
    let mut p = place();
    p.enter_scope();
    p.begin_for(loc(10), None);
    let checkpoint = p.ctx.branches.checkpoint_deferred_state();
    let mut visits = 0;
    loop {
        let begun = p.begin_iteration();
        let header = Some(trace("n"));
        if p.loops.is_innermost_stable(&header) {
            p.end_iteration(false, begun);
            break;
        }
        let entered = p.enter_iteration(&header, loc(11));
        visits += 1;
        if visits == 1 {
            assert_eq!(current(&p.ctx.branches), "{n}");
        } else {
            assert_eq!(current(&p.ctx.branches), "{n, secret}");
        }
        p.ctx.branches.push_branch_backtrace(trace("secret"));
        visit_continue(&mut p.ctx.branches, &mut p.loops, None, at(13));
        p.ctx.branches.pop_branch_backtrace();
        p.end_iteration(entered, begun);
        p.repeat_loop(header, &checkpoint);
    }
    assert_eq!(visits, 2);
    p.end_for();
    assert_eq!(current(&p.ctx.branches), "none");
}

#[test]
fn statements_behind_a_break_depend_on_why_it_was_reached() {
    let mut p = place();
    p.enter_scope();
    p.begin_for(loc(10), None);
    p.ctx.branches.push_branch_backtrace(trace("secret"));
    visit_break(&mut p.ctx.branches, None, at(13));
    p.ctx.branches.pop_branch_backtrace();
    assert_eq!(current(&p.ctx.branches), "{secret}");
    p.end_for();
    assert_eq!(current(&p.ctx.branches), "none");
}

#[test]
fn labeled_breaks_wait_for_their_label() {
    let mut p = place();
    p.enter_scope();
    p.begin_for(loc(10), Some("outer".to_owned()));
    p.enter_scope();
    p.begin_for(loc(20), None);
    p.ctx.branches.push_branch_backtrace(trace("secret"));
    visit_break(&mut p.ctx.branches, Some(&span("outer", 21)), at(22));
    p.ctx.branches.pop_branch_backtrace();
    p.end_for();
    assert_eq!(current(&p.ctx.branches), "{secret}");
    p.end_for();
    p.ctx.branches.trigger_defer_target(DeferTarget::LabeledBreakable("outer".to_owned()));
    assert_eq!(current(&p.ctx.branches), "none");
}

#[test]
fn later_clauses_depend_on_earlier_ones() {
    let mut p = place();
    p.begin_switch(Location { start: 10, end: 50 });
    let first = enter_clause(&mut p.ctx.branches, &vec![Some(trace("a")), None], at(12));
    assert!(first);
    assert_eq!(current(&p.ctx.branches), "{a}");
    let none = enter_clause(&mut p.ctx.branches, &vec![None], at(14));
    assert!(!none);
    let second = enter_clause(&mut p.ctx.branches, &vec![Some(trace("b"))], at(16));
    assert!(second);
    assert_eq!(current(&p.ctx.branches), "{a, b}");
    p.end_switch(2);
    assert_eq!(current(&p.ctx.branches), "none");
}

#[test]
fn fallthrough_is_no_statement_of_its_clause() {
    let body = vec![
        statement(NodeKind::Empty, vec![], vec![]),
        statement(NodeKind::Fallthrough, vec![], vec![]),
    ];
    assert_eq!(clause_body_length(&body), 1);
    assert_eq!(clause_body_length(&vec![statement(NodeKind::Empty, vec![], vec![])]), 1);
    assert_eq!(clause_body_length(&vec![]), 0);
}

#[test]
fn ranges_give_positions_and_elements() {
    let mut slice = empty(ValueForm::Slice);
    slice.set_at_key(ValueForm::Slice, Some(PartKey::Index(0)), tainted("a"), None, &at(2));
    let values = get_for_range_values(&slice, false, &at(5));
    assert_eq!(values.len(), 2);
    assert_eq!(text(&values[1]), "{a}");
    assert_eq!(get_for_range_values(&tainted("n"), true, &at(5)).len(), 1);
    let both = get_for_range_values(&tainted("s"), false, &at(5));
    assert_eq!(both.len(), 2);
    assert_eq!(text(&both[0]), "{s}");
    assert_eq!(get_for_range_values(&empty(ValueForm::Channel), false, &at(5)).len(), 1);
}

#[test]
fn iterators_give_what_they_yield() {
    let func = FunctionRef::Named(Pinned::new("/main.go", span("seq", 0)));
    let called = tainted("call");
    let none = get_iter_function_range_values(&called, 0, &vec![], &func, None, &at(5));
    assert_eq!(none.len(), 1);
    assert_eq!(text(&none[0]), "{call}");
    let unknown = get_iter_function_range_values(&called, 2, &vec![], &func, None, &at(5));
    assert_eq!(unknown.len(), 2);
    let branch = LabelBacktrace::new_root(
        LabelBacktraceKind::Branch,
        Label::from_single(LabelTag::Synthetic {
            func: FunctionRef::Named(Pinned::new("/main.go", span("seq", 0))),
            slot: SyntheticSlot::CallSiteBranch,
            identifier: None,
        }),
        None,
        at(1),
    );
    let secret = trace("secret");
    let yielded = get_iter_function_range_values(
        &called,
        2,
        &vec![branch, Some(trace("y"))],
        &func,
        Some(&secret),
        &at(5),
    );
    assert_eq!(text(&yielded[0]), "{secret}");
    assert_eq!(text(&yielded[1]), "{y}");
}

#[test]
fn iterators_are_recognized_by_their_parameter() {
    let p = ParamDecl { ids: vec![span("yield", 1)], variadic: false, is_function: true };
    assert_eq!(extract_iter_yield_count(Some(&p), 2, Some("bool")), Some(2));
    assert_eq!(extract_iter_yield_count(Some(&p), 2, Some("int")), None);
    assert_eq!(extract_iter_yield_count(Some(&p), 2, None), None);
    assert_eq!(extract_iter_yield_count(None, 2, Some("bool")), None);
    let plain = ParamDecl { ids: vec![span("n", 1)], variadic: false, is_function: false };
    assert_eq!(extract_iter_yield_count(Some(&plain), 2, Some("bool")), None);
}

#[test]
fn lengths_are_numbers_unless_shadowed() {
    let mut p = place();
    assert!(is_integer_call(&p.table, "len"));
    assert!(!is_integer_call(&p.table, "print"));
    bind_switch_value(&mut p.ctx, &mut p.table, &span("len", 11), clean());
    assert!(!is_integer_call(&p.table, "len"));
}

#[test]
fn ranged_maps_may_change_on_the_way() {
    let r = derive_current_for_range_operand(&tainted("a"), Some(&tainted("b")), &at(5));
    assert_eq!(text(&r), "{a, b}");
    assert_eq!(text(&derive_current_for_range_operand(&tainted("a"), None, &at(5))), "{a}");
}

#[test]
fn ranged_channels_show_under_which_conditions_they_are_used() {
    let mut b = BranchState::new();
    b.push_branch_backtrace(trace("branch"));
    assert_eq!(text(&fold_ranged_channel(&b, empty(ValueForm::Channel), &at(5))), "{branch}");
    assert_eq!(text(&fold_ranged_channel(&b, empty(ValueForm::Slice), &at(5))), "none");
}

#[test]
fn jumps_end_their_blocks() {
    for kind in [NodeKind::Return, NodeKind::Break, NodeKind::Continue, NodeKind::Goto] {
        let jump = statement(kind, vec![], vec![]);
        assert!(disallows_subsequent_statements(&jump));
        let block = statement(NodeKind::Block, vec![], vec![jump]);
        assert!(disallows_subsequent_statements(&block));
    }
    assert!(!disallows_subsequent_statements(&statement(NodeKind::Empty, vec![], vec![])));
}

#[test]
fn unreachable_statements_are_reported_once() {
    let nodes = vec![
        statement(NodeKind::Return, vec![], vec![]),
        statement(NodeKind::Empty, vec![], vec![]),
        statement(NodeKind::Empty, vec![], vec![]),
    ];
    let none: OrderedSet<String> = OrderedSet::new();
    let plans = plan_statements(&nodes, &none);
    assert!(matches!(plans[0], StatementPlan::Visit));
    assert!(matches!(plans[1], StatementPlan::Unreachable));
    let mut ctx = AnalysisContext::new();
    ctx.log.set_current_file("/main.go");
    report_unreachable(&mut ctx.log, &nodes, &plans);
    let errors = ctx.log.take_errors();
    assert_eq!(errors.len(), 1);
    assert!(matches!(errors[0].kind, AnalysisErrorKind::Unreachable { .. }));
}

#[test]
fn assertions_hold_of_values() {
    let mut ctx = AnalysisContext::new();
    ctx.log.set_current_file("/main.go");
    ctx.log.set_stage(AnalysisStage::EnforceSecurityPolicies);
    let assertion = Annotation {
        directive: "assert".to_owned(),
        tags: vec!["secret".to_owned()],
        location: loc(1),
    };
    visit_evaluation(&mut ctx, &vec![Some(trace("secret"))], Some(&assertion), loc(2));
    assert!(ctx.log.take_errors().is_empty());
    visit_evaluation(&mut ctx, &vec![Some(trace("other"))], Some(&assertion), loc(2));
    assert!(matches!(ctx.log.take_errors()[0].kind, AnalysisErrorKind::FalseAssertion { .. }));
    visit_evaluation(&mut ctx, &vec![], Some(&assertion), loc(2));
    assert!(matches!(
        ctx.log.take_errors()[0].kind,
        AnalysisErrorKind::UnexpectedVoidExpression { .. }
    ));
    let label = Annotation { directive: "label".to_owned(), tags: vec![], location: loc(1) };
    visit_evaluation(&mut ctx, &vec![], Some(&label), loc(2));
    assert!(matches!(
        ctx.log.take_errors()[0].kind,
        AnalysisErrorKind::UnknownAnnotationDirective { .. }
    ));
}

#[test]
fn targets_of_jumps_are_reachable() {
    let nodes = vec![
        statement(NodeKind::Return, vec![], vec![]),
        statement(
            NodeKind::Labeled,
            vec!["again"],
            vec![statement(NodeKind::Empty, vec![], vec![])],
        ),
    ];
    let mut targets: OrderedSet<String> = OrderedSet::new();
    targets.insert("again".to_owned());
    assert!(matches!(plan_statements(&nodes, &targets)[1], StatementPlan::Visit));
}

#[test]
fn jumps_are_found_in_nested_statements() {
    let jump = statement(NodeKind::Goto, vec!["again"], vec![]);
    let block = statement(
        NodeKind::Block,
        vec![],
        vec![statement(NodeKind::Block, vec![], vec![jump])],
    );
    assert!(block_contains_goto(&block));
    assert!(!block_contains_goto(&statement(NodeKind::Block, vec![], vec![])));
}

#[test]
fn labels_depend_on_why_they_are_jumped_to() {
    let mut b = BranchState::new();
    let mut s = GotoConvergenceState::new();
    b.push_branch_backtrace(trace("secret"));
    s.visit_goto(&b, "again", &at(5));
    b.pop_branch_backtrace();
    assert!(!s.is_label_targeted("again"));
    assert!(!s.advance());
    assert!(s.is_label_targeted("again"));
    s.visit_label_in_goto_context(&mut b, "again");
    assert_eq!(current(&b), "{secret}");
    s.pop_goto_branch_backtraces(&mut b);
    assert_eq!(current(&b), "none");
    b.push_branch_backtrace(trace("secret"));
    s.visit_goto(&b, "again", &at(5));
    assert!(s.advance());
}

#[test]
fn clauses_wait_for_channels() {
    let mut ctx = AnalysisContext::new();
    ctx.log.set_current_file("/main.go");
    let channel = statement(NodeKind::Name, vec!["c"], vec![]);
    let send = statement(
        NodeKind::Send,
        vec![],
        vec![channel, statement(NodeKind::Name, vec!["x"], vec![])],
    );
    assert!(matches!(extract_select_case(&mut ctx.log, &send), SelectCase::Send));
    assert!(ctx.log.take_errors().is_empty());
    let other = statement(NodeKind::Empty, vec![], vec![]);
    assert!(matches!(extract_select_case(&mut ctx.log, &other), SelectCase::Illegal));
    assert!(matches!(ctx.log.take_errors()[0].kind, AnalysisErrorKind::IllegalSelectCase { .. }));
}

#[test]
fn payloads_do_not_decide_what_is_selected() {
    let mut used = empty(ValueForm::Channel);
    used.own = Some(trace("use"));
    let mut filled = empty(ValueForm::Channel);
    filled.set_at_key(ValueForm::Channel, None, tainted("payload"), None, &at(3));
    let branch = derive_readiness_branch(&vec![used, filled], &at(5)).unwrap();
    assert_eq!(branch.label().to_text(), "{use}");
    assert!(derive_readiness_branch(&vec![empty(ValueForm::Channel)], &at(5)).is_none());
}
