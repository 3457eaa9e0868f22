use glowy::ast::{Node, NodeKind, TypeNode};
use glowy::context::branches::BranchState;
use glowy::context::declarations::SplitRegions;
use glowy::context::loops::LoopStack;
use glowy::context::reports::AnalysisStage;
use glowy::context::AnalysisContext;
use glowy::errors::AnalysisErrorKind;
use glowy::functions::FunctionRef;
use glowy::labels::backtraces::{LabelBacktrace, LabelBacktraceKind};
use glowy::labels::tags::{LabelTag, SyntheticSlot};
use glowy::labels::Label;
use glowy::locations::{Location, Pinned, Span};
use glowy::ordered::{OrderedMap, OrderedSet};
use glowy::policy::blanket_directives::{BlanketDirective, BlanketDirectiveKind};
use glowy::symbols::table::SymbolTable;
use glowy::symbols::Symbol;
use glowy::taint::exprs::literals::{
    try_resolve_named_type_underlying, visit_literal, ElementKey, FieldDecl, LiteralNode,
    MapElement, NamedUnderlying,
};
use glowy::taint::funcs::bodies::{define_function, ReceiverDecl};
use glowy::taint::funcs::call_application::CallCaptureConcretes;
use glowy::taint::funcs::call_checks::are_judgeable;
use glowy::taint::funcs::call_resolution::{Argument, ResolvedCall};
use glowy::taint::funcs::defers::{
    apply_deferred_call, apply_deferred_calls, DeferredCall, PendingCall,
};
use glowy::taint::funcs::definitions::{enter_init_function, leave_init_function, NamedResults};
use glowy::taint::funcs::outcomes::visit_return;
use glowy::taint::funcs::{FunctionSummary, ParamDecl, Signature};
use glowy::taint::implicit::{should_fold_operand, Place};
use glowy::taint::walks::{Action, Walk};
use glowy::values::{PartKey, TypeKind, Value, ValueForm};

fn loc(start: usize) -> Location {
    Location { start, end: start + 1 }
}

fn at(start: usize) -> Pinned<Location> {
    Pinned::new("/main.go", loc(start))
}

fn span(content: &str, start: usize) -> Span {
    Span { content: content.to_owned(), location: loc(start) }
}

fn named(name: &str, start: usize) -> Pinned<Span> {
    Pinned::new("/main.go", span(name, start))
}

fn trace(tag: &str) -> LabelBacktrace {
    LabelBacktrace::new_root(
        LabelBacktraceKind::ExplicitAnnotation,
        Label::from_tags(vec![tag]),
        None,
        at(1),
    )
    .unwrap()
}

fn tainted(tag: &str) -> Value {
    Value::from_backtrace_or_bottom_at(Some(trace(tag)), &at(1))
}

fn clean() -> Value {
    Value::from_backtrace_or_bottom_at(None, &at(1))
}

fn text(v: &Value) -> String {
    match v.backtrace() {
        Some(b) => b.label().to_text(),
        None => "none".to_owned(),
    }
}

fn place() -> Place {
    let mut ctx = AnalysisContext::new();
    ctx.log.set_stage(AnalysisStage::EnforceSecurityPolicies);
    ctx.log.set_current_file("/main.go");
    let mut table = SymbolTable::new();
    table.enter_package(named("app", 0), "app");
    Place {
        ctx,
        table,
        regions: SplitRegions::new(),
        loops: LoopStack::new(),
        active: vec![],
        halted: false,
    }
}

fn signature(results: usize) -> Signature {
    let x = ParamDecl { ids: vec![span("x", 12)], variadic: false, is_function: false };
    Signature { params: vec![x], result_count: results }
}

fn function(name: &str, start: usize) -> FunctionRef {
    FunctionRef::Named(named(name, start))
}

fn define(p: &mut Place, name: &str, start: usize, receiver: Option<&TypeNode>) -> usize {
    define_function(
        &mut p.ctx,
        &mut p.table,
        function(name, start),
        Some(named(name, start)),
        receiver,
        signature(1),
        None,
        vec![],
        vec![None],
        &at(start),
    )
}

fn outcome(p: &Place, f: usize) -> String {
    text(&p.table.function(f).outcome.as_ref().unwrap()[0])
}

#[test]
fn functions_are_declared_once() {
    let mut p = place();
    let first = define(&mut p, "f", 10, None);
    let symbol = p.table.get_symbol("f").unwrap();
    assert!(matches!(p.table.symbol(symbol).value.form, ValueForm::Function(i) if i == first));
    let second = define(&mut p, "f", 10, None);
    assert_ne!(first, second);
    assert_eq!(p.table.get_symbol("f"), Some(symbol));
    assert!(matches!(p.table.symbol(symbol).value.form, ValueForm::Function(i) if i == second));
    assert!(p.ctx.log.take_errors().is_empty());
    define(&mut p, "f", 30, None);
    assert!(matches!(
        p.ctx.log.take_errors()[0].kind,
        AnalysisErrorKind::IllegalRedeclaration { .. }
    ));
}

#[test]
fn methods_are_declared_with_their_types() {
    let mut p = place();
    let receiver = TypeNode::Pointer(Box::new(TypeNode::Name {
        qualified: false,
        id: span("T", 5),
    }));
    define(&mut p, "m", 10, Some(&receiver));
    assert_eq!(p.table.get_symbol("m"), None);
    assert!(p.table.lookup_unique_method_in_current_package("m").is_some());
}

#[test]
fn functions_return_what_their_bodies_do() {
    let mut p = place();
    let func = function("f", 10);
    let f = define(&mut p, "f", 10, None);
    let receiver = ReceiverDecl { id: Some(span("r", 11)), declared_type: None };
    let results = vec![NamedResults { ids: vec![span("y", 13)], declared_type: None }];
    p.open_function(&func, Some(&receiver), &signature(1), &vec![None], &results, &at(10));
    assert!(p.table.get_symbol("r").is_some());
    assert!(p.table.get_symbol("x").is_some());
    assert!(p.ctx.branches.branch_backtrace().is_some());
    let leaves = Node::plain(NodeKind::Return, vec![], vec![], loc(20));
    let body = Node::plain(NodeKind::Block, vec![], vec![leaves], loc(19));
    let mut walk = Walk::through_body(p, &body);
    loop {
        match walk.advance(None, 100) {
            Action::Finish => break,
            Action::Perform(n) => {
                let w = &mut walk.place;
                let given = w.table.symbol(w.table.get_symbol("x").unwrap()).value.clone();
                visit_return(&mut w.ctx, &mut w.table, Some(f), vec![given], false, n.location);
            }
            other => panic!("unexpected {other:?}"),
        }
    }
    let mut p = walk.place;
    let names = vec![span("y", 13)];
    p.prepare_named_result_params_for_defers(f, &names, loc(40));
    let y = p.table.get_symbol("y").unwrap();
    assert!(p.table.symbol(y).value.backtrace().is_some());
    p.table.set_value(y, tainted("late"), None);
    p.close_function(&func, f, &names, loc(40));
    assert!(outcome(&p, f).contains("late"));
    assert!(p.table.get_symbol("x").is_none());
    assert!(p.ctx.branches.branch_backtrace().is_none());
    assert!(p.ctx.funcs.is_empty());
}

#[test]
fn init_functions_depend_on_no_call() {
    let mut p = place();
    enter_init_function(&mut p.ctx, function("init", 10));
    assert_eq!(p.ctx.funcs.len(), 1);
    assert!(p.ctx.branches.branch_backtrace().is_none());
    leave_init_function(&mut p.ctx);
    assert!(p.ctx.funcs.is_empty());
}

#[test]
fn calls_that_were_put_off_depend_on_why() {
    let mut p = place();
    let mut unknown = FunctionSummary::new_unknown(function("g", 10), None, false);
    let value = tainted("arg");
    let hybrid = value.backtrace();
    let call = ResolvedCall {
        as_blackbox: false,
        args: vec![Argument { value, known_const: None, hybrid }],
        method_receiver_value: None,
    };
    let captures =
        CallCaptureConcretes { at_entry: OrderedMap::new(), for_outcome: OrderedMap::new() };
    let deferred =
        DeferredCall { call: 0, captured_branch_backtrace: Some(trace("secret")) };
    let results = apply_deferred_call(
        &mut p.ctx,
        &mut unknown,
        deferred,
        &call,
        None,
        &captures,
        None,
        loc(9),
    );
    assert!(text(&results[0]).contains("arg"));
    assert!(p.ctx.branches.branch_backtrace().is_none());
}

fn pending(func: usize, tag: &str, start: usize) -> PendingCall {
    let value = tainted(tag);
    let hybrid = value.backtrace();
    PendingCall {
        deferred: DeferredCall { call: 0, captured_branch_backtrace: None },
        func,
        call: ResolvedCall {
            as_blackbox: false,
            args: vec![Argument { value, known_const: None, hybrid }],
            method_receiver_value: None,
        },
        annotation: None,
        captures: CallCaptureConcretes {
            at_entry: OrderedMap::new(),
            for_outcome: OrderedMap::new(),
        },
        yield_owner: None,
        location: loc(start),
    }
}

fn denying(tag: &str) -> BlanketDirective {
    BlanketDirective::new(
        BlanketDirectiveKind::DenySink,
        OrderedSet::new(),
        None,
        None,
        Label::from_tags(vec![tag]),
    )
}

#[test]
fn calls_that_were_put_off_last_are_applied_first() {
    let mut p = place();
    let mut sink = FunctionSummary::new_unknown(function("g", 10), None, false);
    sink.absorb_blanket_directives(&vec![denying("secret"), denying("secret")]);
    assert_eq!(sink.directives.len(), 1);
    let mut funcs = vec![sink];
    let calls = vec![pending(0, "secret", 50), pending(0, "other", 60), pending(0, "secret", 70)];
    apply_deferred_calls(&mut p.ctx, &mut funcs, calls);
    let found: Vec<usize> = p
        .ctx
        .log
        .take_errors()
        .iter()
        .map(|e| match &e.kind {
            AnalysisErrorKind::InsecureFlow { sink, .. } => sink.location.start,
            other => panic!("unexpected {other:?}"),
        })
        .collect();
    assert_eq!(found, vec![70, 50]);
}

#[test]
fn called_functions_carry_what_the_values_do() {
    let mut p = place();
    let f = p.table.add_function(FunctionSummary::new_unknown(function("g", 10), None, false));
    let value = Value::new(ValueForm::Function(f), Some(trace("a")), at(1), None, vec![]);
    let called = p.table.callee(&value).unwrap();
    assert_eq!(called.own.unwrap().label().to_text(), "{a}");
    assert!(p.table.function(f).own.is_none());
    assert!(p.table.callee(&tainted("a")).is_none());
    let missing = Value::new(ValueForm::Function(f + 1), None, at(1), None, vec![]);
    assert!(p.table.callee(&missing).is_none());
}

#[test]
fn flows_that_depend_on_calls_are_judged_there() {
    let mut p = place();
    let open = LabelBacktrace::new_root(
        LabelBacktraceKind::FunctionParameter,
        Label::from_single(LabelTag::Synthetic {
            func: function("f", 10),
            slot: SyntheticSlot::Param(0),
            identifier: None,
        }),
        None,
        at(1),
    );
    let flows = vec![Some(trace("a")), open];
    assert!(!are_judgeable(&p.ctx, &flows));
    assert!(are_judgeable(&p.ctx, &vec![Some(trace("a")), None]));
    p.ctx.push_function(function("f", 10));
    assert!(are_judgeable(&p.ctx, &flows));
}

#[test]
fn only_what_can_be_written_to_is_folded() {
    let mut p = place();
    let mut branches = BranchState::new();
    assert!(!should_fold_operand(&branches, &p.table, Some("c")));
    branches.push_branch_backtrace(trace("secret"));
    assert!(should_fold_operand(&branches, &p.table, Some("c")));
    assert!(!should_fold_operand(&branches, &p.table, None));
    let id = p.table.add_symbol(Symbol {
        declared_name: named("c", 10),
        mutable: false,
        value: clean(),
        known_const: None,
    });
    p.table.declare_new_symbol("c", id);
    assert!(!should_fold_operand(&branches, &p.table, Some("c")));
}

#[test]
fn literals_are_made_of_their_elements() {
    let mut p = place();
    let log = &mut p.ctx.log;
    let basic = visit_literal(log, LiteralNode::Basic, at(1), None);
    assert!(basic.backtrace().is_none());
    let array = visit_literal(
        log,
        LiteralNode::Array(vec![
            (ElementKey::Default, clean()),
            (ElementKey::Default, tainted("a")),
            (ElementKey::Known(7), tainted("b")),
        ]),
        at(1),
        None,
    );
    assert_eq!(text(&array.get_at_key(Some(&PartKey::Index(1)), &at(2))), "{a}");
    assert_eq!(text(&array.get_at_key(Some(&PartKey::Index(7)), &at(2))), "{b}");
    assert_eq!(text(&array), "{a, b}");
    let map = visit_literal(
        log,
        LiteralNode::Mapping(vec![MapElement {
            key_const: Some("k".to_owned()),
            key_value: None,
            value: tainted("a"),
        }]),
        at(1),
        None,
    );
    assert_eq!(text(&map.get_at_key(Some(&PartKey::Text("k".to_owned())), &at(2))), "{a}");
    let twice = visit_literal(
        log,
        LiteralNode::KeyedStruct(vec![
            (Some(span("user", 3)), tainted("a")),
            (Some(span("user", 4)), tainted("b")),
        ]),
        at(1),
        None,
    );
    assert!(matches!(twice.form, ValueForm::Struct));
    assert!(matches!(
        log.take_errors()[0].kind,
        AnalysisErrorKind::DuplicateStructFieldName { .. }
    ));
    let decls = vec![FieldDecl::Explicit(vec![Some(span("user", 3)), None])];
    let listed = visit_literal(
        log,
        LiteralNode::ListedStruct(Some(decls), vec![tainted("a"), tainted("pad")]),
        at(1),
        None,
    );
    assert_eq!(text(&listed), "{a}");
    let unknown = visit_literal(
        log,
        LiteralNode::ListedStruct(None, vec![tainted("a"), tainted("b")]),
        at(1),
        None,
    );
    assert_eq!(text(&unknown), "{a, b}");
}

#[test]
fn named_types_lead_to_kinds() {
    let mut types: OrderedMap<String, NamedUnderlying> = OrderedMap::new();
    types.insert("A".to_owned(), NamedUnderlying::Name("B".to_owned()));
    types.insert("B".to_owned(), NamedUnderlying::Name("C".to_owned()));
    types.insert("C".to_owned(), NamedUnderlying::Kind(TypeKind::Mapping));
    types.insert("D".to_owned(), NamedUnderlying::Name("E".to_owned()));
    assert_eq!(try_resolve_named_type_underlying(&types, "A"), Some(TypeKind::Mapping));
    assert_eq!(try_resolve_named_type_underlying(&types, "D"), None);
}

#[test]
fn packages_have_snapshots_of_their_own() {
    let mut p = place();
    define(&mut p, "f", 10, None);
    let before = p.table.snapshot_per_package();
    assert!(before.get(&"app".to_owned()).is_some());
    assert!(before.get(&"fmt".to_owned()).is_none());
    let again = p.table.snapshot_per_package();
    let key = "app".to_owned();
    assert!(before.get(&key).unwrap().same_as(again.get(&key).unwrap()));
    define(&mut p, "g", 20, None);
    let later = p.table.snapshot_per_package();
    assert!(!before.get(&key).unwrap().same_as(later.get(&key).unwrap()));
}
