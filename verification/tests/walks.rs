use glowy::ast::{Node, NodeKind};
use glowy::context::declarations::SplitRegions;
use glowy::context::loops::LoopStack;
use glowy::context::reports::AnalysisStage;
use glowy::context::AnalysisContext;
use glowy::errors::AnalysisErrorKind;
use glowy::labels::backtraces::{LabelBacktrace, LabelBacktraceKind};
use glowy::labels::Label;
use glowy::locations::{Location, Pinned, Span};
use glowy::symbols::table::SymbolTable;
use glowy::policy::{SinkDescriptor, SinkKind};
use glowy::taint::enforcement::trigger_sink;
use glowy::taint::explicit::{visit_assignment_with, visit_short_var_decl_with};
use glowy::taint::implicit::Place;
use glowy::taint::mutation::LeftValue;
use glowy::taint::walks::{Action, Walk};
use glowy::values::Value;

fn loc(start: usize) -> Location {
    Location { start, end: start + 1 }
}

fn span(content: &str) -> Span {
    Span { content: content.to_owned(), location: loc(1) }
}

fn trace(tag: &str) -> Option<LabelBacktrace> {
    LabelBacktrace::new_root(
        LabelBacktraceKind::ExplicitAnnotation,
        Label::from_tags(vec![tag]),
        None,
        Pinned::new("/main.go", loc(1)),
    )
}

fn place() -> Place {
    let mut ctx = AnalysisContext::new();
    ctx.log.set_stage(AnalysisStage::EnforceSecurityPolicies);
    ctx.log.set_current_file("/main.go");
    let mut table = SymbolTable::new();
    table.enter_package(Pinned::new("/main.go", span("app")), "app");
    Place {
        ctx,
        table,
        regions: SplitRegions::new(),
        loops: LoopStack::new(),
        active: vec![],
        halted: false,
    }
}

fn node(kind: NodeKind, name: Option<&str>, children: Vec<Node>) -> Node {
    Node::plain(kind, name.into_iter().map(span).collect(), children, loc(3))
}

fn expr(name: &str) -> Node {
    node(NodeKind::Name, Some(name), vec![])
}

fn eval(name: &str) -> Node {
    node(NodeKind::Evaluation, Some(name), vec![])
}

fn block(children: Vec<Node>) -> Node {
    node(NodeKind::Block, None, children)
}

fn clause(children: Vec<Node>) -> Node {
    node(NodeKind::Clause, None, children)
}

fn loop_kind(has_init: bool, has_post: bool) -> NodeKind {
    NodeKind::For { has_init, has_post, header: loc(7) }
}

fn name(node: &Node) -> String {
    match node.names.first() {
        Some(s) => s.content.clone(),
        None => "?".to_owned(),
    }
}

// Goes through a tree, in which names stand for flows with tags of that name
// when they begin with `s`, and gives what is asked for and under which branch.
fn follow<'a>(walk: &mut Walk<'a>) -> Vec<String> {
    let mut seen = vec![];
    let mut answer = None;
    loop {
        let action = walk.advance(answer, 1000);
        answer = None;
        let (kind, at) = match action {
            Action::Finish => return seen,
            Action::Nothing => panic!("too many steps"),
            Action::Evaluate(n) => ("evaluate", n),
            Action::Bind(n) => ("bind", n),
            Action::Perform(n) => ("perform", n),
            Action::PrepareRange(n) => ("prepare range", n),
            Action::DeriveRange(n) => ("derive range", n),
            Action::BindRange(n) => ("bind range", n),
            Action::Prepare(n) => ("prepare", n),
            Action::Communicate(n) => ("communicate", n),
        };
        let text = name(at);
        if text.starts_with('s') {
            answer = trace(&text);
        }
        let branch = match walk.place.ctx.branches.branch_backtrace() {
            Some(b) => b.label().to_text(),
            None => "{}".to_owned(),
        };
        seen.push(format!("{kind} {text} under {branch}"));
    }
}

fn errors(walk: &mut Walk<'_>) -> Vec<AnalysisErrorKind> {
    walk.place.ctx.log.take_errors().into_iter().map(|e| e.kind).collect()
}

#[test]
fn walks_visit_statements_in_order() {
    let body = block(vec![eval("a"), block(vec![eval("b")]), eval("c")]);
    let mut walk = Walk::through(place(), &body);
    assert_eq!(
        follow(&mut walk),
        vec!["perform a under {}", "perform b under {}", "perform c under {}"]
    );
    assert!(errors(&mut walk).is_empty());
}

#[test]
fn walks_visit_both_arms_under_their_condition() {
    let tree = node(
        NodeKind::If { has_init: true },
        None,
        vec![eval("i"), expr("secret"), block(vec![eval("a")]), block(vec![eval("b")])],
    );
    let body = block(vec![tree, eval("c")]);
    let mut walk = Walk::through(place(), &body);
    assert_eq!(
        follow(&mut walk),
        vec![
            "perform i under {}",
            "evaluate secret under {}",
            "perform a under {secret}",
            "perform b under {secret}",
            "perform c under {}",
        ]
    );
}

#[test]
fn walks_try_loops_until_nothing_changes() {
    let tree = node(
        loop_kind(true, true),
        None,
        vec![eval("i"), expr("secret"), eval("p"), block(vec![eval("a")])],
    );
    let mut walk = Walk::through(place(), &tree);
    assert_eq!(
        follow(&mut walk),
        vec![
            "perform i under {}",
            "evaluate secret under {}",
            "perform a under {secret}",
            "perform p under {secret}",
            "evaluate secret under {}",
            "evaluate secret under {}",
            "perform a under {secret}",
            "perform p under {secret}",
        ]
    );
}

#[test]
fn only_the_last_visit_of_a_loop_is_reported() {
    let tree = node(
        loop_kind(false, false),
        None,
        vec![block(vec![node(NodeKind::Fallthrough, None, vec![])])],
    );
    let mut walk = Walk::through(place(), &tree);
    follow(&mut walk);
    assert_eq!(errors(&mut walk).len(), 1);
}

#[test]
fn early_ends_of_iterations_show_in_the_next_ones() {
    let guarded = node(
        NodeKind::If { has_init: false },
        None,
        vec![expr("secret"), block(vec![node(NodeKind::Continue, None, vec![])])],
    );
    let tree = node(loop_kind(false, false), None, vec![block(vec![eval("a"), guarded])]);
    let body = block(vec![tree, eval("b")]);
    let mut walk = Walk::through(place(), &body);
    let seen = follow(&mut walk);
    assert_eq!(seen.first().unwrap(), "perform a under {}");
    assert_eq!(seen[seen.len() - 3], "perform a under {secret}");
    assert_eq!(seen.last().unwrap(), "perform b under {}");
}

#[test]
fn walks_go_through_ranges() {
    let header = node(NodeKind::RangeDecl, Some("secrets"), vec![expr("xs")]);
    let tree = node(loop_kind(false, false), None, vec![header, block(vec![eval("a")])]);
    let mut walk = Walk::through(place(), &tree);
    assert_eq!(
        follow(&mut walk),
        vec![
            "prepare range secrets under {}",
            "derive range secrets under {}",
            "bind range secrets under {secrets}",
            "perform a under {secrets}",
            "derive range secrets under {}",
            "bind range secrets under {secrets}",
            "perform a under {secrets}",
        ]
    );
}

#[test]
fn walks_visit_clauses_under_those_before_them() {
    let fallthrough = node(NodeKind::Fallthrough, None, vec![]);
    let tree = node(
        NodeKind::Switch { has_init: false, on_types: false },
        None,
        vec![
            expr("tag"),
            clause(vec![expr("secret"), expr("x"), block(vec![eval("a"), fallthrough])]),
            clause(vec![block(vec![eval("b")])]),
        ],
    );
    let body = block(vec![tree, eval("c")]);
    let mut walk = Walk::through(place(), &body);
    assert_eq!(
        follow(&mut walk),
        vec![
            "evaluate tag under {}",
            "evaluate secret under {}",
            "evaluate x under {}",
            "perform a under {secret}",
            "perform b under {secret}",
            "perform c under {}",
        ]
    );
    assert!(errors(&mut walk).is_empty());
}

#[test]
fn choices_between_types_do_not_fall_through() {
    let fallthrough = node(NodeKind::Fallthrough, None, vec![]);
    let tree = node(
        NodeKind::Switch { has_init: false, on_types: true },
        None,
        vec![
            node(NodeKind::SwitchBinding, Some("secret"), vec![expr("x")]),
            clause(vec![block(vec![fallthrough])]),
        ],
    );
    let mut walk = Walk::through(place(), &tree);
    assert_eq!(follow(&mut walk), vec!["bind secret under {}"]);
    let found = errors(&mut walk);
    assert!(matches!(found[0], AnalysisErrorKind::UnexpectedFallthrough { .. }));
}

#[test]
fn all_clauses_of_a_select_depend_on_what_is_ready() {
    let send = node(NodeKind::Send, Some("secret"), vec![expr("c"), expr("x")]);
    let illegal = node(NodeKind::Empty, None, vec![]);
    let tree = node(
        NodeKind::Select,
        None,
        vec![
            clause(vec![send, block(vec![eval("a")])]),
            clause(vec![illegal, block(vec![eval("never")])]),
            clause(vec![block(vec![eval("b")])]),
        ],
    );
    let body = block(vec![tree, eval("c")]);
    let mut walk = Walk::through(place(), &body);
    assert_eq!(
        follow(&mut walk),
        vec![
            "prepare secret under {}",
            "communicate secret under {secret}",
            "perform a under {secret}",
            "perform b under {secret}",
            "perform c under {}",
        ]
    );
    let found = errors(&mut walk);
    assert!(matches!(found[0], AnalysisErrorKind::IllegalSelectCase { .. }));
}

#[test]
fn functions_with_jumps_are_tried_until_nothing_changes() {
    let jump = node(
        NodeKind::If { has_init: false },
        None,
        vec![expr("secret"), block(vec![node(NodeKind::Goto, Some("again"), vec![])])],
    );
    let target = node(NodeKind::Labeled, Some("again"), vec![eval("a")]);
    let body = block(vec![target, jump]);
    let mut walk = Walk::through_body(place(), &body);
    let seen = follow(&mut walk);
    assert_eq!(seen[0], "perform a under {}");
    assert_eq!(seen[seen.len() - 2], "perform a under {secret}");
    assert!(walk.place.ctx.branches.branch_backtrace().is_none());
}

#[test]
fn what_cannot_be_reached_is_reported_and_left_out() {
    let body = block(vec![
        node(NodeKind::Return, Some("r"), vec![]),
        eval("a"),
        node(NodeKind::Go, None, vec![expr("f")]),
        node(NodeKind::Defer, None, vec![expr("g")]),
    ]);
    let mut walk = Walk::through(place(), &body);
    assert_eq!(follow(&mut walk), vec!["perform r under {}", "evaluate g under {}"]);
    let found = errors(&mut walk);
    assert!(matches!(found[0], AnalysisErrorKind::Unreachable { .. }));
    assert!(matches!(found[1], AnalysisErrorKind::GoNotCall { .. }));
    assert!(matches!(found[2], AnalysisErrorKind::DeferNotCall { .. }));
}

#[test]
fn labeled_breaks_last_until_their_statement_ends() {
    let leave = node(NodeKind::Break, Some("outer"), vec![]);
    let guarded = node(
        NodeKind::If { has_init: false },
        None,
        vec![expr("secret"), block(vec![leave])],
    );
    let inner = node(loop_kind(false, false), None, vec![block(vec![guarded])]);
    let outer = node(loop_kind(false, false), None, vec![block(vec![inner, eval("a")])]);
    let labeled = node(NodeKind::Labeled, Some("outer"), vec![outer]);
    let body = block(vec![labeled, eval("b")]);
    let mut walk = Walk::through(place(), &body);
    let seen = follow(&mut walk);
    assert_eq!(seen[seen.len() - 2], "perform a under {secret}");
    assert_eq!(seen[seen.len() - 1], "perform b under {}");
}

#[test]
fn conditions_leak_through_variables() {
    let guarded = node(
        NodeKind::If { has_init: false },
        None,
        vec![expr("secret"), block(vec![eval("assign")])],
    );
    let body = block(vec![eval("declare"), guarded, eval("print")]);
    let mut walk = Walk::through(place(), &body);
    let clean = || Value::from_backtrace_or_bottom_at(None, &Pinned::new("/main.go", loc(1)));
    let mut answer = None;
    loop {
        let action = walk.advance(answer, 1000);
        answer = None;
        let performed = match action {
            Action::Finish => break,
            Action::Evaluate(n) => {
                answer = trace(&name(n));
                continue;
            }
            Action::Perform(n) => name(n),
            other => panic!("unexpected {other:?}"),
        };
        let p = &mut walk.place;
        if performed == "declare" {
            visit_short_var_decl_with(
                &mut p.ctx,
                &mut p.table,
                &vec![span("odd")],
                vec![(clean(), None)],
                loc(2),
                None,
                &p.regions,
            );
        } else if performed == "assign" {
            let lefts = vec![LeftValue {
                symbol: p.table.get_symbol("odd").unwrap(),
                name: span("odd"),
                path: vec![],
            }];
            visit_assignment_with(
                &mut p.ctx,
                &mut p.table,
                true,
                &lefts,
                vec![(clean(), None)],
                None,
                loc(5),
                &p.regions,
            );
        } else {
            let sink =
                SinkDescriptor::new(SinkKind::Call, false, vec!["secret"], loc(9)).unwrap();
            let value = &p.table.symbol(p.table.get_symbol("odd").unwrap()).value;
            let flow = value.backtrace();
            trigger_sink(&mut p.ctx, &sink, flow);
        }
    }
    let found = errors(&mut walk);
    assert_eq!(found.len(), 1);
    assert!(matches!(found[0], AnalysisErrorKind::InsecureFlow { .. }));
}
