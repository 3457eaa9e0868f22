use glowy::analyzer::Analyzer;
use glowy::ast::{FileOutlineNode, FunctionShape, Node, NodeKind, SourceFileNode};
use glowy::context::declarations::SplitRegions;
use glowy::context::loops::LoopStack;
use glowy::context::reports::AnalysisStage;
use glowy::context::AnalysisContext;
use glowy::errors::AnalysisErrorKind;
use glowy::locations::{Location, Pinned, Span};
use glowy::symbols::table::SymbolTable;
use glowy::taint::funcs::Signature;
use glowy::taint::implicit::Place;
use glowy::taint::visits::exprs::visit_expr;
use glowy::taint::visits::files::visit_source_file;
use glowy::taint::visits::performing::perform;
use glowy::taint::visits::resolution::visit_call;
use glowy::taint::visits::{Env, TypeDecl};

fn loc(start: usize) -> Location {
    Location { start, end: start + 1 }
}

fn span(content: &str, start: usize) -> Span {
    Span { content: content.to_owned(), location: loc(start) }
}

fn place() -> Place {
    let mut ctx = AnalysisContext::new();
    ctx.log.set_stage(AnalysisStage::EnforceSecurityPolicies);
    ctx.log.set_current_file("/main.go");
    let mut table = SymbolTable::new();
    table.enter_package(Pinned::new("/main.go", span("app", 0)), "app");
    Place {
        ctx,
        table,
        regions: SplitRegions::new(),
        loops: LoopStack::new(),
        active: vec![],
        halted: false,
    }
}

fn literal(text: &str) -> Node {
    let mut node = Node::plain(NodeKind::Literal, vec![], vec![], loc(5));
    node.text = Some(text.to_owned());
    node
}

fn name(content: &str) -> Node {
    Node::plain(NodeKind::Name, vec![span(content, 7)], vec![], loc(7))
}

fn short_decl(id: &str, value: Node) -> Node {
    Node::plain(NodeKind::ShortDecl, vec![span(id, 3)], vec![value], loc(3))
}

#[test]
fn visited_literals_carry_nothing() {
    let analyzer = Analyzer::new("app");
    let types: Vec<TypeDecl> = vec![];
    let env = Env { analyzer: &analyzer, types: &types };
    let mut p = place();
    let values = visit_expr(&env, &mut p, &literal("1"), 9);
    assert_eq!(values.len(), 1);
    assert!(values[0].backtrace().is_none());
    assert!(!p.halted);
}

#[test]
fn declared_names_can_be_read() {
    let analyzer = Analyzer::new("app");
    let types: Vec<TypeDecl> = vec![];
    let env = Env { analyzer: &analyzer, types: &types };
    let mut p = place();
    assert!(perform(&env, &mut p, &short_decl("x", literal("1")), &vec![], 9).is_none());
    assert!(p.table.get_symbol("x").is_some());
    assert_eq!(visit_expr(&env, &mut p, &name("x"), 9).len(), 1);
    assert!(p.ctx.log.take_errors().is_empty());
}

#[test]
fn arguments_of_wrong_calls_are_not_visited() {
    let analyzer = Analyzer::new("app");
    let types: Vec<TypeDecl> = vec![];
    let env = Env { analyzer: &analyzer, types: &types };
    let mut p = place();
    let call = Node::plain(
        NodeKind::Call { variadic: false },
        vec![],
        vec![name("len"), name("missing"), name("missing")],
        loc(9),
    );
    assert_eq!(visit_call(&env, &mut p, &call, 9).len(), 1);
    let errors = p.ctx.log.take_errors();
    assert_eq!(errors.len(), 1);
    assert!(matches!(
        errors[0].kind,
        AnalysisErrorKind::IncorrectCallCardinality { expected: 1, found: 2, .. }
    ));
}

#[test]
fn functions_in_files_are_visited() {
    let analyzer = Analyzer::new("app");
    let types: Vec<TypeDecl> = vec![];
    let env = Env { analyzer: &analyzer, types: &types };
    let mut p = place();
    let body = Node::plain(
        NodeKind::Block,
        vec![],
        vec![short_decl("x", literal("1"))],
        loc(20),
    );
    let mut function = Node::plain(NodeKind::FunctionDecl, vec![span("f", 12)], vec![body], loc(11));
    function.function = Some(FunctionShape {
        receiver: None,
        receiver_type: None,
        signature: Signature { params: vec![], result_count: 0 },
        param_types: vec![],
        result_types: vec![],
        results: vec![],
        result_names: vec![],
        yields: None,
    });
    let init = Node::plain(
        NodeKind::FunctionDecl,
        vec![span("init", 30)],
        vec![Node::plain(NodeKind::Block, vec![], vec![], loc(31))],
        loc(30),
    );
    let file = SourceFileNode {
        build_constraint: None,
        outline: FileOutlineNode { package: span("app", 0), imports: vec![], decls: vec![] },
        decls: vec![function, init],
    };
    visit_source_file(&env, &mut p, &file, &"app".to_owned(), 50);
    assert!(!p.halted);
    assert!(p.table.get_symbol("f").is_some());
    assert!(p.table.get_symbol("init").is_none());
    assert!(p.ctx.log.take_errors().is_empty());
}
