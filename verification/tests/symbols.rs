use glowy::ast::{DeclNode, FileOutlineNode, ImportSpecNode, TypeNode};
use glowy::context::declarations::{declare_new_method_symbol, declare_new_symbol};
use glowy::context::AnalysisContext;
use glowy::decls::{check_import_spec, receiver_base_type_name, visit_source_file};
use glowy::errors::AnalysisErrorKind;
use glowy::functions::FunctionRef;
use glowy::labels::backtraces::{LabelBacktrace, LabelBacktraceKind};
use glowy::labels::Label;
use glowy::locations::{Location, Pinned, Span};
use glowy::policy::targets::SimpleConstValue;
use glowy::symbols::table::packages::{
    infer_qualifier_from_import_path, QualifiedSymbolResolutionResult,
};
use glowy::symbols::table::SymbolTable;
use glowy::symbols::Symbol;
use glowy::taint::funcs::FunctionSummary;
use glowy::values::{Value, ValueForm};

fn span(content: &str, start: usize) -> Span {
    Span { content: content.to_owned(), location: Location { start, end: start + content.len() } }
}

fn named(content: &str, start: usize) -> Pinned<Span> {
    Pinned::new("/main.go", span(content, start))
}

fn symbol(name: &str, start: usize) -> Symbol {
    let declared_name = named(name, start);
    let value = Value::new_bottom(declared_name.pinned_location(), None);
    Symbol { declared_name, mutable: true, value, known_const: None }
}

fn in_package(path: &str) -> SymbolTable {
    let mut t = SymbolTable::new();
    t.enter_package(named("app", 8), path);
    t
}

fn context() -> AnalysisContext {
    let mut ctx = AnalysisContext::new();
    ctx.log.set_current_file("/main.go");
    ctx
}

fn declare(t: &mut SymbolTable, name: &str, start: usize) -> usize {
    let id = t.add_symbol(symbol(name, start));
    t.declare_new_symbol(name, id);
    id
}

#[test]
fn predeclared_names_are_there_from_the_start() {
    let t = in_package("app");
    assert!(t.get_symbol("len").is_some());
    assert!(t.get_symbol("true").is_some());
    assert!(t.get_symbol("nothing").is_none());
    assert!(t.resolves_to_predeclared("len"));
}

#[test]
fn declared_names_shadow_outer_ones() {
    let mut t = in_package("app");
    let outer = declare(&mut t, "x", 10);
    let len = declare(&mut t, "len", 20);
    assert_eq!(t.get_symbol("len"), Some(len));
    assert!(!t.resolves_to_predeclared("len"));
    t.select_next_child_scope();
    assert_eq!(t.get_symbol("x"), Some(outer));
    let inner = declare(&mut t, "x", 30);
    assert_eq!(t.get_symbol("x"), Some(inner));
    assert_eq!(t.get_symbol_above_current_scope("x"), Some(outer));
    assert_eq!(t.get_declared_in_current_scope("x"), Some(inner));
    t.select_parent_scope();
    assert_eq!(t.get_symbol("x"), Some(outer));
}

#[test]
fn rewound_scopes_are_entered_again() {
    let mut t = in_package("app");
    t.select_next_child_scope();
    let x = declare(&mut t, "x", 10);
    t.select_parent_scope();
    t.rewind_child_scope_cursor();
    t.select_next_child_scope();
    assert_eq!(t.get_symbol("x"), Some(x));
    t.select_parent_scope();
    t.select_next_child_scope();
    assert_eq!(t.get_symbol("x"), None);
}

#[test]
fn symbols_are_found_by_where_they_are_declared() {
    let mut t = in_package("app");
    let x = declare(&mut t, "x", 10);
    assert_eq!(t.get_symbol_by_declaration(&named("x", 10)), Some(x));
    assert_eq!(t.get_symbol_by_declaration(&named("x", 11)), None);
}

#[test]
fn values_and_constants_can_be_replaced() {
    let mut t = in_package("app");
    let x = declare(&mut t, "x", 10);
    let value = Value::new_bottom(named("y", 5).pinned_location(), None);
    t.set_value(x, value, Some(SimpleConstValue { text: "7".to_owned() }));
    assert_eq!(t.symbol(x).known_const.as_ref().unwrap().text, "7");
    t.mark_immutable(x);
    assert!(!t.symbol(x).mutable);
}

#[test]
fn redeclarations_are_reported() {
    let mut t = in_package("app");
    let mut ctx = context();
    let first = t.add_symbol(symbol("x", 10));
    declare_new_symbol(&mut ctx.log, &mut t, first);
    let again = t.add_symbol(symbol("x", 10));
    declare_new_symbol(&mut ctx.log, &mut t, again);
    assert!(ctx.log.take_errors().is_empty());
    let second = t.add_symbol(symbol("x", 50));
    declare_new_symbol(&mut ctx.log, &mut t, second);
    let errors = ctx.log.take_errors();
    assert_eq!(errors.len(), 1);
    assert!(matches!(errors[0].kind, AnalysisErrorKind::IllegalRedeclaration { .. }));
}

#[test]
fn imports_resolve_to_exported_symbols() {
    let mut t = in_package("example.com/lib");
    let public = declare(&mut t, "Public", 10);
    declare(&mut t, "private", 20);
    t.enter_package(named("main", 8), "example.com/app");
    assert_eq!(t.register_import_spec(None, "example.com/lib", false), Some(false));
    assert!(t.qualifier_exists("app"));
    assert!(matches!(
        t.get_qualified_symbol("app", "Public"),
        QualifiedSymbolResolutionResult::Success(s) if s == public
    ));
    assert!(matches!(
        t.get_qualified_symbol("app", "private"),
        QualifiedSymbolResolutionResult::UnknownSymbol
    ));
    assert!(matches!(
        t.get_qualified_symbol("other", "Public"),
        QualifiedSymbolResolutionResult::UnknownQualifier
    ));
}

#[test]
fn names_with_a_capital_beyond_ascii_are_exported() {
    let mut t = in_package("example.com/lib");
    let public = declare(&mut t, "Élan", 10);
    declare(&mut t, "élan", 20);
    t.enter_package(named("main", 8), "example.com/app");
    t.register_import_spec(Some("lib".to_owned()), "example.com/lib", false);
    assert!(matches!(
        t.get_qualified_symbol("lib", "Élan"),
        QualifiedSymbolResolutionResult::Success(s) if s == public
    ));
    assert!(matches!(
        t.get_qualified_symbol("lib", "élan"),
        QualifiedSymbolResolutionResult::UnknownSymbol
    ));
}

#[test]
fn packages_without_source_are_black_boxes() {
    let mut t = in_package("app");
    assert_eq!(t.register_import_spec(None, "fmt", true), Some(false));
    assert!(t.is_package_blackbox("fmt"));
    assert_eq!(t.register_import_spec(None, "os", true), Some(false));
    assert!(!t.is_package_blackbox("os"));
    assert!(matches!(
        t.get_qualified_symbol("os", "Getenv"),
        QualifiedSymbolResolutionResult::PendingAnalysis
    ));
}

#[test]
fn dot_imports_bring_in_all_exported_names() {
    let mut t = in_package("example.com/lib");
    let public = declare(&mut t, "Public", 10);
    t.enter_package(named("main", 8), "example.com/app");
    assert_eq!(t.get_symbol("Public"), None);
    t.register_import_spec(Some(".".to_owned()), "example.com/lib", false);
    assert_eq!(t.get_symbol("Public"), Some(public));
}

#[test]
fn qualifiers_are_inferred_from_paths() {
    assert_eq!(infer_qualifier_from_import_path("net/http"), "http");
    assert_eq!(infer_qualifier_from_import_path("github.com/user/yaml/v3"), "yaml");
    assert_eq!(infer_qualifier_from_import_path("github.com/user/yaml"), "yaml");
    assert_eq!(infer_qualifier_from_import_path("example.com/user/yaml/v3"), "v3");
    assert_eq!(infer_qualifier_from_import_path("fmt"), "fmt");
}

#[test]
fn conflicting_imports_are_reported() {
    let mut t = in_package("app");
    let mut ctx = context();
    ctx.log.set_stage(glowy::context::reports::AnalysisStage::EnforceSecurityPolicies);
    let spec = |path: &str| ImportSpecNode {
        identifier: None,
        path: path.to_owned(),
        location: Location { start: 1, end: 2 },
    };
    check_import_spec(&mut ctx, &mut t, &spec("crypto/rand"));
    assert!(ctx.log.take_errors().is_empty());
    check_import_spec(&mut ctx, &mut t, &spec("math/rand"));
    let errors = ctx.log.take_errors();
    assert_eq!(errors.len(), 1);
    assert!(matches!(errors[0].kind, AnalysisErrorKind::DuplicateImportQualifier { .. }));
}

#[test]
fn imports_whose_name_cannot_be_told_are_reported() {
    let mut t = in_package("app");
    let mut ctx = context();
    let spec = ImportSpecNode {
        identifier: None,
        path: "example.com/unknown".to_owned(),
        location: Location { start: 1, end: 2 },
    };
    check_import_spec(&mut ctx, &mut t, &spec);
    let errors = ctx.log.take_errors();
    assert!(matches!(errors[0].kind, AnalysisErrorKind::UnresolvableUnqualifiedImport { .. }));
}

#[test]
fn only_methods_are_found_by_name_alone() {
    let mut t = in_package("app");
    let mut ctx = context();
    let m = t.add_symbol(symbol("Do", 10));
    declare_new_method_symbol(&mut ctx.log, &mut t, "Server", m);
    assert_eq!(t.lookup_unique_method_in_current_package("Do"), Some(m));
    let n = t.add_symbol(symbol("Do", 30));
    declare_new_method_symbol(&mut ctx.log, &mut t, "Client", n);
    assert_eq!(t.lookup_unique_method_in_current_package("Do"), None);
    assert!(ctx.log.take_errors().is_empty());
}

#[test]
fn receivers_belong_to_their_base_types() {
    let name = TypeNode::Name { qualified: false, id: span("Server", 0) };
    assert_eq!(receiver_base_type_name(&name), Some("Server"));
    let pointer = TypeNode::Pointer(Box::new(name));
    assert_eq!(receiver_base_type_name(&pointer), Some("Server"));
    let foreign = TypeNode::Name { qualified: true, id: span("Server", 0) };
    assert_eq!(receiver_base_type_name(&foreign), None);
    assert_eq!(receiver_base_type_name(&TypeNode::Other), None);
}

fn outline(package: &str, decls: Vec<DeclNode>) -> FileOutlineNode {
    FileOutlineNode {
        package: span(package, 8),
        imports: vec![ImportSpecNode {
            identifier: None,
            path: "os".to_owned(),
            location: Location { start: 20, end: 24 },
        }],
        decls,
    }
}

#[test]
fn declarations_of_files_are_recorded() {
    let mut t = SymbolTable::new();
    let mut ctx = context();
    let file = outline(
        "app",
        vec![
            DeclNode::Binding {
                ids: vec![span("x", 30), span("_", 33)],
                mutable: true,
                declared_type: None,
            },
            DeclNode::Type { id: span("T", 40), target: None },
            DeclNode::Function { name: span("f", 50), receiver: None },
            DeclNode::Function { name: span("init", 60), receiver: None },
            DeclNode::Function {
                name: span("m", 70),
                receiver: Some(TypeNode::Pointer(Box::new(TypeNode::Name {
                    qualified: false,
                    id: span("T", 74),
                }))),
            },
        ],
    );
    visit_source_file(&mut ctx, &mut t, &file, "app");
    assert!(ctx.log.take_errors().is_empty());
    assert!(t.symbol(t.get_symbol("x").unwrap()).mutable);
    assert!(t.get_symbol("_").is_none());
    let constructor = t.get_symbol("T").unwrap();
    match &t.symbol(constructor).value.form {
        ValueForm::Function(f) => assert!(t.function(*f).is_type_constructor),
        _ => panic!("a type converts values"),
    }
    assert!(t.get_symbol("f").is_some());
    assert!(t.get_symbol("init").is_none());
    assert!(t.get_symbol("m").is_none());
    assert!(t.lookup_unique_method_in_current_package("m").is_some());
    assert!(t.qualifier_exists("os"));
}

#[test]
fn files_of_one_package_must_agree_on_its_name() {
    let mut t = SymbolTable::new();
    let mut ctx = context();
    visit_source_file(&mut ctx, &mut t, &outline("app", vec![]), "app");
    let other =
        outline("other", vec![DeclNode::Function { name: span("f", 50), receiver: None }]);
    visit_source_file(&mut ctx, &mut t, &other, "app");
    let errors = ctx.log.take_errors();
    assert_eq!(errors.len(), 1);
    assert!(matches!(errors[0].kind, AnalysisErrorKind::DistinctPackageName { .. }));
    assert!(t.get_symbol("f").is_none());
}

#[test]
fn snapshots_tell_whether_something_changed() {
    let mut t = in_package("app");
    let x = declare(&mut t, "x", 10);
    let before = t.snapshot();
    assert!(before.same_as(&t.snapshot()));
    let value = Value::new_bottom(named("y", 5).pinned_location(), None);
    t.set_value(x, value, Some(SimpleConstValue { text: "7".to_owned() }));
    assert!(!before.same_as(&t.snapshot()));
}

fn function_returning(start: usize, outcome: Value) -> FunctionSummary {
    let mut f = FunctionSummary::new_unknown(FunctionRef::Named(named("f", start)), None, false);
    f.outcome = Some(vec![outcome]);
    f
}

fn tainted(tag: &str) -> Value {
    let at = named("y", 5).pinned_location();
    let trace = LabelBacktrace::new_root(
        LabelBacktraceKind::ExplicitAnnotation,
        Label::from_tags(vec![tag]),
        None,
        Pinned::new("/main.go", Location { start: 1, end: 2 }),
    );
    Value::from_backtrace_or_bottom_at(trace, &at)
}

fn function_value(id: usize) -> Value {
    let at = named("f", 10).pinned_location();
    Value::new(ValueForm::Function(id), None, at, None, vec![])
}

#[test]
fn snapshots_go_by_what_functions_do() {
    let mut t = in_package("app");
    let f = declare(&mut t, "f", 10);
    let first = t.add_function(function_returning(10, tainted("a")));
    t.set_value(f, function_value(first), None);
    let before = t.snapshot();
    let again = t.add_function(function_returning(10, tainted("a")));
    t.set_value(f, function_value(again), None);
    assert!(before.same_as(&t.snapshot()));
    let changed = t.add_function(function_returning(10, tainted("b")));
    t.set_value(f, function_value(changed), None);
    assert!(!before.same_as(&t.snapshot()));
    let other = t.add_function(function_returning(20, tainted("a")));
    t.set_value(f, function_value(other), None);
    assert!(!before.same_as(&t.snapshot()));
}
